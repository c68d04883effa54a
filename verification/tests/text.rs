use calendar::text::{collapse_whitespace, find_str, parse_int, replace, split_alnum};

fn chars(s: &str) -> Vec<char> {
    s.chars().collect()
}

fn string(v: Vec<char>) -> String {
    v.into_iter().collect()
}

#[test]
fn whitespace_runs_become_one_space() {
    assert_eq!(string(collapse_whitespace(&chars("  a \n\t b  "))), "a b");
}

#[test]
fn words_split_at_anything_but_letters_and_digits() {
    let got: Vec<String> = split_alnum(&chars("ACX: meetup-2026")).into_iter().map(string).collect();
    assert_eq!(got, ["ACX", "", "meetup", "2026"]);
}

#[test]
fn replacing_every_occurrence() {
    assert_eq!(string(replace(&chars("a{{x}}b{{x}}"), "{{x}}", "-")), "a-b-");
}

#[test]
fn finding_a_string() {
    assert_eq!(find_str(&chars("hello world"), "world", 0), Some(6));
    assert_eq!(find_str(&chars("hello world"), "o", 5), Some(7));
    assert_eq!(find_str(&chars("hello"), "x", 0), None);
}

#[test]
fn numbers_parse_as_std_does() {
    assert_eq!(parse_int(&chars("-42"), 100), Some(-42));
    assert_eq!(parse_int(&chars("+7"), 100), Some(7));
    assert_eq!(parse_int(&chars("4x"), 100), None);
    assert_eq!(parse_int(&chars("101"), 100), None);
}
