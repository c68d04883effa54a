use calendar::event::{slugify, Event, Raw};
use calendar::stats::{bar, month_name, render, summary};
use chrono::TimeZone;

fn ev(title: &str, minutes: i64, label: &str) -> Event {
    let t = chrono::Utc.with_ymd_and_hms(2026, 9, 26, 16, 0, 0).unwrap().timestamp() + minutes * 60;
    let slug: String = slugify(title).into_iter().collect();
    let url = format!("https://example.org/{label}/{slug}");
    Event::new(Raw {
        title,
        start: t,
        end: None,
        location: "",
        online: false,
        text: "",
        group: "ea",
        label,
        url: &url,
    })
}

#[test]
fn counts_per_year_and_group_without_double_counting_the_total() {
    let mut shared = ev("Petrov Day", 0, "A");
    shared.groups = vec!["acx".into(), "ea".into()];
    let solo = ev("Dinner", 120, "B");
    let html = render(&[&shared, &solo]);
    assert!(html.contains("<b>2</b> events since 2026"));
    assert!(html.contains(
        r#"<tr data-y="2026"><th scope="row">2026</th><td data-g="acx">1</td><td data-g="ea">2</td><td data-g="philosophia" hidden>0</td>"#
    ));
    assert!(html.contains("busiest month so far was Sep 2026, with 2"));
    assert!(html.contains(r#"[[2026,8,5,["acx","ea"],26,null],[2026,8,5,["ea"],26,null]]"#));
}

#[test]
fn groups_that_start_off_are_not_counted_until_switched_on() {
    let mut reading = ev("Leviathan by Hobbes", 0, "Philosophia");
    reading.groups = vec!["philosophia".into()];
    let html = render(&[&reading, &ev("Dinner", 0, "B")]);
    assert!(html.contains("<b>1</b> events since 2026"));
    assert!(html.contains(r#"["philosophia"]"#));
}

#[test]
fn unannounced_events_count_and_say_so() {
    let mut dinner = ev("Community dinner", 0, "");
    dinner.groups = vec!["acx".into()];
    dinner.chat = true;
    let html = render(&[&dinner]);
    assert!(html.contains("<b>1</b> events since 2026"));
    assert!(html.contains("included since November 2025"));
}

#[test]
fn months_have_short_names() {
    assert_eq!(month_name(0), "Jan");
    assert_eq!(month_name(8), "Sep");
    assert_eq!(month_name(11), "Dec");
}

#[test]
fn a_bar_is_a_share_of_the_largest() {
    let full: String = bar(4, 4).into_iter().collect();
    let half: String = bar(2, 4).into_iter().collect();
    assert!(full.contains("100%"));
    assert!(half.contains("50%"));
}

#[test]
fn the_summary_names_the_busiest_month() {
    let s = summary(5, Some(2025), Some((2, 2026, 3)));
    assert!(s.contains("<b>5</b> events since 2025"));
    assert!(s.contains("Apr 2026, with 2"));
}
