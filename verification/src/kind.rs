//! What sort of event something is, read from its title: a dinner, a talk,
//! a hike. Turnout differs a lot between them, so forecasts compare like
//! with like, and the statistics page counts them apart.

use vstd::prelude::*;
use crate::text::{chars_of, contains_seq, contains_str, push_str, spec_to_lowercase, to_lowercase};

verus! {

/// Checked in order, first match wins: specific phrases before general
/// ones ("Estimation Game" before games, "Dine and Discuss" as a dinner),
/// and outdoor words that also turn up in other titles ("reading picnic")
/// only after the rest. Matched as lowercase substrings, German included.
pub open spec fn kind_rules() -> Seq<(Seq<char>, Seq<Seq<char>>)> {
    seq![
        ("estimation"@, seq!["estimation game"@, "calibrat"@]),
        ("weekend"@, seq!["weekend"@, "retreat"@, "unconference"@, " camp"@]),
        ("movie"@, seq!["movie"@, "film"@, "documentary"@, "cinema"@, "kino"@]),
        ("outdoors"@, seq!["hike"@, "walk"@, "mountain"@, "bouldering"@, "swim"@, "bike"@, "wanderung"@]),
        ("dinner"@, seq!["dinner"@, "dine "@, "brunch"@, "lunch"@, "potluck"@, "breakfast"@, "barbecue"@,
            "abendessen"@]),
        ("workshop"@, seq!["workshop"@, "hackathon"@, "authentic relating"@, "circling"@, "debugging"@,
            "training"@, "giving game"@, "career"@, "planning"@, "plan to be"@]),
        ("talk"@, seq!["talk"@, "speaker"@, "lecture"@, "panel"@, "presentation"@, "fireside"@,
            "introduction"@, "intro "@, "vortrag"@]),
        ("discussion"@, seq!["reading"@, "book club"@, "discussion"@, "discuss"@, "paper"@,
            "journal club"@, "seminar"@, "fellowship"@, "forum"@, "cafminar"@, "salon"@, "debate"@,
            "diskussion"@, "lesekreis"@]),
        ("outdoors"@, seq!["picnic"@, "lake"@, "isar"@, "garden"@, "park"@, "outdoor"@]),
        ("games"@, seq!["game"@, "clocktower"@, "d&d"@, "spieleabend"@]),
        ("social"@, seq!["social"@, "meetup"@, "meet-up"@, "hangout"@, "party"@, "drinks"@, "pub"@,
            "celebration"@, "karaoke"@, "speedfriending"@, "stammtisch"@, "soirée"@, "soiree"@,
            "christmas"@, "weihnacht"@]),
    ]
}

pub open spec fn rules_view(r: Seq<(&str, Vec<&str>)>) -> Seq<(Seq<char>, Seq<Seq<char>>)> {
    r.map_values(|x: (&str, Vec<&str>)| (x.0@, x.1@.map_values(|w: &str| w@)))
}

/// The rules a title is sorted by, in the order they are tried.
pub fn rules() -> (r: Vec<(&'static str, Vec<&'static str>)>)
    ensures
        rules_view(r@) == kind_rules(),
{
    let r = vec![
        ("estimation", vec!["estimation game", "calibrat"]),
        ("weekend", vec!["weekend", "retreat", "unconference", " camp"]),
        ("movie", vec!["movie", "film", "documentary", "cinema", "kino"]),
        ("outdoors", vec!["hike", "walk", "mountain", "bouldering", "swim", "bike", "wanderung"]),
        ("dinner", vec!["dinner", "dine ", "brunch", "lunch", "potluck", "breakfast", "barbecue",
            "abendessen"]),
        ("workshop", vec!["workshop", "hackathon", "authentic relating", "circling", "debugging",
            "training", "giving game", "career", "planning", "plan to be"]),
        ("talk", vec!["talk", "speaker", "lecture", "panel", "presentation", "fireside",
            "introduction", "intro ", "vortrag"]),
        ("discussion", vec!["reading", "book club", "discussion", "discuss", "paper",
            "journal club", "seminar", "fellowship", "forum", "cafminar", "salon", "debate",
            "diskussion", "lesekreis"]),
        ("outdoors", vec!["picnic", "lake", "isar", "garden", "park", "outdoor"]),
        ("games", vec!["game", "clocktower", "d&d", "spieleabend"]),
        ("social", vec!["social", "meetup", "meet-up", "hangout", "party", "drinks", "pub",
            "celebration", "karaoke", "speedfriending", "stammtisch", "soirée", "soiree",
            "christmas", "weihnacht"]),
    ];
    assert(rules_view(r@) =~= kind_rules()) by {
        assert forall|i: int| 0 <= i < r@.len() implies #[trigger] rules_view(r@)[i] == kind_rules()[i] by {
            assert(r@[i].1@.map_values(|w: &str| w@) =~= kind_rules()[i].1);
        }
    }
    r
}

/// Names for the statistics page, in the order it lists them.
pub open spec fn kind_names() -> Seq<(Seq<char>, Seq<char>)> {
    seq![
        ("dinner"@, "Dinners"@),
        ("social"@, "Socials"@),
        ("talk"@, "Talks"@),
        ("discussion"@, "Discussions and reading groups"@),
        ("workshop"@, "Workshops"@),
        ("movie"@, "Movie nights"@),
        ("estimation"@, "Estimation Games"@),
        ("games"@, "Games"@),
        ("outdoors"@, "Outdoors"@),
        ("weekend"@, "Weekends and retreats"@),
        ("other"@, "Other"@),
    ]
}

pub open spec fn names_view(t: Seq<(&str, &str)>) -> Seq<(Seq<char>, Seq<char>)> {
    t.map_values(|p: (&str, &str)| (p.0@, p.1@))
}

/// `NAMES`: each kind with the name the statistics page gives it.
pub fn names() -> (r: Vec<(&'static str, &'static str)>)
    ensures
        names_view(r@) == kind_names(),
{
    let r = vec![
        ("dinner", "Dinners"),
        ("social", "Socials"),
        ("talk", "Talks"),
        ("discussion", "Discussions and reading groups"),
        ("workshop", "Workshops"),
        ("movie", "Movie nights"),
        ("estimation", "Estimation Games"),
        ("games", "Games"),
        ("outdoors", "Outdoors"),
        ("weekend", "Weekends and retreats"),
        ("other", "Other"),
    ];
    assert(names_view(r@) =~= kind_names());
    r
}

/// Whether one of `words` occurs in `t`.
pub open spec fn any_word(t: Seq<char>, words: Seq<Seq<char>>) -> bool {
    exists|k: int| 0 <= k < words.len() && contains_seq(t, #[trigger] words[k])
}

/// The key of the first rule from `i` on with a word in `t`; `other` when
/// none has.
pub open spec fn first_kind(t: Seq<char>, rules: Seq<(Seq<char>, Seq<Seq<char>>)>, i: int) -> Seq<char>
    decreases rules.len() - i,
{
    if i < 0 || i >= rules.len() {
        "other"@
    } else if any_word(t, rules[i].1) {
        rules[i].0
    } else {
        first_kind(t, rules, i + 1)
    }
}

/// The title lowercased, with a space at either end so that words can be
/// matched at its edges (" camp", "intro ").
pub open spec fn padded_lower(title: Seq<char>) -> Seq<char> {
    seq![' '] + spec_to_lowercase(title) + seq![' ']
}

pub open spec fn spec_kind(title: Seq<char>) -> Seq<char> {
    first_kind(padded_lower(title), kind_rules(), 0)
}

pub fn kind(title: &str) -> (r: &'static str)
    ensures
        r@ == spec_kind(title@),
{
    let mut t: Vec<char> = Vec::new();
    t.push(' ');
    push_str(&mut t, to_lowercase(title).as_str());
    t.push(' ');
    assert(t@ =~= padded_lower(title@));
    let rules = rules();
    let ghost rv = rules_view(rules@);
    let mut i: usize = 0;
    while i < rules.len()
        invariant
            i <= rules@.len(),
            rv == rules_view(rules@),
            rv == kind_rules(),
            t@ == padded_lower(title@),
            spec_kind(title@) == first_kind(t@, rv, i as int),
        decreases rules@.len() - i,
    {
        let words = &rules[i].1;
        assert(rv[i as int].1 == words@.map_values(|w: &str| w@));
        let mut k: usize = 0;
        while k < words.len()
            invariant
                k <= words@.len(),
                i < rules@.len(),
                words == &rules@[i as int].1,
                rv == rules_view(rules@),
                t@ == padded_lower(title@),
                spec_kind(title@) == first_kind(t@, rv, i as int),
                rv[i as int].1 == words@.map_values(|w: &str| w@),
                forall|m: int| 0 <= m < k ==> !contains_seq(t@, #[trigger] rv[i as int].1[m]),
            decreases words@.len() - k,
        {
            if contains_str(&t, words[k]) {
                assert(any_word(t@, rv[i as int].1)) by {
                    assert(contains_seq(t@, rv[i as int].1[k as int]));
                }
                assert(rv[i as int].0 == rules@[i as int].0@);
                return rules[i].0;
            }
            k = k + 1;
        }
        i = i + 1;
    }
    "other"
}

/// Every kind a title can be sorted into has a name on the statistics page.
pub proof fn law_every_kind_has_a_name(title: Seq<char>)
    ensures
        exists|i: int| 0 <= i < kind_names().len() && (#[trigger] kind_names()[i]).0 == spec_kind(title),
{
    let t = padded_lower(title);
    let r = kind_rules();
    let k = spec_kind(title);
    assert(first_kind(t, r, 11) == "other"@);
    assert(k == "estimation"@ || k == "weekend"@ || k == "movie"@ || k == "outdoors"@
        || k == "dinner"@ || k == "workshop"@ || k == "talk"@ || k == "discussion"@
        || k == "games"@ || k == "social"@ || k == "other"@) by {
        reveal_with_fuel(first_kind, 12);
    }
    if k == "dinner"@ { assert(kind_names()[0].0 == k); }
    else if k == "social"@ { assert(kind_names()[1].0 == k); }
    else if k == "talk"@ { assert(kind_names()[2].0 == k); }
    else if k == "discussion"@ { assert(kind_names()[3].0 == k); }
    else if k == "workshop"@ { assert(kind_names()[4].0 == k); }
    else if k == "movie"@ { assert(kind_names()[5].0 == k); }
    else if k == "estimation"@ { assert(kind_names()[6].0 == k); }
    else if k == "games"@ { assert(kind_names()[7].0 == k); }
    else if k == "outdoors"@ { assert(kind_names()[8].0 == k); }
    else if k == "weekend"@ { assert(kind_names()[9].0 == k); }
    else { assert(kind_names()[10].0 == k); }
}

} // verus!
