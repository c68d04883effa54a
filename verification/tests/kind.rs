use calendar::kind::{kind, names, rules};

#[test]
fn titles_sort_into_kinds() {
    for (title, want) in [
        ("The Estimation Game: How Well Calibrated Are Your Intuitions?", "estimation"),
        ("Dine and Discuss: The Hugging Face Incident", "dinner"),
        ("Community Dinner: Natalism vs Antinatalism - Thu, August 1", "dinner"),
        ("ACX community dinner", "dinner"),
        ("Movie night: Chernobyl", "movie"),
        ("Discussion meetup: polygenic screening", "discussion"),
        ("Join me for a walk with (vegan) pick-nick/lunch in the Westpark", "outdoors"),
        ("Worldbuilding Reading Picnic", "discussion"),
        ("Authentic Relating: Body Language – Tue 15.04", "workshop"),
        ("EA Munich Speaker Series with Patrick Gruban", "talk"),
        ("Introduction to Effective Altruism", "talk"),
        ("2nd Unofficial ACX Weekend", "weekend"),
        ("Blood on the Clocktower", "games"),
        ("Effektiver Altruismus München Social Meetup", "social"),
        ("EA München Weihnachts-Meetup", "social"),
        ("Taking animals seriously?", "other"),
    ] {
        assert_eq!(kind(title), want, "{title}");
    }
}

#[test]
fn every_kind_has_a_name() {
    let names = names();
    for (k, _) in rules() {
        assert!(names.iter().any(|(n, _)| *n == k), "{k}");
    }
}

#[test]
fn an_empty_title_is_other() {
    assert_eq!(kind(""), "other");
    assert!(names().iter().any(|(n, _)| *n == "other"));
}
