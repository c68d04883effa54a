use calendar::event::{
    assign_ids, excerpt, group_keys, merge, same_event, sanitize, slugify, Event, Raw, EXCERPT_CHARS,
};
use chrono::TimeZone;

fn ev(title: &str, minutes: i64, label: &str) -> Event {
    let t = chrono::Utc.with_ymd_and_hms(2026, 9, 26, 16, 0, 0).unwrap().timestamp() + minutes * 60;
    let slug: String = slugify(title).into_iter().collect();
    let url = format!("https://example.org/{label}/{slug}");
    Event::new(Raw {
        title,
        start: t,
        end: None,
        location: "",
        online: false,
        text: "",
        group: "ea",
        label,
        url: &url,
    })
}

#[test]
fn cross_posts_match_despite_different_titles() {
    let same = [
        ("Petrov Day", "Petrov Day Ritual: Munich (multiplayer Petrov)"),
        ("ACX Meetups Everywhere Munich", "Munich ACX Meetup (Everywhere, Fall 2026)"),
        ("EA Social: October", "EA Munich Social - October"),
    ];
    for (a, b) in same {
        assert!(same_event(&ev(a, 0, "A"), &ev(b, 10, "B")), "{a} | {b}");
    }
}

#[test]
fn different_events_stay_apart() {
    let different = [("Board games", "EA Social"), ("EA Intro Talk", "EA Dinner")];
    for (a, b) in different {
        assert!(!same_event(&ev(a, 0, "A"), &ev(b, 0, "B")), "{a} | {b}");
    }
    assert!(!same_event(&ev("Petrov Day", 0, "A"), &ev("Petrov Day", 24 * 60, "B")));
}

#[test]
fn merge_keeps_every_link_and_group_and_the_best_details() {
    let mut a = ev("Petrov Day Ritual: Munich", 0, "LessWrong");
    a.groups = vec!["acx".into()];
    a.location = "Munich, Germany".into();
    let mut b = ev("Petrov Day Ritual: Munich (multiplayer Petrov)", 15, "EA Forum");
    b.location = "Café X, Leopoldstr. 1, München".into();
    let merged = merge(vec![a, b, ev("Board games", 0, "LessWrong")]);
    assert_eq!(merged.len(), 2);
    let petrov = merged.iter().find(|e| e.title.contains("Petrov")).unwrap();
    assert_eq!(petrov.links.len(), 2);
    assert_eq!(petrov.groups, ["acx", "ea"]);
    assert_eq!(petrov.location, "Café X, Leopoldstr. 1, München");
}

#[test]
fn a_moved_time_still_matches_on_the_same_day() {
    let posted = ev("Community picnic", 0, "EA Forum");
    let moved = ev("EA Community Picnic", 90, "Meetup");
    assert!(same_event(&posted, &moved));
    assert!(!same_event(&posted, &ev("Board games", 90, "Meetup")));
    assert!(!same_event(&posted, &ev("Community picnic", 24 * 60, "Meetup")));
    assert_eq!(merge(vec![posted, moved]).len(), 1);
}

#[test]
fn titles_naming_the_other_community_join_it() {
    let mut spring = ev("ACX Spring Meetups Everywhere 2026", 0, "EA Forum");
    spring.groups = vec!["ea".into()];
    let mut reading = ev("Rationality and the EA mindset", 60, "Philosophia");
    reading.groups = vec!["philosophia".into()];
    let merged = merge(vec![spring, reading]);
    assert_eq!(merged[0].groups, ["acx", "ea"]);
    assert_eq!(merged[1].groups, ["philosophia"]);
}

#[test]
fn ids_are_readable_stable_and_unique() {
    let mut events = vec![
        ev("Petrov Day Ritual: Munich (multiplayer Petrov)", 0, "A"),
        ev("Board games", 0, "B"),
        ev("Board games", 120, "C"),
        ev("Führung durch die Glyptothek", 0, "D"),
    ];
    assign_ids(&mut events);
    assert_eq!(events[0].id, "2026-09-26-petrov-day-ritual-munich-multiplayer-petrov");
    assert_eq!(events[1].id, "2026-09-26-board-games");
    assert_eq!(events[2].id, "2026-09-26-board-games-2");
    assert_eq!(events[3].id, "2026-09-26-fuehrung-durch-die-glyptothek");
}

#[test]
fn feed_urls_and_control_characters_do_not_survive() {
    let mut bad = ev("Evil", 0, "A");
    bad.links = vec![("X".into(), "javascript:alert(1)".into())];
    let mut ok = ev("Reading\rATTACH:x group", 60, "B");
    ok.location = "Room 1\nX-FOO:bar, Germany".into();
    ok.links.push(("Y".into(), "https://example.org/a\nATTACH:x".into()));
    let got = sanitize(vec![bad, ok]);
    assert_eq!(got.len(), 1);
    assert_eq!(got[0].links.len(), 1);
    assert_eq!(got[0].title, "ReadingATTACH:x group");
    assert_eq!(got[0].location, "Room 1X-FOO:bar");
}

#[test]
fn old_caches_with_group_names_still_load() {
    let mut e = ev("Dinner", 0, "A");
    e.groups = vec!["EA Munich".into(), "Somebody else".into()];
    assert_eq!(sanitize(vec![e])[0].groups, ["ea"]);
}

#[test]
fn excerpt_cuts_at_a_word() {
    let e = excerpt(&"word ".repeat(100));
    assert!(e.ends_with(" …") && e.chars().count() <= EXCERPT_CHARS + 2);
}

#[test]
fn a_short_text_is_its_own_excerpt() {
    assert_eq!(excerpt("Bring snacks."), "Bring snacks.");
}

#[test]
fn group_names_become_keys_once() {
    let gs: Vec<String> = vec!["EA Munich".into(), "ea".into(), "acx".into(), "Nobody".into()];
    assert_eq!(group_keys(&gs), ["acx", "ea"]);
}

#[test]
fn namesakes_far_apart_in_a_merge_stay_two() {
    let merged = merge(vec![ev("Board games", 0, "A"), ev("Board games", 3 * 24 * 60, "B")]);
    assert_eq!(merged.len(), 2);
    assert!(merged[0].start < merged[1].start);
}

#[test]
fn slugs_spell_out_umlauts() {
    let slug: String = slugify("Führung: Über Größe!").into_iter().collect();
    assert_eq!(slug, "fuehrung-ueber-groesse");
}
