//! The library's laws on concrete values.
use calendar::event::{assign_ids, groups, merge, same_event, sanitize, slugify, Came, Event, Raw};
use calendar::sources::{apply_polls, apply_ranges, unannounced, Poll, Range, Unlisted};
use calendar::ics::{escape, fold, unescape};
use calendar::kind::{kind, names};
use calendar::render::html_escape;
use chrono::TimeZone;

fn ev(title: &str, minutes: i64, label: &str) -> Event {
    let t = chrono::Utc.with_ymd_and_hms(2026, 9, 26, 16, 0, 0).unwrap().timestamp() + minutes * 60;
    let slug: String = slugify(title).into_iter().collect();
    let url = format!("https://example.org/{label}/{slug}");
    Event::new(Raw {
        title,
        start: t,
        end: None,
        location: "",
        online: false,
        text: "",
        group: "ea",
        label,
        url: &url,
    })
}

#[test]
fn merged_events_are_no_cross_posts_of_each_other() {
    let merged = merge(vec![
        ev("Petrov Day", 0, "A"),
        ev("Board games", 30, "B"),
        ev("Petrov Day Ritual: Munich (multiplayer Petrov)", 10, "C"),
        ev("Board games night", 40, "D"),
        ev("EA Dinner", 200, "E"),
    ]);
    assert_eq!(merged.len(), 3);
    for i in 0..merged.len() {
        for j in i + 1..merged.len() {
            assert!(!same_event(&merged[i], &merged[j]));
        }
    }
}

#[test]
fn namesakes_get_distinct_ids() {
    let mut events = vec![ev("Board games", 0, "A"), ev("Board games", 60, "B"), ev("Board games", 120, "C")];
    assign_ids(&mut events);
    assert_eq!(events[2].id, "2026-09-26-board-games-3");
    assert!(events[0].id != events[1].id && events[1].id != events[2].id && events[0].id != events[2].id);
}

#[test]
fn a_title_ending_like_a_number_still_gets_its_own_id() {
    let mut events = vec![ev("Board games", 0, "A"), ev("Board games", 60, "B"), ev("Board games 2", 120, "C")];
    assign_ids(&mut events);
    assert_eq!(events[0].id, "2026-09-26-board-games");
    assert_eq!(events[1].id, "2026-09-26-board-games-2");
    assert_eq!(events[2].id, "2026-09-26-board-games-2-2");
    let mut events = vec![ev("Board games 2", 0, "A"), ev("Board games", 60, "B"), ev("Board games", 120, "C")];
    assign_ids(&mut events);
    assert_eq!(events[2].id, "2026-09-26-board-games-3");
}

#[test]
fn unescape_undoes_escape_and_folding_undoes_itself() {
    let s = "Zürich; Bern, Basel\\Genf\nLuzern";
    assert_eq!(unescape(&escape(s)), s);
    let line = format!("DESCRIPTION:{}", "Grüße ".repeat(40));
    assert_eq!(fold(&line).replace("\r\n ", ""), line);
}

#[test]
fn every_title_gets_a_named_kind() {
    for t in ["", "Dinner", "Something", "!!!"] {
        let k = kind(t);
        assert!(names().iter().any(|(n, _)| *n == k));
    }
}

#[test]
fn escaped_text_has_no_markup() {
    let out = html_escape("<b onclick='x'>\"hi\"</b>");
    assert!(!out.contains('<') && !out.contains('>') && !out.contains('"') && !out.contains('\''));
}

#[test]
fn sanitized_events_are_clean() {
    let mut a = ev("Talk\u{7}\nnight", 0, "A");
    a.links.push(("B".into(), "ftp://example.org/x".into()));
    a.groups = vec!["ea".into(), "Nobody".into()];
    let mut b = ev("No link", 60, "B");
    b.links.clear();
    let got = sanitize(vec![a, b]);
    assert_eq!(got.len(), 1);
    let keys: Vec<&str> = groups().iter().map(|(k, _)| *k).collect();
    for e in &got {
        assert!(!e.title.is_empty() && !e.title.chars().any(char::is_control));
        assert!(e.links.iter().all(|(_, u)| u.starts_with("https://") || u.starts_with("http://")));
        assert!(e.groups.iter().all(|g| keys.contains(&g.as_str())));
    }
}

#[test]
fn polls_never_lower_signups() {
    let mut events = vec![ev("Dinner", 0, "A"), ev("Talk", 120, "B")];
    events[0].signups = 9;
    let start = events[0].start;
    let polls = vec![Poll { start, group: "ea".into(), expected: 4 }, Poll { start: start + 7200, group: "ea".into(), expected: 6 }];
    apply_polls(&mut events, &polls);
    assert_eq!((events[0].signups, events[1].signups), (9, 6));
}

#[test]
fn ranges_keep_counts_and_stay_within_bounds() {
    let mut events = vec![ev("Community dinner", 0, "A"), ev("Community dinner", 60 * 24 * 14, "B"), ev("Community dinner", 60 * 24 * 28, "C")];
    events[0].signups = 30;
    events[2].attended = Some(Came { n: 50, at_least: false });
    let ranges = vec![Range { groups: vec!["ea".into()], title: "dinner".into(), until: i64::MAX, low: 5, high: 12 }];
    apply_ranges(&mut events, &ranges);
    assert_eq!(events[0].attended, Some(Came { n: 12, at_least: false }));
    assert_eq!(events[1].attended, Some(Came { n: 9, at_least: false }));
    assert_eq!(events[2].attended, Some(Came { n: 50, at_least: false }));
}

#[test]
fn escaping_splits_and_leaves_plain_text_alone() {
    let (a, b) = ("Tom & Jerry <", "\"quoted\" 'x'");
    assert_eq!(html_escape(&format!("{a}{b}")), format!("{}{}", html_escape(a), html_escape(b)));
    assert_eq!(html_escape("Plain text, 100%"), "Plain text, 100%");
    assert_ne!(html_escape("a&b"), "a&b");
}

#[test]
fn unannounced_events_only_grow_with_time() {
    let at = |h: i64| 1_790_000_000 + h * 3600;
    let listed = vec![
        Unlisted { title: "Dinner".into(), start: at(0), groups: vec!["acx".into()] },
        Unlisted { title: "Forum".into(), start: at(48), groups: vec!["ea".into()] },
        Unlisted { title: "Dinner".into(), start: at(24), groups: vec!["acx".into()] },
    ];
    let early = unannounced(&listed, at(30));
    let late = unannounced(&listed, at(100));
    let cut: Vec<i64> = late.iter().map(|e| e.start).filter(|&s| s < at(30)).collect();
    assert_eq!(early.iter().map(|e| e.start).collect::<Vec<_>>(), cut);
    assert_eq!(late.len(), 3);
}

#[test]
fn escaped_text_decodes_back() {
    let s = "<b title=\"x\">Tom &amp; 'Jerry'; &lt;</b>";
    let decoded = html_escape(s)
        .replace("&lt;", "<")
        .replace("&gt;", ">")
        .replace("&quot;", "\"")
        .replace("&#x27;", "'")
        .replace("&amp;", "&");
    assert_eq!(decoded, s);
}
