use calendar::event::{sanitize, Came, Event, Raw};
use calendar::sources::{
    apply_headcounts, apply_polls, apply_ranges, forum_yes, history, keeps, luma_slug, meetup_event, mlphil_time,
    stale_labels, strip_html, table_cells, unannounced, Headcount, Keep, MeetupNode, Past, Poll, Range, Rsvp, Unlisted,
};
use chrono::TimeZone;

fn at(s: &str) -> i64 {
    chrono::DateTime::parse_from_rfc3339(s).unwrap().timestamp()
}

fn berlin(y: i32, m: u32, d: u32, h: u32) -> i64 {
    chrono_tz::Europe::Berlin.with_ymd_and_hms(y, m, d, h, 0, 0).unwrap().timestamp()
}

fn dinner(title: &str, start: &str, group: &str, signups: u32) -> Event {
    let mut e = Event::new(Raw {
        title,
        start: at(start),
        end: None,
        location: "",
        online: false,
        text: "",
        group,
        label: "LessWrong",
        url: "https://www.lesswrong.com/events/x",
    });
    e.signups = signups;
    e
}

fn node(title: &str, url: &str, venue: &str, address: &str) -> MeetupNode {
    MeetupNode {
        title: Some(title.into()),
        url: Some(url.into()),
        date_time: Some("2026-09-23T18:00:00+02:00".into()),
        end_time: None,
        venue_name: Some(venue.into()),
        venue_address: Some(address.into()),
        online: None,
        description: None,
        going: None,
    }
}

fn rsvp(response: &str, name: &str) -> Rsvp {
    Rsvp { response: Some(response.into()), name: Some(name.into()) }
}

#[test]
fn reading_group_dates_follow_the_semester() {
    assert_eq!(
        mlphil_time("Fri 17 Jul, 16-17", "Summer 2026"),
        Some((berlin(2026, 7, 17, 16), berlin(2026, 7, 17, 17)))
    );
    assert_eq!(mlphil_time("Thu 15 Jan, 14-15", "Winter 2025/2026").map(|t| t.0), Some(berlin(2026, 1, 15, 14)));
    assert_eq!(mlphil_time("Wed 22 Oct, 14-15", "Winter 2025/26").map(|t| t.0), Some(berlin(2025, 10, 22, 14)));
    assert!(mlphil_time("tba", "Summer 2026").is_none());
}

#[test]
fn table_cells_come_out_as_plain_text() {
    let html = r#"<tr><th>Date</th></tr><tr><td>Fri 3 Jul, 16-17</td>
        <td><a href="x">Grzejdziak (2026)</a>, "The missing interdiscipline."</td> </td></tr>"#;
    assert_eq!(
        table_cells(html),
        ["Fri 3 Jul, 16-17", r#"Grzejdziak (2026), "The missing interdiscipline.""#]
    );
}

#[test]
fn a_venue_named_after_its_address_shows_once() {
    let e = node(
        "Dine and Discuss",
        "https://www.meetup.com/x/events/1/",
        "Gabelsbergerstraße 43",
        "Gabelsbergerstraße 43, 80333 München",
    );
    let got = meetup_event(&e, "ea", Keep::All).unwrap();
    assert_eq!(got.location, "Gabelsbergerstraße 43, 80333 München");
    let e = node("Dinner", "https://www.meetup.com/x/events/2/", "Bellevue di Monaco", "Müllerstraße 2");
    assert_eq!(meetup_event(&e, "ea", Keep::All).unwrap().location, "Bellevue di Monaco, Müllerstraße 2");
}

#[test]
fn only_yes_rsvps_count() {
    let rsvps = Some(vec![rsvp("yes", "Anna"), rsvp("maybe", "Ben"), rsvp("yes", "Cleo"), rsvp("no", "Dan")]);
    assert_eq!(forum_yes(&rsvps).len(), 2);
    assert!(forum_yes(&None).is_empty());
}

#[test]
fn polls_fill_in_only_where_pages_had_fewer() {
    let mut events = vec![
        dinner("Community dinner", "2026-04-22T18:30:00+02:00", "acx", 2),
        dinner("Community dinner", "2026-04-22T18:30:00+02:00", "ea", 0),
        dinner("Community dinner", "2026-05-06T19:00:00+02:00", "acx", 20),
        dinner("Community dinner", "2026-04-11T14:00:00+02:00", "acx", 4),
        dinner("Community dinner", "2026-04-11T11:00:00+02:00", "acx", 0),
    ];
    let polls = vec![
        Poll { start: at("2026-04-22T18:30:00+02:00"), group: "acx".into(), expected: 11 },
        Poll { start: at("2026-05-06T19:00:00+02:00"), group: "acx".into(), expected: 8 },
        Poll { start: at("2026-04-11T11:00:00+02:00"), group: "acx".into(), expected: 15 },
    ];
    apply_polls(&mut events, &polls);
    assert_eq!(events[0].signups, 11);
    assert_eq!(events[1].signups, 0, "another group's event");
    assert_eq!(events[2].signups, 20, "the page had more");
    assert_eq!((events[3].signups, events[4].signups), (4, 15), "the nearest that day");
}

#[test]
fn a_series_range_fills_in_only_uncounted_events() {
    let mut events = vec![
        dinner("ACX community dinner", "2026-04-22T18:30:00+02:00", "acx", 11),
        dinner("Community Dinner", "2026-08-11T18:30:00+02:00", "acx", 2),
        dinner("ACX community dinner", "2026-09-09T18:30:00+02:00", "acx", 0),
        dinner("ACX community dinner", "2026-07-08T18:30:00+02:00", "acx", 4),
        dinner("EA community dinner", "2026-08-26T18:30:00+02:00", "ea", 5),
        dinner("Dinner with a visiting rationalist", "2026-04-19T17:00:00+02:00", "acx", 0),
        dinner("ACX community dinner", "2026-10-07T18:30:00+02:00", "acx", 20),
    ];
    events[3].attended = Some(Came { n: 3, at_least: false });
    // The ACX community dinners: 5 to 12 people each, up to September 2026.
    let ranges = vec![Range {
        groups: vec!["acx".into()],
        title: "community dinner".into(),
        until: at("2026-10-01T00:00:00+02:00"),
        low: 5,
        high: 12,
    }];
    apply_ranges(&mut events, &ranges);
    let n: Vec<Option<u32>> = events.iter().map(|e| e.attended.map(|c| c.n)).collect();
    assert_eq!(n, [Some(11), Some(5), Some(9), Some(3), None, None, None]);
}

#[test]
fn organisers_counts_beat_reports_but_floors_give_way() {
    let game = |start: &str, reported: Option<u32>| {
        let mut e = dinner("The Estimation Game", start, "acx", 0);
        e.attended = reported.map(|n| Came { n, at_least: false });
        e
    };
    let mut events = vec![
        game("2026-04-11T15:30:00+02:00", Some(12)),
        game("2026-07-29T18:30:00+02:00", Some(14)),
        game("2026-08-30T14:00:00+02:00", None),
    ];
    // 11 April: counted 30; 29 July and 30 August: at least 10.
    let counts = vec![
        Headcount { start: at("2026-04-11T15:30:00+02:00"), group: "acx".into(), came: 30, at_least: false },
        Headcount { start: at("2026-07-29T18:30:00+02:00"), group: "acx".into(), came: 10, at_least: true },
        Headcount { start: at("2026-08-30T14:00:00+02:00"), group: "acx".into(), came: 10, at_least: true },
    ];
    apply_headcounts(&mut events, &counts);
    let got: Vec<Option<Came>> = events.iter().map(|e| e.attended).collect();
    assert_eq!(got[0], Some(Came { n: 30, at_least: false }));
    assert_eq!(got[1], Some(Came { n: 14, at_least: false }));
    assert_eq!(got[2], Some(Came { n: 10, at_least: true }));
}

#[test]
fn google_descriptions_lose_their_html() {
    assert_eq!(
        strip_html("Read <b>ch. 1</b><br>Bring snacks &amp; drinks"),
        "Read ch. 1\nBring snacks & drinks"
    );
}

#[test]
fn transcribed_history_keeps_every_group() {
    let past = vec![Past {
        title: "ACX Meetups Everywhere".into(),
        start: at("2024-09-14T14:00:00+02:00"),
        end: None,
        location: "Englischer Garten".into(),
        excerpt: "Meet at the tower.".into(),
        groups: vec!["acx".into(), "ea".into()],
        label: "ACX".into(),
        url: "https://acxmeetup.substack.com/p/x".into(),
    }];
    let h = history(&past);
    assert_eq!(h.len(), 1);
    assert_eq!(h[0].groups, ["acx", "ea"]);
    assert_eq!(h[0].links, [("ACX".to_string(), "https://acxmeetup.substack.com/p/x".to_string())]);
    assert_eq!(h[0].location, "Englischer Garten");
}

#[test]
fn unannounced_events_are_unlinked_chat_events_of_the_past() {
    let now = at("2026-05-01T00:00:00+02:00");
    let listed = vec![
        Unlisted { title: "ACX community dinner".into(), start: at("2026-04-22T18:30:00+02:00"), groups: vec!["acx".into()] },
        Unlisted { title: "Ideas Forum".into(), start: at("2026-06-01T18:30:00+02:00"), groups: vec!["ea".into()] },
    ];
    let u = unannounced(&listed, now);
    assert_eq!(u.len(), 1);
    assert!(u.iter().all(|e| e.links.is_empty() && e.chat));
    let n = u.len();
    assert_eq!(sanitize(u).len(), n);
}

#[test]
fn the_geb_group_keeps_only_its_own_events() {
    assert!(keeps(Keep::Geb, "GEB reading group, chapter 3"));
    assert!(keeps(Keep::Geb, "Gödel's theorems"));
    assert!(!keeps(Keep::Geb, "Board games"));
    assert!(keeps(Keep::All, "Board games"));
}

#[test]
fn luma_links_name_their_event() {
    assert_eq!(luma_slug("https://lu.ma/abc123"), Some("abc123".to_string()));
    assert_eq!(luma_slug("https://example.org/abc123"), None);
}

#[test]
fn stale_sources_are_named_once_in_order() {
    assert_eq!(stale_labels(&vec!["Meetup", "LessWrong", "Meetup", "Luma"]), ["LessWrong", "Luma", "Meetup"]);
    assert!(stale_labels(&vec![]).is_empty());
}
