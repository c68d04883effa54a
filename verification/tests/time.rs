use calendar::event::{slugify, Event, Raw};
use calendar::feed::{atom, rss};
use calendar::ics::{local_to_utc, parse_time, utc, zone};
use calendar::sources::forum_time;
use calendar::time::{day_number, munich_day, munich_local, DAY};
use chrono::TimeZone;

fn at(y: i32, m: u32, d: u32, h: u32, min: u32) -> i64 {
    chrono::Utc.with_ymd_and_hms(y, m, d, h, min, 0).unwrap().timestamp()
}

#[test]
fn munich_is_an_hour_or_two_ahead() {
    assert_eq!(munich_local(at(2026, 1, 15, 12, 0)), at(2026, 1, 15, 13, 0));
    assert_eq!(munich_local(at(2026, 7, 15, 12, 0)), at(2026, 7, 15, 14, 0));
}

#[test]
fn a_late_evening_in_utc_is_the_next_day_in_munich() {
    let t = at(2026, 7, 15, 23, 0);
    assert_eq!(munich_day(t), day_number(t) + 1);
    assert_eq!(day_number(-1), -1);
    assert_eq!(day_number(DAY), 1);
}

#[test]
fn local_times_map_back_to_the_earliest_instant() {
    // 02:30 on the night the clocks go back happens twice.
    assert_eq!(local_to_utc(at(2024, 10, 27, 2, 30), "Europe/Berlin"), Some(at(2024, 10, 27, 0, 30)));
    // And not at all on the night they go forward.
    assert_eq!(local_to_utc(at(2024, 3, 31, 2, 30), "Europe/Berlin"), None);
}

#[test]
fn unknown_zones_fall_back_to_munich() {
    assert_eq!(zone(Some("Europe/London")), "Europe/London");
    assert_eq!(zone(Some("Mars/Olympus")), "Europe/Berlin");
    assert_eq!(zone(None), "Europe/Berlin");
}

#[test]
fn calendar_times_are_read_in_their_zone() {
    assert_eq!(parse_time("20260926T160500Z", None), Some(at(2026, 9, 26, 16, 5)));
    assert_eq!(parse_time("20260926T180500", Some("Europe/Berlin")), Some(at(2026, 9, 26, 16, 5)));
    assert_eq!(parse_time("20260926", None), Some(at(2026, 9, 25, 22, 0)));
    assert_eq!(parse_time("2026-09-26", None), None);
    assert_eq!(utc(at(2026, 9, 26, 16, 5)), "20260926T160500Z");
}

#[test]
fn forum_times_are_rfc_3339() {
    assert_eq!(forum_time(&Some("2026-09-26T18:05:00+02:00".into())), Some(at(2026, 9, 26, 16, 5)));
    assert_eq!(forum_time(&Some("yesterday".into())), None);
    assert_eq!(forum_time(&None), None);
}

#[test]
fn feeds_date_themselves() {
    let now = at(2026, 9, 26, 16, 5);
    let e = Event::new(Raw {
        title: "Dinner",
        start: at(2026, 10, 1, 17, 0),
        end: None,
        location: "",
        online: false,
        text: "",
        group: "ea",
        label: "A",
        url: &format!("https://example.org/{}", slugify("Dinner").into_iter().collect::<String>()),
    });
    let xml = atom(&[&e], now);
    assert!(xml.contains("<updated>2026-09-26T16:05:00+00:00</updated>"));
    assert!(xml.contains("<updated>2026-10-01T17:00:00+00:00</updated>"));
    assert!(rss(&[], now).contains("<lastBuildDate>Sat, 26 Sep 2026 16:05:00 +0000</lastBuildDate>"));
}
