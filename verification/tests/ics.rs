use calendar::ics::{escape, fold, occurrences, parse, prop, time, unescape, utc, value, IcsEvent};
use chrono::{TimeZone, Timelike};

fn one(text: &str) -> IcsEvent {
    parse(&format!("BEGIN:VCALENDAR\r\nBEGIN:VEVENT\r\n{text}\r\nEND:VEVENT\r\nEND:VCALENDAR\r\n"))
        .pop()
        .unwrap()
}

fn berlin(y: i32, m: u32, d: u32, h: u32, min: u32) -> i64 {
    chrono_tz::Europe::Berlin.with_ymd_and_hms(y, m, d, h, min, 0).unwrap().timestamp()
}

fn now() -> i64 {
    chrono::Utc::now().timestamp()
}

#[test]
fn lines_fold_at_75_octets_on_char_boundaries() {
    let line = format!("DESCRIPTION:{}", "München ".repeat(30));
    let folded = fold(&line);
    assert!(folded.split("\r\n").all(|l| l.len() <= 75));
    assert_eq!(folded.replace("\r\n ", ""), line);
}

#[test]
fn times_respect_tzid() {
    let e = one("DTSTART;TZID=Europe/Berlin:20260921T183000");
    assert_eq!(time(prop(&e, "DTSTART")), Some(berlin(2026, 9, 21, 18, 30)));
}

#[test]
fn alarms_inside_an_event_do_not_overwrite_it() {
    let e = one("SUMMARY:Reading\r\nBEGIN:VALARM\r\nDESCRIPTION:Reminder\r\nEND:VALARM\r\nDESCRIPTION:Real");
    assert_eq!(value(&e, "DESCRIPTION"), "Real");
}

#[test]
fn weekly_rules_expand_across_dst_and_skip_exdates() {
    let e = one("DTSTART;TZID=Europe/Berlin:20241015T190000\r\n\
         RRULE:FREQ=WEEKLY;WKST=MO;UNTIL=20241112T225959Z;BYDAY=TU\r\n\
         EXDATE;TZID=Europe/Berlin:20241029T190000");
    let got = occurrences(&e, now());
    assert_eq!(
        got,
        [
            berlin(2024, 10, 15, 19, 0),
            berlin(2024, 10, 22, 19, 0),
            berlin(2024, 11, 5, 19, 0),
            berlin(2024, 11, 12, 19, 0),
        ]
    );
}

#[test]
fn fortnightly_rules_with_a_count() {
    let e = one("DTSTART:20200106T180000Z\r\nRRULE:FREQ=WEEKLY;INTERVAL=2;COUNT=3");
    let got = occurrences(&e, now());
    assert_eq!(got.len(), 3);
    assert_eq!(got[2] - got[0], 4 * 7 * 24 * 3600);
}

#[test]
fn the_start_counts_even_when_until_is_earlier() {
    let e = one("DTSTART;TZID=Europe/Berlin:20240430T190000\r\n\
         RRULE:FREQ=WEEKLY;WKST=MO;UNTIL=20240130T225959Z;BYDAY=TU");
    assert_eq!(occurrences(&e, now()), [berlin(2024, 4, 30, 19, 0)]);
}

#[test]
fn other_rules_yield_the_first_occurrence_only() {
    let e = one("DTSTART:20200106T180000Z\r\nRRULE:FREQ=MONTHLY;COUNT=5");
    assert_eq!(occurrences(&e, now()).len(), 1);
}

#[test]
fn an_open_weekly_rule_stops_at_the_horizon() {
    let e = one("DTSTART:20200106T180000Z\r\nRRULE:FREQ=WEEKLY");
    let horizon = chrono::Utc.with_ymd_and_hms(2020, 2, 1, 0, 0, 0).unwrap().timestamp();
    let got = occurrences(&e, horizon);
    assert_eq!(got.len(), 4);
    assert!(got.iter().all(|&t| t <= horizon));
}

#[test]
fn no_start_means_no_occurrences() {
    let e = one("SUMMARY:Nothing");
    assert!(occurrences(&e, now()).is_empty());
}

#[test]
fn unescaping_undoes_escaping() {
    let s = "a; b, c\\d\nnext";
    assert_eq!(escape(s), "a\\; b\\, c\\\\d\\nnext");
    assert_eq!(unescape(&escape(s)), s);
}

#[test]
fn folded_lines_unfold_when_parsed() {
    let long = "x".repeat(200);
    let text = format!("BEGIN:VCALENDAR\r\nBEGIN:VEVENT\r\n{}\r\nEND:VEVENT\r\nEND:VCALENDAR\r\n", fold(&format!("SUMMARY:{long}")));
    let e = parse(&text).pop().unwrap();
    assert_eq!(value(&e, "SUMMARY"), long);
}

#[test]
fn utc_times_are_written_compactly() {
    let t = chrono::Utc.with_ymd_and_hms(2026, 9, 26, 16, 5, 9).unwrap().timestamp();
    assert_eq!(utc(t), "20260926T160509Z");
}

#[test]
fn the_start_comes_first_whatever_byday_says() {
    // 1 May 2024 is a Wednesday; the rule names Tuesdays and ends before it.
    let e = one("DTSTART;TZID=Europe/Berlin:20240501T190000\r\n\
         RRULE:FREQ=WEEKLY;BYDAY=TU;UNTIL=20240130T225959Z");
    let horizon = chrono::Utc.with_ymd_and_hms(2030, 1, 1, 0, 0, 0).unwrap().timestamp();
    assert_eq!(occurrences(&e, horizon), [berlin(2024, 5, 1, 19, 0)]);
    let e = one("DTSTART;TZID=Europe/Berlin:20240501T190000\r\nRRULE:FREQ=WEEKLY;BYDAY=TU;COUNT=3");
    assert_eq!(
        occurrences(&e, horizon),
        [berlin(2024, 5, 1, 19, 0), berlin(2024, 5, 7, 19, 0), berlin(2024, 5, 14, 19, 0)]
    );
}

#[test]
fn weekly_times_keep_their_wall_clock_time() {
    let e = one("DTSTART;TZID=Europe/Berlin:20241001T190000\r\nRRULE:FREQ=WEEKLY;COUNT=8");
    let got = occurrences(&e, now());
    assert_eq!(got.len(), 8);
    for t in got {
        let local = chrono::DateTime::from_timestamp(t, 0).unwrap().with_timezone(&chrono_tz::Europe::Berlin);
        assert_eq!((local.hour(), local.minute()), (19, 0));
    }
}
