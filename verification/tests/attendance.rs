use calendar::attendance::{count_report, hash, parse, read_request, reports_with, take_report, valid_id, Report, State, Step};

#[test]
fn only_well_formed_reports_parse() {
    assert_eq!(
        parse("id=2026-09-09-acx-community-dinner&n=12"),
        Some(("2026-09-09-acx-community-dinner".into(), 12))
    );
    assert_eq!(parse("n=3&id=x-1"), Some(("x-1".into(), 3)));
    assert_eq!(parse("id=x&n=0"), None);
    assert_eq!(parse("id=x&n=1001"), None);
    assert_eq!(parse("id=../etc&n=3"), None);
    assert_eq!(parse("id=X<script>&n=3"), None);
    assert_eq!(parse("n=3"), None);
}

#[test]
fn ids_are_lower_case_words_and_dashes() {
    assert!(valid_id("2026-09-09-acx-community-dinner"));
    assert!(!valid_id(""));
    assert!(!valid_id("Dinner"));
    assert!(!valid_id("a/b"));
}

#[test]
fn the_hash_is_fnv_1a() {
    assert_eq!(hash(""), 0xcbf29ce484222325);
    assert_eq!(hash("a"), 0xaf63dc4c8601ec8c);
}

fn fresh() -> State {
    State::new(Vec::new(), 20000)
}

/// Answers a report and, when it is to be saved, saves it.
fn send(st: &mut State, id: &str, n: u32, addr: &str, today: i64, clock: i64, now: i64) -> (u16, &'static str, bool) {
    let r = take_report(st, id, n, true, addr, today, clock);
    if r.2 {
        let saved = reports_with(st, id, n, now);
        count_report(st, id, n, addr, clock, now);
        assert_eq!(st.reports, saved);
    }
    r
}

#[test]
fn requests_are_read_in_order_of_what_can_go_wrong() {
    let mut st = fresh();
    assert_eq!(read_request(&mut st, "/other", true, Some("id=x&n=3"), 20000), Step::Reply(404, "Not found."));
    assert_eq!(read_request(&mut st, "/calendar/attend", false, None, 20000), Step::Reply(405, "Send a POST."));
    assert_eq!(read_request(&mut st, "/calendar/attend", true, None, 20000), Step::Reply(413, "Too long."));
    let long = "x".repeat(300);
    assert_eq!(read_request(&mut st, "/calendar/attend", true, Some(&long), 20000), Step::Reply(413, "Too long."));
    assert_eq!(
        read_request(&mut st, "/calendar/attend", true, Some("n=3"), 20000),
        Step::Reply(400, "Send a number between 1 and 1000 for a past event.")
    );
    assert_eq!(read_request(&mut st, "/calendar/attend", true, Some("id=x&n=3"), 20000), Step::Check("x".into(), 3));
}

#[test]
fn an_address_reports_an_event_once_a_day() {
    let mut st = fresh();
    let first = send(&mut st, "x", 3, "1.2.3.4", 20000, 0, 1_728_000_000);
    assert_eq!(first, (200, "Thanks! It shows on the page within the hour.", true));
    let again = send(&mut st, "x", 4, "1.2.3.4", 20000, 1000, 1_728_000_001);
    assert_eq!(again, (409, "Already counted, thanks!", false));
    assert_eq!(st.reports.len(), 1);
    assert_eq!(st.reports[0].1, [Report { n: 3, at: 1_728_000_000 }]);
    // Another address, and the same address the next day, count.
    assert_eq!(send(&mut st, "x", 5, "5.6.7.8", 20000, 2000, 1_728_000_002).0, 200);
    assert_eq!(send(&mut st, "x", 6, "1.2.3.4", 20001, 3000, 1_728_086_400).0, 200);
    assert_eq!(st.reports[0].1.len(), 3);
}

#[test]
fn a_failed_save_takes_nothing() {
    let mut st = fresh();
    // Answered 200, but the save fails: the report is never counted.
    let r = take_report(&mut st, "x", 3, true, "1.2.3.4", 20000, 0);
    assert_eq!(r.0, 200);
    assert!(st.reports.is_empty() && st.seen.is_empty());
    // Sent again later that day, it is accepted.
    assert_eq!(send(&mut st, "x", 3, "1.2.3.4", 20000, 5000, 1_728_000_000).0, 200);
    assert_eq!(st.reports[0].1.len(), 1);
}

#[test]
fn any_request_on_a_new_day_forgets_addresses() {
    let mut st = fresh();
    assert_eq!(send(&mut st, "x", 3, "1.2.3.4", 20000, 0, 0).0, 200);
    assert!(!st.recent.is_empty() && !st.seen.is_empty());
    assert_eq!(read_request(&mut st, "/other", false, None, 20001), Step::Reply(404, "Not found."));
    assert!(st.recent.is_empty() && st.seen.is_empty());
    assert_eq!(st.reports.len(), 1);
    // So does a report for an event that is not a past one.
    assert_eq!(send(&mut st, "y", 3, "1.2.3.4", 20001, 10, 0).0, 200);
    let r = take_report(&mut st, "z", 3, false, "1.2.3.4", 20002, 20);
    assert_eq!(r, (404, "No such past event.", false));
    assert!(st.recent.is_empty() && st.seen.is_empty());
}

#[test]
fn unknown_events_are_refused() {
    let mut st = fresh();
    assert_eq!(take_report(&mut st, "x", 3, false, "1.2.3.4", 20000, 0), (404, "No such past event.", false));
    assert!(st.reports.is_empty());
}

#[test]
fn an_address_sends_twenty_reports_an_hour() {
    let mut st = fresh();
    for i in 0..20 {
        let id = format!("e-{i}");
        assert_eq!(send(&mut st, &id, 3, "1.2.3.4", 20000, i, 0).0, 200);
    }
    let refused = send(&mut st, "e-20", 3, "1.2.3.4", 20000, 100, 0);
    assert_eq!(refused, (429, "That's a lot of reports; try again in an hour.", false));
    // An hour later it may go on.
    assert_eq!(send(&mut st, "e-20", 3, "1.2.3.4", 20000, 3_600_200, 0).0, 200);
}

#[test]
fn an_event_keeps_a_hundred_reports() {
    let full: Vec<Report> = (0..100).map(|i| Report { n: 1, at: i }).collect();
    let mut st = State::new(vec![("x".into(), full)], 20000);
    let got = send(&mut st, "x", 3, "1.2.3.4", 20000, 0, 0);
    assert_eq!(got, (429, "This event has enough reports, thanks!", false));
    assert_eq!(st.reports[0].1.len(), 100);
    // The address counts as having reported the event today.
    assert_eq!(send(&mut st, "x", 3, "1.2.3.4", 20000, 10, 0), (409, "Already counted, thanks!", false));
    assert_eq!(send(&mut st, "x", 3, "5.6.7.8", 20000, 20, 0).0, 429);
}
