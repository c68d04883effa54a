use calendar::event::{Came, Event, Raw};
use calendar::turnout::{estimate_basis, same_series};

fn at(s: &str) -> i64 {
    chrono::DateTime::parse_from_rfc3339(s).unwrap().timestamp()
}

fn dinner(title: &str, start: &str, group: &str) -> Event {
    Event::new(Raw {
        title,
        start: at(start),
        end: None,
        location: "",
        online: false,
        text: "",
        group,
        label: "LessWrong",
        url: "https://www.lesswrong.com/events/x",
    })
}

#[test]
fn a_series_is_one_group_and_mostly_one_title() {
    let a = dinner("ACX community dinner", "2026-08-26T18:30:00+02:00", "acx");
    let b = dinner("Community Dinner", "2026-09-09T18:30:00+02:00", "acx");
    let c = dinner("EA community dinner", "2026-09-10T18:30:00+02:00", "ea");
    let d = dinner("Talk on something new", "2026-09-23T18:30:00+02:00", "acx");
    assert!(same_series(&a, &b));
    assert!(!same_series(&a, &c));
    assert!(!same_series(&a, &d));
}

#[test]
fn the_estimate_rests_on_the_group_and_the_series() {
    let now = at("2026-09-20T12:00:00+02:00");
    let mut events = vec![
        dinner("ACX community dinner", "2026-08-26T18:30:00+02:00", "acx"),
        dinner("Community Dinner", "2026-09-09T18:30:00+02:00", "acx"),
        dinner("EA community dinner", "2026-09-10T18:30:00+02:00", "ea"),
        dinner("ACX community dinner", "2026-09-23T18:30:00+02:00", "acx"),
    ];
    events[0].attended = Some(Came { n: 10, at_least: false });
    events[1].signups = 12;
    events[2].attended = Some(Came { n: 40, at_least: false });
    let (ratio, series) = estimate_basis(&events, 3, now).unwrap();
    assert_eq!(ratio, [0, 1, 3]);
    assert_eq!(series, [1, 0]);
    // Past events get no estimate.
    assert!(estimate_basis(&events, 0, now).is_none());
}
