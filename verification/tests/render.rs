use calendar::event::{assign_ids, sanitize, slugify, Event, Raw};
use calendar::render::{html_escape, page, percent_encode, Kind, Page};
use chrono::TimeZone;

fn ev(title: &str, minutes: i64, label: &str) -> Event {
    let t = chrono::Utc.with_ymd_and_hms(2026, 9, 26, 16, 0, 0).unwrap().timestamp() + minutes * 60;
    let slug: String = slugify(title).into_iter().collect();
    let url = format!("https://example.org/{label}/{slug}");
    Event::new(Raw {
        title,
        start: t,
        end: None,
        location: "",
        online: false,
        text: "",
        group: "ea",
        label,
        url: &url,
    })
}

const TEMPLATE: &str = "<title>{{title}}</title><nav>{{nav}}</nav>{{filters}}{{subscribe}}<main>{{body}}</main><p>{{updated}}{{stale}}</p>";

fn now() -> i64 {
    chrono::Utc::now().timestamp()
}

#[test]
fn events_carry_their_permalink_groups_and_calendar_links() {
    let mut events = vec![ev("Petrov Day", 0, "LessWrong")];
    assign_ids(&mut events);
    let html = page(
        &Page { kind: Kind::Upcoming, events: events.iter().collect(), stale: &[], now: now() },
        TEMPLATE,
    );
    assert!(html.contains(r#"<article id="2026-09-26-petrov-day" data-groups="ea">"#));
    assert!(html.contains(r##"href="#2026-09-26-petrov-day""##));
    assert!(html.contains(r#"href="/calendar/e/2026-09-26-petrov-day.ics""#));
    assert!(html.contains("calendar.google.com/calendar/render?action=TEMPLATE&amp;text=Petrov%20Day"));
}

#[test]
fn nothing_from_a_feed_reaches_the_page_unescaped() {
    let mut e = ev("<script>alert(1)</script>", 0, "A");
    e.location = r#""><img src=x>"#.into();
    let mut events = sanitize(vec![e]);
    assign_ids(&mut events);
    let html = page(
        &Page { kind: Kind::Upcoming, events: events.iter().collect(), stale: &[], now: now() },
        TEMPLATE,
    );
    assert!(!html.contains("<script>alert") && !html.contains("<img src=x>"));
}

#[test]
fn escaping_leaves_no_markup() {
    assert_eq!(html_escape(r#"<a href="x">'&'</a>"#), "&lt;a href=&quot;x&quot;&gt;&#x27;&amp;&#x27;&lt;/a&gt;");
    assert_eq!(html_escape("plain"), "plain");
}

#[test]
fn percent_encoding_keeps_only_unreserved_characters() {
    assert_eq!(percent_encode("Petrov Day"), "Petrov%20Day");
    assert_eq!(percent_encode("a-b_c.d~e"), "a-b_c.d~e");
    assert_eq!(percent_encode("ü&"), "%C3%BC%26");
}

#[test]
fn unreachable_sources_are_named() {
    let stale = vec!["Meetup".to_string(), "Luma".to_string()];
    let html = page(&Page { kind: Kind::Past, events: Vec::new(), stale: &stale, now: now() }, TEMPLATE);
    assert!(html.contains("Couldn&#x27;t reach Meetup, Luma this time"));
}
