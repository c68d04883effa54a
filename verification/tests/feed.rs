use calendar::event::{assign_ids, slugify, Event, Raw};
use calendar::feed::{atom, rss};
use chrono::TimeZone;

fn ev(title: &str, minutes: i64, label: &str) -> Event {
    let t = chrono::Utc.with_ymd_and_hms(2026, 9, 26, 16, 0, 0).unwrap().timestamp() + minutes * 60;
    let slug: String = slugify(title).into_iter().collect();
    let url = format!("https://example.org/{label}/{slug}");
    Event::new(Raw {
        title,
        start: t,
        end: None,
        location: "",
        online: false,
        text: "",
        group: "ea",
        label,
        url: &url,
    })
}

fn now() -> i64 {
    chrono::Utc::now().timestamp()
}

#[test]
fn default_groups_only_and_escaped() {
    let mut shown = ev("Dinner & <talk>", 0, "A");
    let mut reading = ev("Leviathan", 60, "B");
    reading.groups = vec!["philosophia".into()];
    shown.excerpt = "Bring \"snacks\"".into();
    let mut events = vec![shown, reading];
    assign_ids(&mut events);
    let xml = atom(&events.iter().collect::<Vec<_>>(), now());
    assert!(xml.contains("<title>Dinner &amp; &lt;talk&gt;</title>"));
    assert!(xml.contains("Bring &quot;snacks&quot;"));
    assert!(xml.contains(r#"<link href="https://rationality-munich.com/calendar#2026-09-26-dinner-talk"/>"#));
    assert!(!xml.contains("Leviathan"));

    let rss = rss(&events.iter().collect::<Vec<_>>(), now());
    assert!(rss.contains("<title>Dinner &amp; &lt;talk&gt;</title>"));
    assert!(rss.contains(
        r#"<guid isPermaLink="true">https://rationality-munich.com/calendar#2026-09-26-dinner-talk</guid>"#
    ));
    assert!(!rss.contains("Leviathan") && !rss.contains("<pubDate>"));
}

#[test]
fn an_empty_feed_is_still_a_feed() {
    let xml = atom(&[], now());
    assert!(xml.starts_with("<?xml"));
    assert!(!xml.contains("<entry>"));
    let rss = rss(&[], now());
    assert!(rss.contains("<channel>") && !rss.contains("<item>"));
}
