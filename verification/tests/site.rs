use calendar::event::{combo_groups, groups};
use calendar::event::{assign_ids, Event, Raw};
use calendar::feed::rss;
use calendar::site::{group_sets, site_files};

#[test]
fn a_feed_for_every_combination_of_groups() {
    let names: Vec<String> = group_sets().iter().map(|s| s.join("+")).collect();
    let singles = groups().len() - combo_groups().len();
    assert_eq!(names.len(), (1 << combo_groups().len()) - 1 + singles);
    assert!(names.contains(&"acx+ea+philosophia".to_string()));
    assert!(names.contains(&"agi".to_string()) && !names.contains(&"acx+agi".to_string()));
    assert!(names.contains(&"acx+ea".to_string()));
    assert!(names.contains(&"philosophia".to_string()));
}

#[test]
fn the_site_has_an_rss_feed_of_upcoming_events() {
    let now = 1_790_000_000;
    let mut events = vec![Event::new(Raw {
        title: "Dinner",
        start: now + 86_400,
        end: None,
        location: "",
        online: false,
        text: "",
        group: "ea",
        label: "A",
        url: "https://example.org/dinner",
    })];
    assign_ids(&mut events);
    let files = site_files(&events, &[], now, "{{body}}");
    let (_, text) = files.iter().find(|(p, _)| p == "rss.xml").unwrap();
    assert_eq!(*text, rss(&events.iter().collect::<Vec<_>>(), now));
    assert!(text.contains("<title>Dinner</title>"));
}
