//! Feeds of upcoming events for feed readers, as Atom (`feed.xml`) and as
//! RSS 2.0 (`rss.xml`), which some tools and bots only read. Calendar apps
//! get the .ics feeds instead.

use vstd::prelude::*;
use crate::text::{chars_of, string_of, push_str, push_chars, join, join_from, views};
use crate::time::{valid_time, four_digit_year, munich, munich_local, format_local, spec_format_local, rfc3339, spec_rfc3339, rfc2822, spec_rfc2822};
use crate::event::{Event, EventModel, default_keys, default_groups, strs_view};
use crate::render::{base, base_url, html_escape, html_escaped, group_names, all_wf_refs};
use crate::ics::ref_models;

verus! {

/// When, where, who, then the excerpt.
pub open spec fn spec_summary(e: EventModel) -> Seq<char> {
    let line = seq![spec_format_local(munich(e.start as int), "%a %-d %b %Y, %H:%M"@)]
        + (if e.place().len() > 0 { seq![e.place()] } else { seq![] })
        + seq![join(group_names(e.groups), " & "@)];
    join(line, " · "@) + if e.excerpt.len() > 0 { "\n\n"@ + e.excerpt } else { seq![] }
}

pub fn summary(e: &Event) -> (r: Vec<char>)
    requires
        e@.wf(),
    ensures
        r@ == spec_summary(e@),
{
    let mut line: Vec<Vec<char>> = Vec::new();
    line.push(chars_of(format_local(munich_local(e.start), "%a %-d %b %Y, %H:%M").as_str()));
    let place = e.place();
    if !place.is_empty() {
        line.push(chars_of(place));
    }
    line.push(crate::render::group_names_joined(e));
    assert(views(line@) =~= seq![spec_format_local(munich(e@.start as int), "%a %-d %b %Y, %H:%M"@)]
        + (if e@.place().len() > 0 { seq![e@.place()] } else { seq![] })
        + seq![join(group_names(e@.groups), " & "@)]);
    assert(views(line@).skip(0) == views(line@));
    let mut out = join_from(&line, 0, " · ");
    if !e.excerpt.as_str().is_empty() {
        push_str(&mut out, "\n\n");
        push_str(&mut out, e.excerpt.as_str());
    }
    out
}

/// The events of the default groups, in order.
pub open spec fn shown_events(es: Seq<EventModel>) -> Seq<EventModel>
    decreases es.len(),
{
    if es.len() == 0 {
        seq![]
    } else {
        shown_events(es.drop_last()) + if es.last().in_any(default_keys()) { seq![es.last()] } else { seq![] }
    }
}

pub open spec fn feed_title() -> Seq<char> {
    "Rationality Munich: upcoming events"@
}

pub fn title() -> (r: &'static str)
    ensures
        r@ == feed_title(),
{
    "Rationality Munich: upcoming events"
}

pub open spec fn feed_subtitle() -> Seq<char> {
    "Events from the rationality and EA groups in Munich"@
}

pub fn subtitle() -> (r: &'static str)
    ensures
        r@ == feed_subtitle(),
{
    "Events from the rationality and EA groups in Munich"
}

/// One Atom entry. Its `updated` is the event's start rather than now, so
/// readers don't mark every event new every hour.
pub open spec fn atom_entry(e: EventModel) -> Seq<char> {
    "  <entry>\n    <id>"@ + base_url() + "#"@ + e.id + "</id>\n    <title>"@ + html_escaped(e.title)
        + "</title>\n    <link href=\""@ + base_url() + "#"@ + e.id + "\"/>\n    <updated>"@
        + spec_rfc3339(e.start as int) + "</updated>\n    <summary>"@ + html_escaped(spec_summary(e))
        + "</summary>\n  </entry>\n"@
}

pub open spec fn atom_entries(es: Seq<EventModel>) -> Seq<char>
    decreases es.len(),
{
    if es.len() == 0 {
        seq![]
    } else {
        atom_entries(es.drop_last()) + atom_entry(es.last())
    }
}

/// The default groups' upcoming events as an Atom feed.
pub open spec fn spec_atom(es: Seq<EventModel>, now: i64) -> Seq<char> {
    "<?xml version=\"1.0\" encoding=\"utf-8\"?>\n<feed xmlns=\"http://www.w3.org/2005/Atom\">\n  <id>"@
        + base_url() + "/feed.xml</id>\n  <title>"@ + feed_title() + "</title>\n  <subtitle>"@
        + feed_subtitle() + "</subtitle>\n  <link rel=\"self\" href=\""@ + base_url()
        + "/feed.xml\"/>\n  <link href=\""@ + base_url() + "\"/>\n  <updated>"@ + spec_rfc3339(now as int)
        + "</updated>\n  <author><name>Rationality Munich</name></author>\n"@
        + atom_entries(shown_events(es)) + "</feed>\n"@
}

/// One RSS item. Items carry no `pubDate`: RSS means the date something
/// was published, which is not known, and a future date makes some readers
/// hide the item.
pub open spec fn rss_item(e: EventModel) -> Seq<char> {
    "    <item>\n      <title>"@ + html_escaped(e.title) + "</title>\n      <link>"@ + base_url() + "#"@
        + e.id + "</link>\n      <guid isPermaLink=\"true\">"@ + base_url() + "#"@ + e.id
        + "</guid>\n      <description>"@ + html_escaped(spec_summary(e))
        + "</description>\n    </item>\n"@
}

pub open spec fn rss_items(es: Seq<EventModel>) -> Seq<char>
    decreases es.len(),
{
    if es.len() == 0 {
        seq![]
    } else {
        rss_items(es.drop_last()) + rss_item(es.last())
    }
}

/// The same events as RSS 2.0.
pub open spec fn spec_rss(es: Seq<EventModel>, now: i64) -> Seq<char> {
    "<?xml version=\"1.0\" encoding=\"utf-8\"?>\n<rss version=\"2.0\" xmlns:atom=\"http://www.w3.org/2005/Atom\">\n  <channel>\n    <title>"@
        + feed_title() + "</title>\n    <link>"@ + base_url() + "</link>\n    <description>"@
        + feed_subtitle() + "</description>\n    <language>en</language>\n    <atom:link rel=\"self\" type=\"application/rss+xml\" href=\""@
        + base_url() + "/rss.xml\"/>\n    <lastBuildDate>"@ + spec_rfc2822(now as int)
        + "</lastBuildDate>\n"@ + rss_items(shown_events(es)) + "  </channel>\n</rss>\n"@
}

fn push_entry(out: &mut Vec<char>, e: &Event, rss: bool)
    requires
        e@.wf(),
    ensures
        final(out)@ == old(out)@ + if rss { rss_item(e@) } else { atom_entry(e@) },
{
    let title = html_escape(e.title.as_str());
    let summary = html_escape(string_of(&summary(e)).as_str());
    let ghost o = out@;
    if rss {
        push_str(out, "    <item>\n      <title>");
        push_str(out, title.as_str());
        push_str(out, "</title>\n      <link>");
        push_str(out, base());
        push_str(out, "#");
        push_str(out, e.id.as_str());
        push_str(out, "</link>\n      <guid isPermaLink=\"true\">");
        push_str(out, base());
        push_str(out, "#");
        push_str(out, e.id.as_str());
        push_str(out, "</guid>\n      <description>");
        push_str(out, summary.as_str());
        push_str(out, "</description>\n    </item>\n");
        assert(out@ =~= o + rss_item(e@));
    } else {
        push_str(out, "  <entry>\n    <id>");
        push_str(out, base());
        push_str(out, "#");
        push_str(out, e.id.as_str());
        push_str(out, "</id>\n    <title>");
        push_str(out, title.as_str());
        push_str(out, "</title>\n    <link href=\"");
        push_str(out, base());
        push_str(out, "#");
        push_str(out, e.id.as_str());
        push_str(out, "\"/>\n    <updated>");
        push_str(out, rfc3339(e.start).as_str());
        push_str(out, "</updated>\n    <summary>");
        push_str(out, summary.as_str());
        push_str(out, "</summary>\n  </entry>\n");
        assert(out@ =~= o + atom_entry(e@));
    }
}

fn entries(upcoming: &[&Event], rss: bool) -> (r: Vec<char>)
    requires
        all_wf_refs(upcoming@),
    ensures
        r@ == if rss { rss_items(shown_events(ref_models(upcoming@))) } else { atom_entries(shown_events(ref_models(upcoming@))) },
{
    let ghost es = ref_models(upcoming@);
    let dg = default_groups();
    let mut out: Vec<char> = Vec::new();
    let mut i: usize = 0;
    while i < upcoming.len()
        invariant
            i <= upcoming@.len(),
            es == ref_models(upcoming@),
            all_wf_refs(upcoming@),
            strs_view(dg@) == default_keys(),
            out@ == if rss { rss_items(shown_events(es.take(i as int))) } else { atom_entries(shown_events(es.take(i as int))) },
        decreases upcoming@.len() - i,
    {
        let e = upcoming[i];
        assert(es.take(i + 1).drop_last() == es.take(i as int));
        assert(es[i as int] == e@);
        let ghost prev = shown_events(es.take(i as int));
        if e.in_any(&dg) {
            assert(shown_events(es.take(i + 1)) == prev.push(e@));
            assert(prev.push(e@).drop_last() == prev);
            push_entry(&mut out, e, rss);
        } else {
            assert(shown_events(es.take(i + 1)) =~= prev);
        }
        i = i + 1;
    }
    assert(es.take(upcoming@.len() as int) == es);
    out
}

/// The default groups' upcoming events as an Atom feed.
pub fn atom(upcoming: &[&Event], now: i64) -> (r: String)
    requires
        all_wf_refs(upcoming@),
        valid_time(now as int),
    ensures
        r@ == spec_atom(ref_models(upcoming@), now),
{
    let mut out = chars_of("<?xml version=\"1.0\" encoding=\"utf-8\"?>\n<feed xmlns=\"http://www.w3.org/2005/Atom\">\n  <id>");
    push_str(&mut out, base());
    push_str(&mut out, "/feed.xml</id>\n  <title>");
    push_str(&mut out, title());
    push_str(&mut out, "</title>\n  <subtitle>");
    push_str(&mut out, subtitle());
    push_str(&mut out, "</subtitle>\n  <link rel=\"self\" href=\"");
    push_str(&mut out, base());
    push_str(&mut out, "/feed.xml\"/>\n  <link href=\"");
    push_str(&mut out, base());
    push_str(&mut out, "\"/>\n  <updated>");
    push_str(&mut out, rfc3339(now).as_str());
    push_str(&mut out, "</updated>\n  <author><name>Rationality Munich</name></author>\n");
    push_chars(&mut out, &entries(upcoming, false));
    push_str(&mut out, "</feed>\n");
    assert(out@ =~= spec_atom(ref_models(upcoming@), now));
    string_of(&out)
}

/// The same events as RSS 2.0.
pub fn rss(upcoming: &[&Event], now: i64) -> (r: String)
    requires
        all_wf_refs(upcoming@),
        four_digit_year(now as int),
    ensures
        r@ == spec_rss(ref_models(upcoming@), now),
{
    let mut out = chars_of("<?xml version=\"1.0\" encoding=\"utf-8\"?>\n<rss version=\"2.0\" xmlns:atom=\"http://www.w3.org/2005/Atom\">\n  <channel>\n    <title>");
    push_str(&mut out, title());
    push_str(&mut out, "</title>\n    <link>");
    push_str(&mut out, base());
    push_str(&mut out, "</link>\n    <description>");
    push_str(&mut out, subtitle());
    push_str(&mut out, "</description>\n    <language>en</language>\n    <atom:link rel=\"self\" type=\"application/rss+xml\" href=\"");
    push_str(&mut out, base());
    push_str(&mut out, "/rss.xml\"/>\n    <lastBuildDate>");
    push_str(&mut out, rfc2822(now).as_str());
    push_str(&mut out, "</lastBuildDate>\n");
    push_chars(&mut out, &entries(upcoming, true));
    push_str(&mut out, "  </channel>\n</rss>\n");
    assert(out@ =~= spec_rss(ref_models(upcoming@), now));
    string_of(&out)
}

} // verus!
