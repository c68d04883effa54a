//! The files of the site, as (path, text) pairs under the site's directory:
//! the three pages, the Atom feed, one calendar per combination of groups
//! plus one with everything, and one calendar per event for "Add to
//! calendar".

use vstd::prelude::*;
use crate::text::{chars_of, string_of, push_str, push_chars, join, join_from, views};
use crate::time::{valid_time, four_digit_year, DAY};
use crate::event::{
    Event, EventModel, models, all_wf, combo_keys, combo_groups, group_table, groups, table_view, strs_view,
    spec_group_name, group_name,
};
use crate::ics::{calendar, spec_calendar, ref_models};
use crate::render::{base, base_url, all_wf_refs, page, spec_page, Kind, Page, group_names};
use crate::feed::{atom, spec_atom, rss, spec_rss};
use crate::event::string_views;

verus! {

/// How long a past event stays in the subscription feeds, so it does not
/// vanish from people's calendars the moment it ends.
pub const FEED_KEEPS_PAST_DAYS: i64 = 60;

/// The combination of the combo groups a bit mask names: bit 0 for the
/// first, and so on.
pub open spec fn combo_set(mask: nat) -> Seq<Seq<char>> {
    (if mask % 2 == 1 { seq![combo_keys()[0]] } else { seq![] })
        + (if (mask / 2) % 2 == 1 { seq![combo_keys()[1]] } else { seq![] })
        + (if (mask / 4) % 2 == 1 { seq![combo_keys()[2]] } else { seq![] })
}

/// Every combination from mask `m` up to seven.
pub open spec fn combos_from(m: nat) -> Seq<Seq<Seq<char>>>
    decreases 8 - m,
{
    if m >= 8 {
        seq![]
    } else {
        seq![combo_set(m)] + combos_from(m + 1)
    }
}

/// Each group without combinations, on its own.
pub open spec fn singles(rows: Seq<(Seq<char>, Seq<char>)>) -> Seq<Seq<Seq<char>>>
    decreases rows.len(),
{
    if rows.len() == 0 {
        seq![]
    } else {
        singles(rows.drop_last()) + if combo_keys().contains(rows.last().0) {
            seq![]
        } else {
            seq![seq![rows.last().0]]
        }
    }
}

/// The feeds to write, as sets of groups: every non-empty combination of
/// the combo groups (`acx`, `acx+ea`, …), then each other group on its own.
pub open spec fn spec_group_sets() -> Seq<Seq<Seq<char>>> {
    combos_from(1) + singles(group_table())
}

pub fn group_sets() -> (r: Vec<Vec<&'static str>>)
    ensures
        r@.map_values(|s: Vec<&'static str>| strs_view(s@)) == spec_group_sets(),
{
    let cg = combo_groups();
    assert(cg@.len() == strs_view(cg@).len());
    assert(strs_view(cg@)[0] == cg@[0]@ && strs_view(cg@)[1] == cg@[1]@ && strs_view(cg@)[2] == cg@[2]@);
    let mut out: Vec<Vec<&'static str>> = Vec::new();
    let mut mask: u32 = 1;
    while mask < 8
        invariant
            1 <= mask <= 8,
            strs_view(cg@) == combo_keys(),
            cg@.len() == 3,
            out@.map_values(|s: Vec<&'static str>| strs_view(s@)) + combos_from(mask as nat) == combos_from(1),
        decreases 8 - mask,
    {
        let mut set: Vec<&'static str> = Vec::new();
        if mask % 2 == 1 {
            set.push(cg[0]);
        }
        if (mask / 2) % 2 == 1 {
            set.push(cg[1]);
        }
        if (mask / 4) % 2 == 1 {
            set.push(cg[2]);
        }
        assert(strs_view(set@) =~= combo_set(mask as nat));
        let ghost before = out@.map_values(|s: Vec<&'static str>| strs_view(s@));
        out.push(set);
        assert(out@.map_values(|s: Vec<&'static str>| strs_view(s@)) =~= before.push(combo_set(mask as nat)));
        assert(combos_from(mask as nat) == seq![combo_set(mask as nat)] + combos_from(mask as nat + 1));
        assert(before.push(combo_set(mask as nat)) + combos_from(mask as nat + 1) =~= before + combos_from(mask as nat));
        mask = mask + 1;
    }
    assert(combos_from(8) =~= Seq::<Seq<Seq<char>>>::empty());
    let ghost combos = out@.map_values(|s: Vec<&'static str>| strs_view(s@));
    assert(combos =~= combos_from(1));
    let rows = groups();
    let mut i: usize = 0;
    while i < rows.len()
        invariant
            i <= rows@.len(),
            table_view(rows@) == group_table(),
            strs_view(cg@) == combo_keys(),
            out@.map_values(|s: Vec<&'static str>| strs_view(s@)) == combos_from(1) + singles(group_table().take(i as int)),
        decreases rows@.len() - i,
    {
        let (key, name) = rows[i];
        assert(group_table()[i as int] == (key@, name@));
        assert(group_table().take(i + 1).drop_last() == group_table().take(i as int));
        let ghost before = out@.map_values(|s: Vec<&'static str>| strs_view(s@));
        if !crate::render::contains_key(&cg, key) {
            let single: Vec<&'static str> = vec![key];
            assert(strs_view(single@) =~= seq![key@]);
            out.push(single);
            assert(out@.map_values(|s: Vec<&'static str>| strs_view(s@)) =~= before.push(seq![key@]));
        }
        assert(out@.map_values(|s: Vec<&'static str>| strs_view(s@)) =~= combos_from(1) + singles(group_table().take(i + 1)));
        i = i + 1;
    }
    assert(group_table().take(rows@.len() as int) == group_table());
    out
}

// The files

/// The events that ended before `now`, newest first.
pub open spec fn past_of(es: Seq<EventModel>, now: int) -> Seq<EventModel>
    decreases es.len(),
{
    if es.len() == 0 {
        seq![]
    } else {
        (if es.last().end_or_default() < now { seq![es.last()] } else { seq![] }) + past_of(es.drop_last(), now)
    }
}

/// The events that end at `since` or later.
pub open spec fn ending_since(es: Seq<EventModel>, since: int) -> Seq<EventModel>
    decreases es.len(),
{
    if es.len() == 0 {
        seq![]
    } else {
        ending_since(es.drop_last(), since) + if es.last().end_or_default() >= since { seq![es.last()] } else { seq![] }
    }
}

/// The events any of the groups in `set` holds.
pub open spec fn held_by(es: Seq<EventModel>, set: Seq<Seq<char>>) -> Seq<EventModel>
    decreases es.len(),
{
    if es.len() == 0 {
        seq![]
    } else {
        held_by(es.drop_last(), set) + if es.last().in_any(set) { seq![es.last()] } else { seq![] }
    }
}

/// A feed's name and path.
pub open spec fn feed_name(set: Seq<Seq<char>>) -> Seq<char> {
    "Rationality Munich: "@ + join(group_names(set), ", "@)
}

pub open spec fn feed_path(set: Seq<Seq<char>>) -> Seq<char> {
    "feeds/"@ + join(set, "+"@) + ".ics"@
}

pub open spec fn feed_files(es: Seq<EventModel>, sets: Seq<Seq<Seq<char>>>, now: i64) -> Seq<(Seq<char>, Seq<char>)>
    decreases sets.len(),
{
    if sets.len() == 0 {
        seq![]
    } else {
        feed_files(es, sets.drop_last(), now).push((feed_path(sets.last()),
            spec_calendar(feed_name(sets.last()), held_by(es, sets.last()), now, base_url())))
    }
}

/// One calendar per event, for "Add to calendar".
pub open spec fn event_files(es: Seq<EventModel>, now: i64) -> Seq<(Seq<char>, Seq<char>)>
    decreases es.len(),
{
    if es.len() == 0 {
        seq![]
    } else {
        event_files(es.drop_last(), now).push(("e/"@ + es.last().id + ".ics"@,
            spec_calendar(es.last().title, seq![es.last()], now, base_url())))
    }
}

/// The pages and the Atom and RSS feeds of the upcoming events.
pub open spec fn page_part(es: Seq<EventModel>, stale: Seq<Seq<char>>, now: i64, template: Seq<char>) -> Seq<(Seq<char>, Seq<char>)> {
    let up = ending_since(es, now as int);
    let past = past_of(es, now as int);
    seq![
        ("index.html"@, spec_page(Kind::Upcoming, up, stale, now, template)),
        ("past/index.html"@, spec_page(Kind::Past, past, stale, now, template)),
        ("stats/index.html"@, spec_page(Kind::Stats, past, stale, now, template)),
        ("feed.xml"@, spec_atom(up, now)),
        ("rss.xml"@, spec_rss(up, now)),
    ]
}

/// Every file of the site, with the pages filled into `template`.
pub open spec fn spec_site_files(es: Seq<EventModel>, stale: Seq<Seq<char>>, now: i64, template: Seq<char>) -> Seq<(Seq<char>, Seq<char>)> {
    let recent = ending_since(es, now - FEED_KEEPS_PAST_DAYS * DAY);
    page_part(es, stale, now, template) + feed_files(recent, spec_group_sets(), now)
        + seq![("feeds/all.ics"@, spec_calendar("Rationality Munich"@, recent, now, base_url()))]
        + event_files(es, now)
}

pub open spec fn file_views(fs: Seq<(String, String)>) -> Seq<(Seq<char>, Seq<char>)> {
    fs.map_values(|f: (String, String)| (f.0@, f.1@))
}

/// The events whose end is at `since` or later, in order.
fn ending_refs<'a>(events: &'a [Event], since: i64) -> (r: Vec<&'a Event>)
    requires
        all_wf(events@),
    ensures
        all_wf_refs(r@),
        r@.len() <= events@.len(),
        ref_models(r@) == ending_since(models(events@), since as int),
{
    let ghost es = models(events@);
    let mut out: Vec<&Event> = Vec::new();
    let mut i: usize = 0;
    while i < events.len()
        invariant
            i <= events@.len(),
            es == models(events@),
            all_wf(events@),
            all_wf_refs(out@),
            out@.len() <= i,
            ref_models(out@) == ending_since(es.take(i as int), since as int),
        decreases events@.len() - i,
    {
        let e = &events[i];
        assert(es.take(i + 1).drop_last() == es.take(i as int));
        assert(es[i as int] == e@);
        assert(e@.wf());
        let ghost prev = ref_models(out@);
        if e.end_or_default() >= since {
            out.push(e);
            assert(ref_models(out@) =~= prev.push(e@));
        }
        i = i + 1;
    }
    assert(es.take(events@.len() as int) == es);
    out
}

/// The events that ended before `now`, newest first.
fn past_refs<'a>(events: &'a [Event], now: i64) -> (r: Vec<&'a Event>)
    requires
        all_wf(events@),
    ensures
        all_wf_refs(r@),
        r@.len() <= events@.len(),
        ref_models(r@) == past_of(models(events@), now as int),
{
    let ghost es = models(events@);
    let mut out: Vec<&Event> = Vec::new();
    let mut i = events.len();
    assert(es.take(i as int) == es);
    while i > 0
        invariant
            i <= events@.len(),
            es == models(events@),
            all_wf(events@),
            all_wf_refs(out@),
            out@.len() <= events@.len() - i,
            ref_models(out@) + past_of(es.take(i as int), now as int) == past_of(es, now as int),
        decreases i,
    {
        i = i - 1;
        let e = &events[i];
        assert(es.take(i + 1).drop_last() == es.take(i as int));
        assert(es[i as int] == e@);
        assert(e@.wf());
        let ghost prev = ref_models(out@);
        if e.end_or_default() < now {
            out.push(e);
            assert(ref_models(out@) =~= prev.push(e@));
        }
        assert(ref_models(out@) + past_of(es.take(i as int), now as int)
            =~= prev + past_of(es.take(i + 1), now as int));
    }
    assert(es.take(0) =~= Seq::<EventModel>::empty());
    out
}

fn held_refs<'a>(v: &Vec<&'a Event>, set: &Vec<&str>) -> (r: Vec<&'a Event>)
    requires
        all_wf_refs(v@),
    ensures
        all_wf_refs(r@),
        ref_models(r@) == held_by(ref_models(v@), strs_view(set@)),
{
    let ghost es = ref_models(v@);
    let mut out: Vec<&Event> = Vec::new();
    let mut i: usize = 0;
    while i < v.len()
        invariant
            i <= v@.len(),
            es == ref_models(v@),
            all_wf_refs(v@),
            all_wf_refs(out@),
            ref_models(out@) == held_by(es.take(i as int), strs_view(set@)),
        decreases v@.len() - i,
    {
        assert(es.take(i + 1).drop_last() == es.take(i as int));
        assert(es[i as int] == v@[i as int]@);
        let ghost prev = ref_models(out@);
        if v[i].in_any(set) {
            out.push(v[i]);
            assert(ref_models(out@) =~= prev.push(v@[i as int]@));
        }
        i = i + 1;
    }
    assert(es.take(v@.len() as int) == es);
    out
}

fn joined(set: &Vec<&str>, sep: &str, names: bool) -> (r: Vec<char>)
    ensures
        r@ == join(if names { group_names(strs_view(set@)) } else { strs_view(set@) }, sep@),
{
    let ghost ks = strs_view(set@);
    let mut parts: Vec<Vec<char>> = Vec::new();
    let mut i: usize = 0;
    while i < set.len()
        invariant
            i <= set@.len(),
            ks == strs_view(set@),
            views(parts@) == if names { group_names(ks.take(i as int)) } else { ks.take(i as int) },
        decreases set@.len() - i,
    {
        assert(ks.take(i + 1).drop_last() == ks.take(i as int));
        assert(ks[i as int] == set@[i as int]@);
        let ghost before = views(parts@);
        if names {
            parts.push(chars_of(group_name(set[i])));
        } else {
            parts.push(chars_of(set[i]));
        }
        assert(views(parts@) =~= if names { group_names(ks.take(i + 1)) } else { ks.take(i + 1) });
        i = i + 1;
    }
    assert(ks.take(set@.len() as int) == ks);
    assert(views(parts@).skip(0) == views(parts@));
    join_from(&parts, 0, sep)
}

fn text(s: &str) -> (r: String)
    ensures
        r@ == s@,
{
    string_of(&chars_of(s))
}

fn page_files(events: &[Event], stale: &[String], now: i64, template: &str) -> (r: Vec<(String, String)>)
    requires
        all_wf(events@),
        events@.len() * 100 <= usize::MAX,
        valid_time(now as int),
        four_digit_year(now as int),
    ensures
        file_views(r@) == page_part(models(events@), string_views(stale@), now, template@),
{
    let ghost es = models(events@);
    let mut files: Vec<(String, String)> = Vec::new();
    let up = ending_refs(events, now);
    let p = Page { kind: Kind::Upcoming, events: up, stale, now };
    let ghost st = string_views(stale@);
    let t0 = page(&p, template);
    assert(t0@ == spec_page(Kind::Upcoming, ending_since(es, now as int), st, now, template@));
    files.push((text("index.html"), t0));
    let up = p.events;
    let past = past_refs(events, now);
    let p = Page { kind: Kind::Past, events: past, stale, now };
    let t1 = page(&p, template);
    assert(t1@ == spec_page(Kind::Past, past_of(es, now as int), st, now, template@));
    files.push((text("past/index.html"), t1));
    let p = Page { kind: Kind::Stats, events: p.events, stale, now };
    let t2 = page(&p, template);
    assert(t2@ == spec_page(Kind::Stats, past_of(es, now as int), st, now, template@));
    files.push((text("stats/index.html"), t2));
    let t3 = atom(up.as_slice(), now);
    files.push((text("feed.xml"), t3));
    let t4 = rss(up.as_slice(), now);
    files.push((text("rss.xml"), t4));
    assert(file_views(files@) =~= page_part(es, st, now, template@));
    files
}

fn feed_calendars(events: &[Event], now: i64) -> (r: Vec<(String, String)>)
    requires
        all_wf(events@),
        valid_time(now as int),
    ensures
        file_views(r@) == feed_files(ending_since(models(events@), now - FEED_KEEPS_PAST_DAYS * DAY), spec_group_sets(), now)
            + seq![("feeds/all.ics"@, spec_calendar("Rationality Munich"@,
                ending_since(models(events@), now - FEED_KEEPS_PAST_DAYS * DAY), now, base_url()))],
{
    let ghost es = models(events@);
    let mut files: Vec<(String, String)> = Vec::new();
    let recent = ending_refs(events, now - FEED_KEEPS_PAST_DAYS * DAY);
    let ghost rs = ending_since(es, now - FEED_KEEPS_PAST_DAYS * DAY);
    let sets = group_sets();
    let ghost ss = sets@.map_values(|s: Vec<&'static str>| strs_view(s@));
    let mut k: usize = 0;
    while k < sets.len()
        invariant
            k <= sets@.len(),
            ss == sets@.map_values(|s: Vec<&'static str>| strs_view(s@)),
            ss == spec_group_sets(),
            all_wf_refs(recent@),
            ref_models(recent@) == rs,
            valid_time(now as int),
            file_views(files@) == feed_files(rs, ss.take(k as int), now),
        decreases sets@.len() - k,
    {
        assert(ss.take(k + 1).drop_last() == ss.take(k as int));
        assert(ss[k as int] == strs_view(sets@[k as int]@));
        let set = &sets[k];
        let chosen = held_refs(&recent, set);
        let mut name = chars_of("Rationality Munich: ");
        push_chars(&mut name, &joined(set, ", ", true));
        let mut path = chars_of("feeds/");
        push_chars(&mut path, &joined(set, "+", false));
        push_str(&mut path, ".ics");
        let cal = calendar(string_of(&name).as_str(), chosen.as_slice(), now, base());
        let ghost before = file_views(files@);
        files.push((string_of(&path), cal));
        assert(file_views(files@) =~= before.push((feed_path(ss[k as int]),
            spec_calendar(feed_name(ss[k as int]), held_by(rs, ss[k as int]), now, base_url()))));
        k = k + 1;
    }
    assert(ss.take(sets@.len() as int) == ss);
    let ghost before = file_views(files@);
    files.push((text("feeds/all.ics"), calendar("Rationality Munich", recent.as_slice(), now, base())));
    assert(file_views(files@) =~= before.push(("feeds/all.ics"@, spec_calendar("Rationality Munich"@, rs, now, base_url()))));
    files
}

fn event_calendars(events: &[Event], now: i64) -> (r: Vec<(String, String)>)
    requires
        all_wf(events@),
        valid_time(now as int),
    ensures
        file_views(r@) == event_files(models(events@), now),
{
    let ghost es = models(events@);
    let mut files: Vec<(String, String)> = Vec::new();
    let mut i: usize = 0;
    while i < events.len()
        invariant
            i <= events@.len(),
            es == models(events@),
            all_wf(events@),
            valid_time(now as int),
            file_views(files@) == event_files(es.take(i as int), now),
        decreases events@.len() - i,
    {
        let e = &events[i];
        assert(es.take(i + 1).drop_last() == es.take(i as int));
        assert(es[i as int] == e@);
        assert(e@.wf());
        let one: Vec<&Event> = vec![e];
        assert(ref_models(one@) =~= seq![e@]);
        let mut path = chars_of("e/");
        push_str(&mut path, e.id.as_str());
        push_str(&mut path, ".ics");
        let cal = calendar(e.title.as_str(), one.as_slice(), now, base());
        let ghost b = file_views(files@);
        files.push((string_of(&path), cal));
        assert(file_views(files@) =~= b.push(("e/"@ + e@.id + ".ics"@, spec_calendar(e@.title, seq![e@], now, base_url()))));
        i = i + 1;
    }
    assert(es.take(events@.len() as int) == es);
    files
}

/// Every file of the site: see `spec_site_files`.
pub fn site_files(events: &[Event], stale: &[String], now: i64, template: &str) -> (r: Vec<(String, String)>)
    requires
        all_wf(events@),
        events@.len() * 100 <= usize::MAX,
        valid_time(now as int),
        four_digit_year(now as int),
    ensures
        file_views(r@) == spec_site_files(models(events@), string_views(stale@), now, template@),
{
    let ghost all = spec_site_files(models(events@), string_views(stale@), now, template@);
    let mut files = page_files(events, stale, now, template);
    let mut feeds = feed_calendars(events, now);
    let mut each = event_calendars(events, now);
    let ghost a = files@;
    let ghost b = feeds@;
    let ghost c = each@;
    files.append(&mut feeds);
    files.append(&mut each);
    assert(files@ == a + b + c);
    assert(file_views(files@) =~= file_views(a) + file_views(b) + file_views(c));
    assert(file_views(files@) =~= all);
    files
}

} // verus!
