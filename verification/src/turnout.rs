//! Expected turnout for upcoming events: from their sign-ups, and from how
//! many came to earlier events of the same series. The estimate itself is
//! arithmetic on ratios; what counts as a series is decided here.

use vstd::prelude::*;
use crate::event::{Event, EventModel, string_views, spec_title_words, title_words, shared_count, count_shared};
use crate::text::views;
use crate::sources::event_views;
use crate::event::all_wf;

verus! {

/// How many of a series' latest events are averaged for the next one.
pub const SERIES_WINDOW: usize = 5;
/// A series needs at least this many past events with a headcount.
pub const SERIES_MIN: usize = 2;

/// Same groups, and the shorter title's words mostly (at least six in
/// ten) in the longer: "ACX community dinner" and "Community Dinner", but
/// not an EA dinner.
pub open spec fn spec_same_series(a: EventModel, b: EventModel) -> bool {
    let wa = spec_title_words(a.title);
    let wb = spec_title_words(b.title);
    let shorter = if wa.len() <= wb.len() { wa.len() } else { wb.len() };
    a.groups == b.groups && shorter > 0 && shared_count(wa, wb) * 10 >= shorter * 6
}

fn same_groups(a: &Vec<String>, b: &Vec<String>) -> (r: bool)
    ensures
        r == (string_views(a@) == string_views(b@)),
{
    if a.len() != b.len() {
        assert(string_views(a@).len() != string_views(b@).len());
        return false;
    }
    let mut i: usize = 0;
    while i < a.len()
        invariant
            i <= a@.len(),
            a@.len() == b@.len(),
            forall|k: int| 0 <= k < i ==> string_views(a@)[k] == string_views(b@)[k],
        decreases a@.len() - i,
    {
        if !crate::text::eq_str(a[i].as_str(), b[i].as_str()) {
            assert(string_views(a@)[i as int] != string_views(b@)[i as int]);
            return false;
        }
        i = i + 1;
    }
    assert(string_views(a@) =~= string_views(b@));
    true
}

pub fn same_series(a: &Event, b: &Event) -> (r: bool)
    ensures
        r == spec_same_series(a@, b@),
{
    if !same_groups(&a.groups, &b.groups) {
        return false;
    }
    let wa = title_words(a.title.as_str());
    let wb = title_words(b.title.as_str());
    let shorter: usize = if wa.len() <= wb.len() { wa.len() } else { wb.len() };
    let shared = count_shared(&wa, &wb);
    shorter > 0 && (shared as u128) * 10 >= (shorter as u128) * 6
}

/// A past event's headcount rests on a visitors' report or on sign-ups.
pub open spec fn has_basis(e: EventModel) -> bool {
    e.attended is Some || e.signups > 0
}

/// Whether two events share a group.
pub open spec fn shares_group(p: EventModel, e: EventModel) -> bool {
    exists|i: int| 0 <= i < p.groups.len() && e.groups.contains(#[trigger] p.groups[i])
}

/// The events an event's came-per-sign-up ratio rests on: those sharing a
/// group with it, in order. People RSVP on Meetup far more readily than in
/// the ACX chat, so one group's habit says little about another's.
pub open spec fn ratio_basis(es: Seq<EventModel>, e: EventModel) -> Seq<int>
    decreases es.len(),
{
    if es.len() == 0 {
        seq![]
    } else {
        ratio_basis(es.drop_last(), e) + if shares_group(es.last(), e) { seq![es.len() - 1] } else { seq![] }
    }
}

/// The past events of an event's series with a headcount, latest first.
pub open spec fn series_back(es: Seq<EventModel>, e: EventModel, now: i64) -> Seq<int>
    decreases es.len(),
{
    if es.len() == 0 {
        seq![]
    } else {
        let p = es.last();
        (if p.end_or_default() < now && spec_same_series(p, e) && has_basis(p) { seq![es.len() - 1] } else { seq![] })
            + series_back(es.drop_last(), e, now)
    }
}

/// What the estimate for event `i` rests on: none for a past event, else
/// the events its ratio rests on and the latest (at most five) of its
/// series, latest first.
pub open spec fn spec_estimate_basis(es: Seq<EventModel>, i: int, now: i64) -> Option<(Seq<int>, Seq<int>)> {
    if es[i].end_or_default() < now {
        None
    } else {
        let s = series_back(es, es[i], now);
        Some((ratio_basis(es, es[i]), if s.len() <= SERIES_WINDOW { s } else { s.take(SERIES_WINDOW as int) }))
    }
}

pub open spec fn index_views(v: Seq<usize>) -> Seq<int> {
    v.map_values(|i: usize| i as int)
}

fn shares(p: &Event, e: &Event) -> (r: bool)
    ensures
        r == shares_group(p@, e@),
{
    let mut i: usize = 0;
    while i < p.groups.len()
        invariant
            i <= p.groups@.len(),
            forall|k: int| 0 <= k < i ==> !e@.groups.contains(#[trigger] p@.groups[k]),
        decreases p.groups@.len() - i,
    {
        assert(p@.groups[i as int] == p.groups@[i as int]@);
        let mut j: usize = 0;
        while j < e.groups.len()
            invariant
                j <= e.groups@.len(),
                i < p.groups@.len(),
                forall|k: int| 0 <= k < j ==> e@.groups[k] != p@.groups[i as int],
            decreases e.groups@.len() - j,
        {
            assert(e@.groups[j as int] == e.groups@[j as int]@);
            assert(p@.groups[i as int] == p.groups@[i as int]@);
            if crate::text::eq_str(e.groups[j].as_str(), p.groups[i].as_str()) {
                assert(e@.groups.contains(p@.groups[i as int]));
                return true;
            }
            j = j + 1;
        }
        i = i + 1;
    }
    false
}

/// What the estimate for event `i` rests on; see `spec_estimate_basis`.
/// The estimate is the larger of the scaled sign-ups and the series'
/// average, since sign-ups often come in only on the day.
pub fn estimate_basis(events: &Vec<Event>, i: usize, now: i64) -> (r: Option<(Vec<usize>, Vec<usize>)>)
    requires
        i < events@.len(),
        all_wf(events@),
    ensures
        match r {
            Some((ratio, series)) => spec_estimate_basis(event_views(events@), i as int, now)
                == Some((index_views(ratio@), index_views(series@))),
            None => spec_estimate_basis(event_views(events@), i as int, now) is None,
        },
{
    let ghost es = event_views(events@);
    let e = &events[i];
    assert(es[i as int] == e@);
    assert(e@.wf());
    if e.end_or_default() < now {
        return None;
    }
    let mut ratio: Vec<usize> = Vec::new();
    let mut k: usize = 0;
    while k < events.len()
        invariant
            k <= events@.len(),
            es == event_views(events@),
            es[i as int] == e@,
            index_views(ratio@) == ratio_basis(es.take(k as int), e@),
        decreases events@.len() - k,
    {
        assert(es.take(k + 1).drop_last() == es.take(k as int));
        assert(es[k as int] == events@[k as int]@);
        let ghost before = index_views(ratio@);
        if shares(&events[k], e) {
            ratio.push(k);
            assert(index_views(ratio@) =~= before.push(k as int));
        }
        k = k + 1;
    }
    assert(es.take(events@.len() as int) == es);
    let mut series: Vec<usize> = Vec::new();
    let mut k = events.len();
    assert(es.take(k as int) == es);
    while k > 0 && series.len() < SERIES_WINDOW
        invariant
            k <= events@.len(),
            es == event_views(events@),
            es[i as int] == e@,
            all_wf(events@),
            series@.len() <= SERIES_WINDOW,
            index_views(series@) + series_back(es.take(k as int), e@, now) == series_back(es, e@, now),
        decreases k,
    {
        k = k - 1;
        let p = &events[k];
        assert(es[k as int] == p@);
        assert(p@.wf());
        assert(es.take(k + 1).drop_last() == es.take(k as int));
        let ghost before = index_views(series@);
        let basis = match p.attended {
            Some(_) => true,
            None => p.signups > 0,
        };
        if p.end_or_default() < now && same_series(p, e) && basis {
            series.push(k);
            assert(index_views(series@) =~= before.push(k as int));
        }
        assert(index_views(series@) + series_back(es.take(k as int), e@, now) =~= before + series_back(es.take(k + 1), e@, now));
    }
    proof {
        let all = series_back(es, e@, now);
        let sv = index_views(series@);
        if series@.len() < SERIES_WINDOW {
            assert(k == 0);
            assert(es.take(0) =~= Seq::<EventModel>::empty());
            assert(all =~= sv);
        } else {
            assert(all.take(SERIES_WINDOW as int) =~= sv);
        }
    }
    Some((ratio, series))
}

} // verus!
