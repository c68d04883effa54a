//! How many events the groups have held: per year, per month and per weekday.
//!
//! The tables are rendered here for the default groups, so the page works
//! without JavaScript. Each cell names what it counts (`data-y`, `data-m`,
//! `data-g`, `data-wd`), and the page embeds one small row per event, so
//! switching groups recounts the same cells in the browser; the page's
//! script mirrors `shade`, `bar` and `summary` below.

use vstd::prelude::*;
use crate::text::{chars_of, string_of, push_str, push_chars, decimal, push_decimal, signed_decimal, push_signed, replaced, replace};
use crate::event::{default_keys, default_groups, strs_view, Event, EventModel, group_table, groups, table_view, string_views};
use crate::time::{munich, munich_local, spec_fields, fields};
use crate::ics::ref_models;
use crate::render::{all_wf_refs, count_in, html_escaped, html_escape};

verus! {

/// Month abbreviations, January first.
pub open spec fn month_abbr(m: int) -> Seq<char> {
    if m == 0 { "Jan"@ } else if m == 1 { "Feb"@ } else if m == 2 { "Mar"@ } else if m == 3 { "Apr"@ }
    else if m == 4 { "May"@ } else if m == 5 { "Jun"@ } else if m == 6 { "Jul"@ } else if m == 7 { "Aug"@ }
    else if m == 8 { "Sep"@ } else if m == 9 { "Oct"@ } else if m == 10 { "Nov"@ } else { "Dec"@ }
}

pub fn month_name(m: usize) -> (r: &'static str)
    requires
        m < 12,
    ensures
        r@ == month_abbr(m as int),
{
    if m == 0 { "Jan" } else if m == 1 { "Feb" } else if m == 2 { "Mar" } else if m == 3 { "Apr" }
    else if m == 4 { "May" } else if m == 5 { "Jun" } else if m == 6 { "Jul" } else if m == 7 { "Aug" }
    else if m == 8 { "Sep" } else if m == 9 { "Oct" } else if m == 10 { "Nov" } else { "Dec" }
}

/// Weekday abbreviations, Monday first, as chrono writes them.
pub open spec fn day_abbr(d: int) -> Seq<char> {
    if d == 0 { "Mon"@ } else if d == 1 { "Tue"@ } else if d == 2 { "Wed"@ } else if d == 3 { "Thu"@ }
    else if d == 4 { "Fri"@ } else if d == 5 { "Sat"@ } else { "Sun"@ }
}

pub fn day_name(d: usize) -> (r: &'static str)
    requires
        d < 7,
    ensures
        r@ == day_abbr(d as int),
{
    if d == 0 { "Mon" } else if d == 1 { "Tue" } else if d == 2 { "Wed" } else if d == 3 { "Thu" }
    else if d == 4 { "Fri" } else if d == 5 { "Sat" } else { "Sun" }
}

/// The larger of `max` and one, which counts are divided by.
pub open spec fn at_least_one(max: nat) -> nat {
    if max < 1 { 1 } else { max }
}

/// How dark a cell is, in percent: twelve, plus up to 58 as its count
/// nears the busiest one.
pub open spec fn shade_pct(n: nat, max: nat) -> nat {
    12 + n * 58 / at_least_one(max)
}

/// A cell shaded by how its count compares with the busiest one.
pub open spec fn spec_shade(attrs: Seq<char>, n: nat, max: nat) -> Seq<char> {
    if n == 0 {
        "<td "@ + attrs + " class=\"zero\">·</td>"@
    } else {
        "<td "@ + attrs + " class=\"heat"@ + (if shade_pct(n, max) > 40 { " dark"@ } else { seq![] })
            + "\" style=\"background: color-mix(in srgb, var(--text) "@ + decimal(shade_pct(n, max))
            + "%, transparent)\">"@ + decimal(n) + "</td>"@
    }
}

pub fn shade(attrs: &str, n: usize, max: usize) -> (r: String)
    requires
        n * 58 <= usize::MAX,
    ensures
        r@ == spec_shade(attrs@, n as nat, max as nat),
{
    let mut out = chars_of("<td ");
    push_str(&mut out, attrs);
    if n == 0 {
        push_str(&mut out, " class=\"zero\">·</td>");
        assert(out@ =~= spec_shade(attrs@, n as nat, max as nat));
        return string_of(&out);
    }
    let m: usize = if max < 1 { 1 } else { max };
    let q: usize = n * 58 / m;
    assert(q <= n * 58) by (nonlinear_arith)
        requires m >= 1, q as int == (n * 58) as int / (m as int);
    let pct: usize = 12 + q;
    push_str(&mut out, " class=\"heat");
    if pct > 40 {
        push_str(&mut out, " dark");
    }
    push_str(&mut out, "\" style=\"background: color-mix(in srgb, var(--text) ");
    push_decimal(&mut out, pct as u64);
    push_str(&mut out, "%, transparent)\">");
    push_decimal(&mut out, n as u64);
    push_str(&mut out, "</td>");
    assert(out@ =~= spec_shade(attrs@, n as nat, max as nat));
    string_of(&out)
}

/// A bar as wide as the count is, in percent of the busiest one.
pub open spec fn spec_bar(n: nat, max: nat) -> Seq<char> {
    "<span class=\"bar\"><span style=\"width: "@ + decimal(n * 100 / at_least_one(max)) + "%\"></span></span>"@
}

pub fn bar(n: usize, max: usize) -> (r: Vec<char>)
    requires
        n * 100 <= usize::MAX,
    ensures
        r@ == spec_bar(n as nat, max as nat),
{
    let m: usize = if max < 1 { 1 } else { max };
    let w: usize = n * 100 / m;
    let mut out = chars_of("<span class=\"bar\"><span style=\"width: ");
    push_decimal(&mut out, w as u64);
    push_str(&mut out, "%\"></span></span>");
    assert(out@ =~= spec_bar(n as nat, max as nat));
    out
}

/// How many events since when, and the busiest month if any month had
/// one.
pub open spec fn spec_summary(total: nat, first: Option<i32>, busiest: Option<(usize, i32, usize)>) -> Seq<char> {
    "<b>"@ + decimal(total) + "</b> events since "@ + (match first {
        Some(y) => signed_decimal(y as int),
        None => "the start"@,
    }) + "."@ + match busiest {
        Some(b) => if b.0 > 0 {
            " The busiest month so far was "@ + month_abbr(b.2 as int) + " "@ + signed_decimal(b.1 as int)
                + ", with "@ + decimal(b.0 as nat) + "."@
        } else {
            seq![]
        },
        None => seq![],
    }
}

pub fn summary(total: usize, first: Option<i32>, busiest: Option<(usize, i32, usize)>) -> (r: String)
    requires
        busiest matches Some(b) ==> (b.0 > 0 ==> b.2 < 12),
    ensures
        r@ == spec_summary(total as nat, first, busiest),
{
    let mut out = chars_of("<b>");
    push_decimal(&mut out, total as u64);
    push_str(&mut out, "</b> events since ");
    match first {
        Some(y) => push_signed(&mut out, y as i64),
        None => push_str(&mut out, "the start"),
    }
    push_str(&mut out, ".");
    match busiest {
        Some((n, y, m)) => {
            if n > 0 {
                push_str(&mut out, " The busiest month so far was ");
                push_str(&mut out, month_name(m));
                push_str(&mut out, " ");
                push_signed(&mut out, y as i64);
                push_str(&mut out, ", with ");
                push_decimal(&mut out, n as u64);
                push_str(&mut out, ".");
            }
        },
        None => {},
    }
    assert(out@ =~= spec_summary(total as nat, first, busiest));
    string_of(&out)
}

/// A column for a group that is off stays in the page, hidden.
pub open spec fn spec_hidden_unless_on(key: Seq<char>) -> Seq<char> {
    if default_keys().contains(key) { seq![] } else { " hidden"@ }
}

pub fn hidden_unless_on(key: &str) -> (r: &'static str)
    ensures
        r@ == spec_hidden_unless_on(key@),
{
    let dg = default_groups();
    let mut i: usize = 0;
    while i < dg.len()
        invariant
            i <= dg@.len(),
            strs_view(dg@) == default_keys(),
            forall|j: int| 0 <= j < i ==> default_keys()[j] != key@,
        decreases dg@.len() - i,
    {
        assert(default_keys()[i as int] == dg@[i as int]@);
        if crate::text::eq_str(dg[i], key) {
            proof {
                reveal_strlit("");
            }
            assert(default_keys().contains(key@));
            return "";
        }
        i = i + 1;
    }
    assert(!default_keys().contains(key@));
    " hidden"
}

// What is counted

/// The Munich calendar date of an event's start: year, month (0 to 11),
/// weekday (0 for Monday) and day of the month.
pub open spec fn year_of(e: EventModel) -> i32 {
    spec_fields(munich(e.start as int)).0
}

pub open spec fn month_of(e: EventModel) -> int {
    spec_fields(munich(e.start as int)).1 - 1
}

pub open spec fn wday_of(e: EventModel) -> u32 {
    spec_fields(munich(e.start as int)).6
}

pub open spec fn mday_of(e: EventModel) -> u32 {
    spec_fields(munich(e.start as int)).2
}

/// Shown before the visitor picks groups.
pub open spec fn is_shown(e: EventModel) -> bool {
    e.in_any(default_keys())
}

pub open spec fn n_shown(es: Seq<EventModel>) -> nat
    decreases es.len(),
{
    if es.len() == 0 {
        0
    } else {
        n_shown(es.drop_last()) + if is_shown(es.last()) { 1nat } else { 0nat }
    }
}

pub open spec fn n_shown_year(es: Seq<EventModel>, y: int) -> nat
    decreases es.len(),
{
    if es.len() == 0 {
        0
    } else {
        n_shown_year(es.drop_last(), y) + if is_shown(es.last()) && year_of(es.last()) == y { 1nat } else { 0nat }
    }
}

/// Events of any group, held by group `key` in year `y`.
pub open spec fn n_year_group(es: Seq<EventModel>, y: int, key: Seq<char>) -> nat
    decreases es.len(),
{
    if es.len() == 0 {
        0
    } else {
        n_year_group(es.drop_last(), y, key) + if year_of(es.last()) == y && es.last().in_any(seq![key]) {
            1nat
        } else {
            0nat
        }
    }
}

pub open spec fn n_shown_month(es: Seq<EventModel>, y: int, m: int) -> nat
    decreases es.len(),
{
    if es.len() == 0 {
        0
    } else {
        n_shown_month(es.drop_last(), y, m) + if is_shown(es.last()) && year_of(es.last()) == y
            && month_of(es.last()) == m {
            1nat
        } else {
            0nat
        }
    }
}

pub open spec fn n_shown_wday(es: Seq<EventModel>, d: int) -> nat
    decreases es.len(),
{
    if es.len() == 0 {
        0
    } else {
        n_shown_wday(es.drop_last(), d) + if is_shown(es.last()) && wday_of(es.last()) == d { 1nat } else { 0nat }
    }
}

/// `ys`, descending without repeats, with `y` added.
pub open spec fn add_year(ys: Seq<i32>, y: i32) -> Seq<i32>
    decreases ys.len(),
{
    if ys.len() == 0 {
        seq![y]
    } else if ys[0] == y {
        ys
    } else if y > ys[0] {
        seq![y] + ys
    } else {
        seq![ys[0]] + add_year(ys.drop_first(), y)
    }
}

/// Every year any of the events is in, latest first.
pub open spec fn years_desc(es: Seq<EventModel>) -> Seq<i32>
    decreases es.len(),
{
    if es.len() == 0 {
        seq![]
    } else {
        add_year(years_desc(es.drop_last()), year_of(es.last()))
    }
}

/// The first year a shown event is in.
pub open spec fn first_year(es: Seq<EventModel>) -> Option<i32>
    decreases es.len(),
{
    if es.len() == 0 {
        None
    } else {
        let f = first_year(es.drop_last());
        if is_shown(es.last()) {
            match f {
                Some(y) => if year_of(es.last()) < y { Some(year_of(es.last())) } else { Some(y) },
                None => Some(year_of(es.last())),
            }
        } else {
            f
        }
    }
}

/// The year the summary says the events start in is the earliest year of a
/// shown event: no shown event is in an earlier one, and one is in it. There
/// is such a year exactly when an event is shown.
pub proof fn law_first_year_is_the_earliest(es: Seq<EventModel>)
    ensures
        first_year(es) is Some <==> exists|k: int| 0 <= k < es.len() && is_shown(#[trigger] es[k]),
        first_year(es) matches Some(y) ==> {
            &&& forall|k: int| 0 <= k < es.len() && is_shown(#[trigger] es[k]) ==> y <= year_of(es[k])
            &&& exists|k: int| 0 <= k < es.len() && is_shown(#[trigger] es[k]) && year_of(es[k]) == y
        },
    decreases es.len(),
{
    if es.len() > 0 {
        let e0 = es.drop_last();
        law_first_year_is_the_earliest(e0);
        let n = es.len() - 1;
        assert(es[n] == es.last());
        assert forall|k: int| 0 <= k < e0.len() implies #[trigger] e0[k] == es[k] by {}
        if is_shown(es.last()) {
            assert(is_shown(es[n]));
        }
        match first_year(e0) {
            Some(y0) => {
                let k0 = choose|k: int| 0 <= k < e0.len() && is_shown(#[trigger] e0[k]) && year_of(e0[k]) == y0;
                assert(es[k0] == e0[k0]);
            },
            None => {
                assert forall|k: int| 0 <= k < es.len() - 1 implies !is_shown(#[trigger] es[k]) by {
                    assert(es[k] == e0[k]);
                }
            },
        }
        if first_year(es) is Some {
            let y = first_year(es)->0;
            assert forall|k: int| 0 <= k < es.len() && is_shown(#[trigger] es[k]) implies y <= year_of(es[k]) by {
                if k < n {
                    assert(e0[k] == es[k]);
                }
            }
        }
        if exists|k: int| 0 <= k < es.len() && is_shown(#[trigger] es[k]) {
            let k = choose|k: int| 0 <= k < es.len() && is_shown(#[trigger] es[k]);
            if k < n {
                assert(e0[k] == es[k]);
            }
        }
    }
}

pub open spec fn max_year_count(es: Seq<EventModel>, ys: Seq<i32>) -> nat
    decreases ys.len(),
{
    if ys.len() == 0 {
        0
    } else {
        let m = max_year_count(es, ys.drop_last());
        let n = n_shown_year(es, ys.last() as int);
        if n > m { n } else { m }
    }
}

pub open spec fn max_month_in(es: Seq<EventModel>, y: int, m: int) -> nat
    decreases 12 - m,
{
    if m < 0 || m >= 12 {
        0
    } else {
        let rest = max_month_in(es, y, m + 1);
        let n = n_shown_month(es, y, m);
        if n > rest { n } else { rest }
    }
}

pub open spec fn max_month_count(es: Seq<EventModel>, ys: Seq<i32>) -> nat
    decreases ys.len(),
{
    if ys.len() == 0 {
        0
    } else {
        let a = max_month_count(es, ys.drop_last());
        let b = max_month_in(es, ys.last() as int, 0);
        if b > a { b } else { a }
    }
}

pub open spec fn max_wday_from(es: Seq<EventModel>, d: int) -> nat
    decreases 7 - d,
{
    if d < 0 || d >= 7 {
        0
    } else {
        let rest = max_wday_from(es, d + 1);
        let n = n_shown_wday(es, d);
        if n > rest { n } else { rest }
    }
}

/// Whether month `a` (count, year, month) comes before `b` in the order
/// the busiest is picked by: count, then year, then month.
pub open spec fn tri_lt(a: (nat, int, nat), b: (nat, int, nat)) -> bool {
    a.0 < b.0 || (a.0 == b.0 && (a.1 < b.1 || (a.1 == b.1 && a.2 < b.2)))
}

pub open spec fn better(best: Option<(nat, int, nat)>, t: (nat, int, nat)) -> Option<(nat, int, nat)> {
    match best {
        Some(b) => if tri_lt(b, t) { Some(t) } else { Some(b) },
        None => Some(t),
    }
}

pub open spec fn busiest_in(es: Seq<EventModel>, y: int, m: int, best: Option<(nat, int, nat)>) -> Option<(nat, int, nat)>
    decreases 12 - m,
{
    if m < 0 || m >= 12 {
        best
    } else {
        busiest_in(es, y, m + 1, better(best, (n_shown_month(es, y, m), y, m as nat)))
    }
}

/// The busiest month of the years `ys`, by the order of `tri_lt`.
pub open spec fn busiest_of(es: Seq<EventModel>, ys: Seq<i32>, best: Option<(nat, int, nat)>) -> Option<(nat, int, nat)>
    decreases ys.len(),
{
    if ys.len() == 0 {
        best
    } else {
        busiest_of(es, ys.drop_first(), busiest_in(es, ys[0] as int, 0, best))
    }
}

/// The plain facts about one event that the counts rest on.
pub struct Facts {
    pub year: i32,
    pub month: u32,
    pub wday: u32,
    pub mday: u32,
    pub shown: bool,
}

pub open spec fn facts_ok(f: Facts, e: EventModel) -> bool {
    &&& f.year == year_of(e)
    &&& f.month == month_of(e)
    &&& f.wday == wday_of(e)
    &&& f.mday == mday_of(e)
    &&& f.shown == is_shown(e)
    &&& f.month < 12
    &&& f.wday < 7
}

pub open spec fn all_facts(fs: Seq<Facts>, es: Seq<EventModel>) -> bool {
    fs.len() == es.len() && forall|i: int| 0 <= i < es.len() ==> facts_ok(#[trigger] fs[i], es[i])
}

fn facts_of(events: &[&Event]) -> (r: Vec<Facts>)
    requires
        all_wf_refs(events@),
    ensures
        all_facts(r@, ref_models(events@)),
{
    let ghost es = ref_models(events@);
    let dg = default_groups();
    let mut out: Vec<Facts> = Vec::new();
    let mut i: usize = 0;
    while i < events.len()
        invariant
            i <= events@.len(),
            es == ref_models(events@),
            all_wf_refs(events@),
            strs_view(dg@) == default_keys(),
            out@.len() == i,
            forall|k: int| 0 <= k < i ==> facts_ok(#[trigger] out@[k], es[k]),
        decreases events@.len() - i,
    {
        let e = events[i];
        assert(es[i as int] == e@);
        let f = fields(munich_local(e.start));
        out.push(Facts { year: f.0, month: f.1 - 1, wday: f.6, mday: f.2, shown: e.in_any(&dg) });
        i = i + 1;
    }
    out
}

fn count_shown(fs: &Vec<Facts>, events: &[&Event]) -> (r: usize)
    requires
        all_facts(fs@, ref_models(events@)),
    ensures
        r == n_shown(ref_models(events@)),
        r <= events@.len(),
{
    let ghost es = ref_models(events@);
    let mut n: usize = 0;
    let mut i: usize = 0;
    while i < fs.len()
        invariant
            i <= fs@.len(),
            es == ref_models(events@),
            all_facts(fs@, es),
            n == n_shown(es.take(i as int)),
            n <= i,
        decreases fs@.len() - i,
    {
        assert(es.take(i + 1).drop_last() == es.take(i as int));
        assert(facts_ok(fs@[i as int], es[i as int]));
        if fs[i].shown {
            n = n + 1;
        }
        i = i + 1;
    }
    assert(es.take(fs@.len() as int) == es);
    n
}

fn count_shown_year(fs: &Vec<Facts>, events: &[&Event], y: i32) -> (r: usize)
    requires
        all_facts(fs@, ref_models(events@)),
    ensures
        r == n_shown_year(ref_models(events@), y as int),
        r <= events@.len(),
{
    let ghost es = ref_models(events@);
    let mut n: usize = 0;
    let mut i: usize = 0;
    while i < fs.len()
        invariant
            i <= fs@.len(),
            es == ref_models(events@),
            all_facts(fs@, es),
            n == n_shown_year(es.take(i as int), y as int),
            n <= i,
        decreases fs@.len() - i,
    {
        assert(es.take(i + 1).drop_last() == es.take(i as int));
        assert(facts_ok(fs@[i as int], es[i as int]));
        if fs[i].shown && fs[i].year == y {
            n = n + 1;
        }
        i = i + 1;
    }
    assert(es.take(fs@.len() as int) == es);
    n
}

fn count_year_group(fs: &Vec<Facts>, events: &[&Event], y: i32, key: &str) -> (r: usize)
    requires
        all_facts(fs@, ref_models(events@)),
    ensures
        r == n_year_group(ref_models(events@), y as int, key@),
        r <= events@.len(),
{
    let ghost es = ref_models(events@);
    let keys: Vec<&str> = vec![key];
    assert(strs_view(keys@) =~= seq![key@]);
    let mut n: usize = 0;
    let mut i: usize = 0;
    while i < fs.len()
        invariant
            i <= fs@.len(),
            es == ref_models(events@),
            all_facts(fs@, es),
            strs_view(keys@) == seq![key@],
            n == n_year_group(es.take(i as int), y as int, key@),
            n <= i,
        decreases fs@.len() - i,
    {
        assert(es.take(i + 1).drop_last() == es.take(i as int));
        assert(facts_ok(fs@[i as int], es[i as int]));
        assert(es[i as int] == events@[i as int]@);
        if fs[i].year == y && events[i].in_any(&keys) {
            n = n + 1;
        }
        i = i + 1;
    }
    assert(es.take(fs@.len() as int) == es);
    n
}

fn count_shown_month(fs: &Vec<Facts>, events: &[&Event], y: i32, m: u32) -> (r: usize)
    requires
        all_facts(fs@, ref_models(events@)),
    ensures
        r == n_shown_month(ref_models(events@), y as int, m as int),
        r <= events@.len(),
{
    let ghost es = ref_models(events@);
    let mut n: usize = 0;
    let mut i: usize = 0;
    while i < fs.len()
        invariant
            i <= fs@.len(),
            es == ref_models(events@),
            all_facts(fs@, es),
            n == n_shown_month(es.take(i as int), y as int, m as int),
            n <= i,
        decreases fs@.len() - i,
    {
        assert(es.take(i + 1).drop_last() == es.take(i as int));
        assert(facts_ok(fs@[i as int], es[i as int]));
        if fs[i].shown && fs[i].year == y && fs[i].month == m {
            n = n + 1;
        }
        i = i + 1;
    }
    assert(es.take(fs@.len() as int) == es);
    n
}

fn count_shown_wday(fs: &Vec<Facts>, events: &[&Event], d: u32) -> (r: usize)
    requires
        all_facts(fs@, ref_models(events@)),
    ensures
        r == n_shown_wday(ref_models(events@), d as int),
        r <= events@.len(),
{
    let ghost es = ref_models(events@);
    let mut n: usize = 0;
    let mut i: usize = 0;
    while i < fs.len()
        invariant
            i <= fs@.len(),
            es == ref_models(events@),
            all_facts(fs@, es),
            n == n_shown_wday(es.take(i as int), d as int),
            n <= i,
        decreases fs@.len() - i,
    {
        assert(es.take(i + 1).drop_last() == es.take(i as int));
        assert(facts_ok(fs@[i as int], es[i as int]));
        if fs[i].shown && fs[i].wday == d {
            n = n + 1;
        }
        i = i + 1;
    }
    assert(es.take(fs@.len() as int) == es);
    n
}

fn add_year_to(ys: &Vec<i32>, y: i32) -> (r: Vec<i32>)
    ensures
        r@ == add_year(ys@, y),
{
    let mut k: usize = 0;
    assert(ys@.skip(0) == ys@);
    while k < ys.len() && ys[k] != y && y < ys[k]
        invariant
            k <= ys@.len(),
            add_year(ys@, y) == ys@.take(k as int) + add_year(ys@.skip(k as int), y),
        decreases ys@.len() - k,
    {
        let ghost rest = ys@.skip(k as int);
        assert(rest[0] == ys@[k as int]);
        assert(rest.drop_first() == ys@.skip(k + 1));
        assert(add_year(rest, y) == seq![ys@[k as int]] + add_year(ys@.skip(k + 1), y));
        assert(ys@.take(k + 1) == ys@.take(k as int).push(ys@[k as int]));
        assert(ys@.take(k as int) + (seq![ys@[k as int]] + add_year(ys@.skip(k + 1), y))
            =~= ys@.take(k + 1) + add_year(ys@.skip(k + 1), y));
        k = k + 1;
    }
    let mut out: Vec<i32> = Vec::new();
    let mut j: usize = 0;
    while j < k
        invariant
            j <= k <= ys@.len(),
            out@ == ys@.take(j as int),
        decreases k - j,
    {
        out.push(ys[j]);
        assert(out@ =~= ys@.take(j + 1));
        j = j + 1;
    }
    if k == ys.len() {
        assert(ys@.skip(k as int) =~= Seq::<i32>::empty());
        out.push(y);
        assert(out@ =~= ys@.take(k as int) + seq![y]);
    } else if ys[k] == y {
        j = k;
        while j < ys.len()
            invariant
                k <= j <= ys@.len(),
                out@ == ys@.take(j as int),
            decreases ys@.len() - j,
        {
            out.push(ys[j]);
            assert(out@ =~= ys@.take(j + 1));
            j = j + 1;
        }
        assert(ys@.skip(k as int)[0] == y);
        assert(ys@.take(k as int) + ys@.skip(k as int) =~= ys@);
        assert(ys@.take(j as int) == ys@);
    } else {
        out.push(y);
        j = k;
        while j < ys.len()
            invariant
                k <= j <= ys@.len(),
                out@ == ys@.take(k as int).push(y) + ys@.subrange(k as int, j as int),
            decreases ys@.len() - j,
        {
            out.push(ys[j]);
            assert(out@ =~= ys@.take(k as int).push(y) + ys@.subrange(k as int, j + 1));
            j = j + 1;
        }
        assert(ys@.subrange(k as int, ys@.len() as int) == ys@.skip(k as int));
        assert(add_year(ys@.skip(k as int), y) == seq![y] + ys@.skip(k as int));
        assert(out@ =~= ys@.take(k as int) + (seq![y] + ys@.skip(k as int)));
    }
    out
}

fn years_of(fs: &Vec<Facts>, events: &[&Event]) -> (r: Vec<i32>)
    requires
        all_facts(fs@, ref_models(events@)),
    ensures
        r@ == years_desc(ref_models(events@)),
{
    let ghost es = ref_models(events@);
    let mut ys: Vec<i32> = Vec::new();
    let mut i: usize = 0;
    while i < fs.len()
        invariant
            i <= fs@.len(),
            es == ref_models(events@),
            all_facts(fs@, es),
            ys@ == years_desc(es.take(i as int)),
        decreases fs@.len() - i,
    {
        assert(es.take(i + 1).drop_last() == es.take(i as int));
        assert(facts_ok(fs@[i as int], es[i as int]));
        ys = add_year_to(&ys, fs[i].year);
        i = i + 1;
    }
    assert(es.take(fs@.len() as int) == es);
    ys
}

fn earliest_year(fs: &Vec<Facts>, events: &[&Event]) -> (r: Option<i32>)
    requires
        all_facts(fs@, ref_models(events@)),
    ensures
        r == first_year(ref_models(events@)),
{
    let ghost es = ref_models(events@);
    let mut f: Option<i32> = None;
    let mut i: usize = 0;
    while i < fs.len()
        invariant
            i <= fs@.len(),
            es == ref_models(events@),
            all_facts(fs@, es),
            f == first_year(es.take(i as int)),
        decreases fs@.len() - i,
    {
        assert(es.take(i + 1).drop_last() == es.take(i as int));
        assert(facts_ok(fs@[i as int], es[i as int]));
        if fs[i].shown {
            f = match f {
                Some(y) => if fs[i].year < y { Some(fs[i].year) } else { Some(y) },
                None => Some(fs[i].year),
            };
        }
        i = i + 1;
    }
    assert(es.take(fs@.len() as int) == es);
    f
}

// The tables

/// The head cell of each group's column.
pub open spec fn head_cells(rows: Seq<(Seq<char>, Seq<char>)>) -> Seq<char>
    decreases rows.len(),
{
    if rows.len() == 0 {
        seq![]
    } else {
        head_cells(rows.drop_last()) + "<th scope=\"col\" data-g=\""@ + rows.last().0 + "\""@
            + spec_hidden_unless_on(rows.last().0) + ">"@ + html_escaped(rows.last().1) + "</th>"@
    }
}

/// A group's count.
pub open spec fn group_cell(key: Seq<char>, n: nat) -> Seq<char> {
    "<td data-g=\""@ + key + "\""@ + spec_hidden_unless_on(key) + ">"@ + decimal(n) + "</td>"@
}

/// Each group's count for year `y`.
pub open spec fn year_cells(es: Seq<EventModel>, y: int, rows: Seq<(Seq<char>, Seq<char>)>) -> Seq<char>
    decreases rows.len(),
{
    if rows.len() == 0 {
        seq![]
    } else {
        year_cells(es, y, rows.drop_last()) + group_cell(rows.last().0, n_year_group(es, y, rows.last().0))
    }
}

pub open spec fn year_row(es: Seq<EventModel>, y: int, max: nat) -> Seq<char> {
    "<tr data-y=\""@ + signed_decimal(y) + "\"><th scope=\"row\">"@ + signed_decimal(y) + "</th>"@
        + year_cells(es, y, group_table()) + "<td class=\"total\">"@ + decimal(n_shown_year(es, y))
        + "</td><td class=\"wide\">"@ + spec_bar(n_shown_year(es, y), max) + "</td></tr>"@
}

pub open spec fn year_rows(es: Seq<EventModel>, ys: Seq<i32>, max: nat) -> Seq<char>
    decreases ys.len(),
{
    if ys.len() == 0 {
        seq![]
    } else {
        year_rows(es, ys.drop_last(), max) + year_row(es, ys.last() as int, max)
    }
}

/// Each group's count over all years.
pub open spec fn total_cells(es: Seq<EventModel>, rows: Seq<(Seq<char>, Seq<char>)>) -> Seq<char>
    decreases rows.len(),
{
    if rows.len() == 0 {
        seq![]
    } else {
        total_cells(es, rows.drop_last()) + group_cell(rows.last().0, count_in(es, rows.last().0))
    }
}

/// Per year and group. An event several groups held counts for each of
/// them, but once in the total.
pub open spec fn spec_by_year(es: Seq<EventModel>) -> Seq<char> {
    let ys = years_desc(es);
    "<div class=\"scroll\"><table class=\"years\"><thead><tr><td></td>"@ + head_cells(group_table())
        + "<th scope=\"col\">Total</th><td class=\"wide\"></td></tr></thead><tbody>"@
        + year_rows(es, ys, max_year_count(es, ys))
        + "</tbody><tfoot><tr data-y=\"all\"><th scope=\"row\">All</th>"@ + total_cells(es, group_table())
        + "<td class=\"total\">"@ + decimal(n_shown(es)) + "</td><td class=\"wide\"></td></tr></tfoot></table></div>"@
}

pub open spec fn month_head(m: int) -> Seq<char>
    decreases 12 - m,
{
    if m < 0 || m >= 12 {
        seq![]
    } else {
        "<th scope=\"col\">"@ + month_abbr(m) + "</th>"@ + month_head(m + 1)
    }
}

pub open spec fn month_cells(es: Seq<EventModel>, y: int, m: int, max: nat) -> Seq<char>
    decreases 12 - m,
{
    if m < 0 || m >= 12 {
        seq![]
    } else {
        spec_shade("data-y=\""@ + signed_decimal(y) + "\" data-m=\""@ + decimal(m as nat) + "\""@,
            n_shown_month(es, y, m), max) + month_cells(es, y, m + 1, max)
    }
}

pub open spec fn month_rows(es: Seq<EventModel>, ys: Seq<i32>, max: nat) -> Seq<char>
    decreases ys.len(),
{
    if ys.len() == 0 {
        seq![]
    } else {
        month_rows(es, ys.drop_last(), max) + "<tr><th scope=\"row\">"@ + signed_decimal(ys.last() as int)
            + "</th>"@ + month_cells(es, ys.last() as int, 0, max) + "</tr>"@
    }
}

/// Year by month.
pub open spec fn spec_by_month_table(es: Seq<EventModel>) -> Seq<char> {
    let ys = years_desc(es);
    "<div class=\"scroll\"><table class=\"months\"><thead><tr><td></td>"@ + month_head(0)
        + "</tr></thead><tbody>"@ + month_rows(es, ys, max_month_count(es, ys)) + "</tbody></table></div>"@
}

pub open spec fn day_rows(es: Seq<EventModel>, d: int, max: nat) -> Seq<char>
    decreases 7 - d,
{
    if d < 0 || d >= 7 {
        seq![]
    } else {
        "<tr data-wd=\""@ + decimal(d as nat) + "\"><th scope=\"row\">"@ + day_abbr(d)
            + "</th><td class=\"total\">"@ + decimal(n_shown_wday(es, d)) + "</td><td class=\"wide\">"@
            + spec_bar(n_shown_wday(es, d), max) + "</td></tr>"@ + day_rows(es, d + 1, max)
    }
}

/// Per weekday.
pub open spec fn spec_by_day(es: Seq<EventModel>) -> Seq<char> {
    "<table class=\"days\"><tbody>"@ + day_rows(es, 0, max_wday_from(es, 0)) + "</tbody></table>"@
}

/// The busiest month, as `summary` takes it.
pub open spec fn busiest_month(es: Seq<EventModel>) -> Option<(usize, i32, usize)> {
    match busiest_of(es, years_desc(es), None) {
        Some(t) => Some((t.0 as usize, t.1 as i32, t.2 as usize)),
        None => None,
    }
}

/// One row of the page's data per event: year, month (0 to 11), weekday
/// (0 for Monday), group keys, day of the month, and attendance (reported,
/// else sign-ups) or none.
pub open spec fn stat_row(e: EventModel) -> (i32, u32, u32, Seq<Seq<char>>, u32, Option<u32>) {
    (year_of(e), month_of(e) as u32, wday_of(e), e.groups, mday_of(e), e.headcount())
}

pub open spec fn stat_rows(es: Seq<EventModel>) -> Seq<(i32, u32, u32, Seq<Seq<char>>, u32, Option<u32>)>
    decreases es.len(),
{
    if es.len() == 0 {
        seq![]
    } else {
        stat_rows(es.drop_last()).push(stat_row(es.last()))
    }
}

/// The statistics page's body, with `data` as the rows for its script.
pub open spec fn spec_stats(es: Seq<EventModel>, data: Seq<char>) -> Seq<char> {
    "<p class=\"summary\" id=\"summary\">"@ + spec_summary(n_shown(es), first_year(es), busiest_month(es))
        + "</p>\n<p class=\"caveat\">Some events were never posted anywhere, so the real numbers are higher. Events arranged only in the group chats are included since November 2025; casual meetups like lunch and coworking are not.</p>\n<h2>Over time</h2>\n<div class=\"compare\" id=\"compare\" hidden><label>Compare from <input type=\"month\" id=\"since\" value=\"2026-04\"></label></div>\n<div class=\"tiles\" id=\"tiles\"></div>\n<figure class=\"chart\" id=\"chart\"><figcaption class=\"caveat\">Events per month. Hover a month for its count.</figcaption></figure>\n<h2>Attendance</h2>\n<div class=\"tiles\" id=\"att-tiles\"></div>\n<figure class=\"chart\" id=\"att-chart\"><figcaption class=\"caveat\">Attendance per event as reported, else sign-ups, with the average of the last five. Report one on the <a href=\"/calendar/past/\">past events</a> page.</figcaption></figure>\n<noscript><p class=\"caveat\">The charts need JavaScript; the tables below have the same event counts.</p></noscript>\n<h2>Per year</h2>\n"@ + spec_by_year(es) + "\n<p class=\"caveat\">Events held by several groups count for each, and once in the total.</p>\n<h2>Per month</h2>\n"@ + spec_by_month_table(es)
        + "\n<h2>Per weekday</h2>\n"@ + spec_by_day(es) + "\n<script type=\"application/json\" id=\"stats-data\">"@
        + replaced(data, "</"@, "<\\/"@) + "</script>"@
}

fn push_group_cell(out: &mut Vec<char>, key: &str, n: usize)
    ensures
        final(out)@ == old(out)@ + group_cell(key@, n as nat),
{
    let ghost before = out@;
    push_str(out, "<td data-g=\"");
    push_str(out, key);
    push_str(out, "\"");
    push_str(out, hidden_unless_on(key));
    push_str(out, ">");
    push_decimal(out, n as u64);
    push_str(out, "</td>");
    assert(out@ =~= before + group_cell(key@, n as nat));
}

fn by_year(fs: &Vec<Facts>, events: &[&Event], ys: &Vec<i32>) -> (r: Vec<char>)
    requires
        all_facts(fs@, ref_models(events@)),
        ys@ == years_desc(ref_models(events@)),
        events@.len() * 100 <= usize::MAX,
    ensures
        r@ == spec_by_year(ref_models(events@)),
{
    let ghost es = ref_models(events@);
    let rows = groups();
    let mut head: Vec<char> = Vec::new();
    let mut totals: Vec<char> = Vec::new();
    let mut g: usize = 0;
    while g < rows.len()
        invariant
            g <= rows@.len(),
            table_view(rows@) == group_table(),
            es == ref_models(events@),
            head@ == head_cells(group_table().take(g as int)),
            totals@ == total_cells(es, group_table().take(g as int)),
        decreases rows@.len() - g,
    {
        let (key, name) = rows[g];
        assert(group_table()[g as int] == (key@, name@));
        assert(group_table().take(g + 1).drop_last() == group_table().take(g as int));
        let ghost h0 = head@;
        push_str(&mut head, "<th scope=\"col\" data-g=\"");
        push_str(&mut head, key);
        push_str(&mut head, "\"");
        push_str(&mut head, hidden_unless_on(key));
        push_str(&mut head, ">");
        push_str(&mut head, html_escape(name).as_str());
        push_str(&mut head, "</th>");
        assert(head@ =~= head_cells(group_table().take(g + 1)));
        let n = crate::render::count_group(events, key);
        push_group_cell(&mut totals, key, n);
        g = g + 1;
    }
    assert(group_table().take(rows@.len() as int) == group_table());
    let mut max: usize = 0;
    let mut k: usize = 0;
    while k < ys.len()
        invariant
            k <= ys@.len(),
            es == ref_models(events@),
            all_facts(fs@, es),
            max == max_year_count(es, ys@.take(k as int)),
            max <= events@.len(),
        decreases ys@.len() - k,
    {
        assert(ys@.take(k + 1).drop_last() == ys@.take(k as int));
        let n = count_shown_year(fs, events, ys[k]);
        if n > max {
            max = n;
        }
        k = k + 1;
    }
    assert(ys@.take(ys@.len() as int) == ys@);
    let mut body: Vec<char> = Vec::new();
    k = 0;
    while k < ys.len()
        invariant
            k <= ys@.len(),
            es == ref_models(events@),
            all_facts(fs@, es),
            table_view(rows@) == group_table(),
            max == max_year_count(es, ys@),
            max <= events@.len(),
            events@.len() * 100 <= usize::MAX,
            body@ == year_rows(es, ys@.take(k as int), max as nat),
        decreases ys@.len() - k,
    {
        assert(ys@.take(k + 1).drop_last() == ys@.take(k as int));
        let y = ys[k];
        let mut cells: Vec<char> = Vec::new();
        g = 0;
        while g < rows.len()
            invariant
                g <= rows@.len(),
                table_view(rows@) == group_table(),
                es == ref_models(events@),
                all_facts(fs@, es),
                cells@ == year_cells(es, y as int, group_table().take(g as int)),
            decreases rows@.len() - g,
        {
            let (key, name) = rows[g];
            assert(group_table()[g as int] == (key@, name@));
            assert(group_table().take(g + 1).drop_last() == group_table().take(g as int));
            let n = count_year_group(fs, events, y, key);
            push_group_cell(&mut cells, key, n);
            g = g + 1;
        }
        assert(group_table().take(rows@.len() as int) == group_table());
        let total = count_shown_year(fs, events, y);
        let ghost b0 = body@;
        push_str(&mut body, "<tr data-y=\"");
        push_signed(&mut body, y as i64);
        push_str(&mut body, "\"><th scope=\"row\">");
        push_signed(&mut body, y as i64);
        push_str(&mut body, "</th>");
        push_chars(&mut body, &cells);
        push_str(&mut body, "<td class=\"total\">");
        push_decimal(&mut body, total as u64);
        push_str(&mut body, "</td><td class=\"wide\">");
        push_chars(&mut body, &bar(total, max));
        push_str(&mut body, "</td></tr>");
        assert(body@ =~= b0 + year_row(es, y as int, max as nat));
        k = k + 1;
    }
    assert(ys@.take(ys@.len() as int) == ys@);
    let shown = count_shown(fs, events);
    let mut out = chars_of("<div class=\"scroll\"><table class=\"years\"><thead><tr><td></td>");
    push_chars(&mut out, &head);
    push_str(&mut out, "<th scope=\"col\">Total</th><td class=\"wide\"></td></tr></thead><tbody>");
    push_chars(&mut out, &body);
    push_str(&mut out, "</tbody><tfoot><tr data-y=\"all\"><th scope=\"row\">All</th>");
    push_chars(&mut out, &totals);
    push_str(&mut out, "<td class=\"total\">");
    push_decimal(&mut out, shown as u64);
    push_str(&mut out, "</td><td class=\"wide\"></td></tr></tfoot></table></div>");
    assert(out@ =~= spec_by_year(es));
    out
}

fn month_table(fs: &Vec<Facts>, events: &[&Event], ys: &Vec<i32>) -> (r: Vec<char>)
    requires
        all_facts(fs@, ref_models(events@)),
        ys@ == years_desc(ref_models(events@)),
        events@.len() * 100 <= usize::MAX,
    ensures
        r@ == spec_by_month_table(ref_models(events@)),
{
    let ghost es = ref_models(events@);
    let mut max: usize = 0;
    let mut k: usize = 0;
    while k < ys.len()
        invariant
            k <= ys@.len(),
            es == ref_models(events@),
            all_facts(fs@, es),
            max == max_month_count(es, ys@.take(k as int)),
            max <= events@.len(),
        decreases ys@.len() - k,
    {
        assert(ys@.take(k + 1).drop_last() == ys@.take(k as int));
        let mut best: usize = 0;
        let mut m: u32 = 12;
        while m > 0
            invariant
                m <= 12,
                k < ys@.len(),
                es == ref_models(events@),
                all_facts(fs@, es),
                best == max_month_in(es, ys@[k as int] as int, m as int),
                best <= events@.len(),
            decreases m,
        {
            m = m - 1;
            let n = count_shown_month(fs, events, ys[k], m);
            if n > best {
                best = n;
            }
        }
        if best > max {
            max = best;
        }
        k = k + 1;
    }
    assert(ys@.take(ys@.len() as int) == ys@);
    let mut head: Vec<char> = Vec::new();
    let mut m: usize = 0;
    while m < 12
        invariant
            m <= 12,
            head@ + month_head(m as int) == month_head(0),
        decreases 12 - m,
    {
        let ghost h0 = head@;
        push_str(&mut head, "<th scope=\"col\">");
        push_str(&mut head, month_name(m));
        push_str(&mut head, "</th>");
        assert(head@ + month_head(m + 1) =~= h0 + month_head(m as int));
        m = m + 1;
    }
    assert(head@ =~= month_head(0));
    let mut body: Vec<char> = Vec::new();
    k = 0;
    while k < ys.len()
        invariant
            k <= ys@.len(),
            es == ref_models(events@),
            all_facts(fs@, es),
            max == max_month_count(es, ys@),
            max <= events@.len(),
            events@.len() * 100 <= usize::MAX,
            body@ == month_rows(es, ys@.take(k as int), max as nat),
        decreases ys@.len() - k,
    {
        assert(ys@.take(k + 1).drop_last() == ys@.take(k as int));
        let y = ys[k];
        let mut cells: Vec<char> = Vec::new();
        let mut m: u32 = 0;
        while m < 12
            invariant
                m <= 12,
                es == ref_models(events@),
                all_facts(fs@, es),
                max <= events@.len(),
                events@.len() * 100 <= usize::MAX,
                cells@ + month_cells(es, y as int, m as int, max as nat) == month_cells(es, y as int, 0, max as nat),
            decreases 12 - m,
        {
            let n = count_shown_month(fs, events, y, m);
            let mut attrs = chars_of("data-y=\"");
            push_signed(&mut attrs, y as i64);
            push_str(&mut attrs, "\" data-m=\"");
            push_decimal(&mut attrs, m as u64);
            push_str(&mut attrs, "\"");
            let ghost c0 = cells@;
            push_str(&mut cells, shade(string_of(&attrs).as_str(), n, max).as_str());
            assert(cells@ + month_cells(es, y as int, m + 1, max as nat) =~= c0 + month_cells(es, y as int, m as int, max as nat));
            m = m + 1;
        }
        assert(cells@ =~= month_cells(es, y as int, 0, max as nat));
        let ghost b0 = body@;
        push_str(&mut body, "<tr><th scope=\"row\">");
        push_signed(&mut body, y as i64);
        push_str(&mut body, "</th>");
        push_chars(&mut body, &cells);
        push_str(&mut body, "</tr>");
        assert(body@ =~= month_rows(es, ys@.take(k + 1), max as nat));
        k = k + 1;
    }
    assert(ys@.take(ys@.len() as int) == ys@);
    let mut out = chars_of("<div class=\"scroll\"><table class=\"months\"><thead><tr><td></td>");
    push_chars(&mut out, &head);
    push_str(&mut out, "</tr></thead><tbody>");
    push_chars(&mut out, &body);
    push_str(&mut out, "</tbody></table></div>");
    assert(out@ =~= spec_by_month_table(es));
    out
}

fn day_table(fs: &Vec<Facts>, events: &[&Event]) -> (r: Vec<char>)
    requires
        all_facts(fs@, ref_models(events@)),
        events@.len() * 100 <= usize::MAX,
    ensures
        r@ == spec_by_day(ref_models(events@)),
{
    let ghost es = ref_models(events@);
    let mut max: usize = 0;
    let mut d: u32 = 7;
    while d > 0
        invariant
            d <= 7,
            es == ref_models(events@),
            all_facts(fs@, es),
            max == max_wday_from(es, d as int),
            max <= events@.len(),
        decreases d,
    {
        d = d - 1;
        let n = count_shown_wday(fs, events, d);
        if n > max {
            max = n;
        }
    }
    let mut rows: Vec<char> = Vec::new();
    let mut d: u32 = 0;
    while d < 7
        invariant
            d <= 7,
            es == ref_models(events@),
            all_facts(fs@, es),
            max == max_wday_from(es, 0),
            max <= events@.len(),
            events@.len() * 100 <= usize::MAX,
            rows@ + day_rows(es, d as int, max as nat) == day_rows(es, 0, max as nat),
        decreases 7 - d,
    {
        let n = count_shown_wday(fs, events, d);
        let ghost r0 = rows@;
        push_str(&mut rows, "<tr data-wd=\"");
        push_decimal(&mut rows, d as u64);
        push_str(&mut rows, "\"><th scope=\"row\">");
        push_str(&mut rows, day_name(d as usize));
        push_str(&mut rows, "</th><td class=\"total\">");
        push_decimal(&mut rows, n as u64);
        push_str(&mut rows, "</td><td class=\"wide\">");
        push_chars(&mut rows, &bar(n, max));
        push_str(&mut rows, "</td></tr>");
        assert(rows@ + day_rows(es, d + 1, max as nat) =~= r0 + day_rows(es, d as int, max as nat));
        d = d + 1;
    }
    assert(rows@ =~= day_rows(es, 0, max as nat));
    let mut out = chars_of("<table class=\"days\"><tbody>");
    push_chars(&mut out, &rows);
    push_str(&mut out, "</tbody></table>");
    assert(out@ =~= spec_by_day(es));
    out
}

pub open spec fn widen(b: Option<(usize, i32, usize)>) -> Option<(nat, int, nat)> {
    match b {
        Some(t) => Some((t.0 as nat, t.1 as int, t.2 as nat)),
        None => None,
    }
}

fn busiest(fs: &Vec<Facts>, events: &[&Event], ys: &Vec<i32>) -> (r: Option<(usize, i32, usize)>)
    requires
        all_facts(fs@, ref_models(events@)),
        ys@ == years_desc(ref_models(events@)),
    ensures
        r == busiest_month(ref_models(events@)),
        r matches Some(b) ==> b.2 < 12,
{
    let ghost es = ref_models(events@);
    let ghost target = busiest_of(es, ys@, None);
    let mut best: Option<(usize, i32, usize)> = None;
    let mut k: usize = 0;
    assert(ys@.skip(0) == ys@);
    while k < ys.len()
        invariant
            k <= ys@.len(),
            es == ref_models(events@),
            all_facts(fs@, es),
            busiest_of(es, ys@.skip(k as int), widen(best)) == target,
            best matches Some(b) ==> b.2 < 12,
        decreases ys@.len() - k,
    {
        let y = ys[k];
        let ghost start = widen(best);
        assert(ys@.skip(k as int)[0] == y);
        assert(ys@.skip(k as int).drop_first() == ys@.skip(k + 1));
        let mut m: usize = 0;
        while m < 12
            invariant
                m <= 12,
                es == ref_models(events@),
                all_facts(fs@, es),
                busiest_in(es, y as int, m as int, widen(best)) == busiest_in(es, y as int, 0, start),
                best matches Some(b) ==> b.2 < 12,
            decreases 12 - m,
        {
            let n = count_shown_month(fs, events, y, m as u32);
            let ghost b0 = widen(best);
            let take = match best {
                Some((bn, by, bm)) => bn < n || (bn == n && (by < y || (by == y && bm < m))),
                None => true,
            };
            if take {
                best = Some((n, y, m));
            }
            assert(widen(best) == better(b0, (n as nat, y as int, m as nat)));
            m = m + 1;
        }
        k = k + 1;
    }
    assert(ys@.skip(ys@.len() as int) =~= Seq::<i32>::empty());
    best
}

/// One data row as plain values.
pub open spec fn row_views(rows: Seq<(i32, u32, u32, &Vec<String>, u32, Option<u32>)>) -> Seq<(i32, u32, u32, Seq<Seq<char>>, u32, Option<u32>)> {
    rows.map_values(|r: (i32, u32, u32, &Vec<String>, u32, Option<u32>)| (r.0, r.1, r.2, string_views(r.3@), r.4, r.5))
}

/// How serde_json writes the data rows.
pub uninterp spec fn spec_json_rows(rows: Seq<(i32, u32, u32, Seq<Seq<char>>, u32, Option<u32>)>) -> Seq<char>;

/// `serde_json::to_string` of the rows: a JSON array of arrays. Writing
/// integers, strings and options into a `String` cannot fail. The contract
/// names the text; it says no more of it.
#[verifier::external_body]
fn json_rows(rows: &Vec<(i32, u32, u32, &Vec<String>, u32, Option<u32>)>) -> (r: String)
    ensures
        r@ == spec_json_rows(row_views(rows@)),
{
    serde_json::to_string(rows).unwrap()
}

fn data_rows<'a>(fs: &Vec<Facts>, events: &[&'a Event]) -> (r: Vec<(i32, u32, u32, &'a Vec<String>, u32, Option<u32>)>)
    requires
        all_facts(fs@, ref_models(events@)),
    ensures
        row_views(r@) == stat_rows(ref_models(events@)),
{
    let ghost es = ref_models(events@);
    let mut out: Vec<(i32, u32, u32, &Vec<String>, u32, Option<u32>)> = Vec::new();
    let mut i: usize = 0;
    while i < fs.len()
        invariant
            i <= fs@.len(),
            es == ref_models(events@),
            all_facts(fs@, es),
            row_views(out@) == stat_rows(es.take(i as int)),
        decreases fs@.len() - i,
    {
        assert(es.take(i + 1).drop_last() == es.take(i as int));
        assert(facts_ok(fs@[i as int], es[i as int]));
        let e = events[i];
        assert(es[i as int] == e@);
        let f = &fs[i];
        let ghost before = row_views(out@);
        out.push((f.year, f.month, f.wday, &e.groups, f.mday, e.headcount()));
        assert(row_views(out@) =~= before.push(stat_row(es[i as int])));
        i = i + 1;
    }
    assert(es.take(fs@.len() as int) == es);
    out
}

/// The statistics page's body for `events`, the ones that already
/// happened, with `data` as the rows for its script.
pub fn render_with_data(events: &[&Event], data: &str) -> (r: String)
    requires
        all_wf_refs(events@),
        events@.len() * 100 <= usize::MAX,
    ensures
        r@ == spec_stats(ref_models(events@), data@),
{
    let ghost es = ref_models(events@);
    let fs = facts_of(events);
    let ys = years_of(&fs, events);
    let shown = count_shown(&fs, events);
    let first = earliest_year(&fs, events);
    let top = busiest(&fs, events, &ys);
    let mut out = chars_of("<p class=\"summary\" id=\"summary\">");
    push_str(&mut out, summary(shown, first, top).as_str());
    push_str(&mut out, "</p>\n<p class=\"caveat\">Some events were never posted anywhere, so the real numbers are higher. Events arranged only in the group chats are included since November 2025; casual meetups like lunch and coworking are not.</p>\n<h2>Over time</h2>\n<div class=\"compare\" id=\"compare\" hidden><label>Compare from <input type=\"month\" id=\"since\" value=\"2026-04\"></label></div>\n<div class=\"tiles\" id=\"tiles\"></div>\n<figure class=\"chart\" id=\"chart\"><figcaption class=\"caveat\">Events per month. Hover a month for its count.</figcaption></figure>\n<h2>Attendance</h2>\n<div class=\"tiles\" id=\"att-tiles\"></div>\n<figure class=\"chart\" id=\"att-chart\"><figcaption class=\"caveat\">Attendance per event as reported, else sign-ups, with the average of the last five. Report one on the <a href=\"/calendar/past/\">past events</a> page.</figcaption></figure>\n<noscript><p class=\"caveat\">The charts need JavaScript; the tables below have the same event counts.</p></noscript>\n<h2>Per year</h2>\n");
    push_chars(&mut out, &by_year(&fs, events, &ys));
    push_str(&mut out, "\n<p class=\"caveat\">Events held by several groups count for each, and once in the total.</p>\n<h2>Per month</h2>\n");
    push_chars(&mut out, &month_table(&fs, events, &ys));
    push_str(&mut out, "\n<h2>Per weekday</h2>\n");
    push_chars(&mut out, &day_table(&fs, events));
    push_str(&mut out, "\n<script type=\"application/json\" id=\"stats-data\">");
    proof {
        reveal_strlit("</");
    }
    push_chars(&mut out, &replace(&chars_of(data), "</", "<\\/"));
    push_str(&mut out, "</script>");
    assert(out@ =~= spec_stats(es, data@));
    string_of(&out)
}

/// The statistics page's body for `events`, the ones that already
/// happened. The page embeds one row per event, as JSON, so that its
/// script can recount for the groups a visitor picks.
pub fn render(events: &[&Event]) -> (r: String)
    requires
        all_wf_refs(events@),
        events@.len() * 100 <= usize::MAX,
    ensures
        r@ == spec_stats(ref_models(events@), spec_json_rows(stat_rows(ref_models(events@)))),
{
    let fs = facts_of(events);
    let rows = data_rows(&fs, events);
    let data = json_rows(&rows);
    render_with_data(events, data.as_str())
}

} // verus!
