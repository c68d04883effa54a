//! Reading the iCalendar feeds Meetup, Luma and Google Calendar publish,
//! and writing our own.

use vstd::prelude::*;
use crate::text::{
    chars_of, contains_seq, eq_chars, eq_str, split_char, split_on, starts_with, string_of,
    slice_chars, views, lemma_split_on_nonempty,
};
use crate::event::{lines_of, spec_lines, Event, EventModel};
use crate::text::{join, join_from, push_str, push_chars, lemma_join_push};
use crate::time::{spec_format_local, format_local};
use crate::text::{utf8_len, utf8_length_wide, ends_with, is_ascii_digit};
use crate::time::{
    valid_time, in_range, TIME_LIMIT, spec_parse_date, spec_parse_date_time, spec_earliest_utc,
    spec_zone_known, parse_date, parse_date_time, earliest_utc, zone_known, berlin,
    spec_local_of, local_of, day_of, day_number,
};
use crate::text::{parse_signed, parse_unsigned, parse_int, parse_uint, char_utf8_len, char_len_utf8, lemma_utf8_len_add};

verus! {

/// One property value, and the time zone its `TZID` parameter names.
#[derive(Clone, Debug)]
pub struct Prop {
    pub value: String,
    pub tzid: Option<String>,
}

pub struct PropModel {
    pub value: Seq<char>,
    pub tzid: Option<Seq<char>>,
}

impl View for Prop {
    type V = PropModel;

    open spec fn view(&self) -> PropModel {
        PropModel {
            value: self.value@,
            tzid: match self.tzid {
                Some(t) => Some(t@),
                None => None,
            },
        }
    }
}

pub open spec fn prop_views(ps: Seq<Prop>) -> Seq<PropModel> {
    ps.map_values(|p: Prop| p@)
}

/// One VEVENT: each property name with every value it had, in the order the
/// names first appeared (EXDATE may repeat).
pub struct IcsEvent {
    pub props: Vec<(String, Vec<Prop>)>,
}

/// Property names with their values, each name once.
pub type IcsModel = Seq<(Seq<char>, Seq<PropModel>)>;

impl View for IcsEvent {
    type V = IcsModel;

    open spec fn view(&self) -> IcsModel {
        self.props@.map_values(|e: (String, Vec<Prop>)| (e.0@, prop_views(e.1@)))
    }
}

pub open spec fn ics_views(v: Seq<IcsEvent>) -> Seq<IcsModel> {
    v.map_values(|e: IcsEvent| e@)
}

/// Where name `name` stands in `ev`.
pub open spec fn name_index(ev: IcsModel, name: Seq<char>) -> Option<int>
    decreases ev.len(),
{
    if ev.len() == 0 {
        None
    } else if ev.last().0 == name {
        Some(ev.len() - 1)
    } else {
        name_index(ev.drop_last(), name)
    }
}

pub proof fn lemma_name_index(ev: IcsModel, name: Seq<char>)
    ensures
        match name_index(ev, name) {
            Some(i) => 0 <= i < ev.len() && ev[i].0 == name,
            None => forall|j: int| 0 <= j < ev.len() ==> (#[trigger] ev[j]).0 != name,
        },
    decreases ev.len(),
{
    if ev.len() > 0 {
        lemma_name_index(ev.drop_last(), name);
        assert forall|j: int| 0 <= j < ev.len() - 1 implies ev.drop_last()[j] == ev[j] by {}
    }
}

/// `ev` with `p` added to the values of `name`.
pub open spec fn add_prop(ev: IcsModel, name: Seq<char>, p: PropModel) -> IcsModel {
    match name_index(ev, name) {
        Some(i) => ev.update(i, (name, ev[i].1.push(p))),
        None => ev.push((name, seq![p])),
    }
}

/// What `str::to_uppercase` makes of a string: Unicode's uppercase mapping.
pub uninterp spec fn spec_to_uppercase(s: Seq<char>) -> Seq<char>;

/// `str::to_uppercase`. The contract names its result; it says no more.
#[verifier::external_body]
pub(crate) fn to_uppercase(s: &str) -> (r: String)
    ensures
        r@ == spec_to_uppercase(s@),
{
    s.to_uppercase()
}

/// Content lines: a line starting with a space or tab continues the one
/// before it, without that first character.
pub open spec fn unfold(ls: Seq<Seq<char>>) -> Seq<Seq<char>>
    decreases ls.len(),
{
    if ls.len() == 0 {
        seq![]
    } else {
        let r = unfold(ls.drop_last());
        let l = ls.last();
        if l.len() > 0 && (l[0] == ' ' || l[0] == '\t') && r.len() > 0 {
            r.update(r.len() - 1, r.last() + l.drop_first())
        } else {
            r.push(l)
        }
    }
}

/// The first position of `c` in `s`.
pub open spec fn first_index_of(s: Seq<char>, c: char) -> Option<int>
    decreases s.len(),
{
    if s.len() == 0 {
        None
    } else {
        match first_index_of(s.drop_last(), c) {
            Some(i) => Some(i),
            None => if s.last() == c { Some(s.len() - 1) } else { None },
        }
    }
}

/// `s` without `"` at either end.
pub open spec fn trim_quotes_start(s: Seq<char>) -> Seq<char>
    decreases s.len(),
{
    if s.len() > 0 && s[0] == '"' {
        trim_quotes_start(s.drop_first())
    } else {
        s
    }
}

pub open spec fn trim_quotes_end(s: Seq<char>) -> Seq<char>
    decreases s.len(),
{
    if s.len() > 0 && s.last() == '"' {
        trim_quotes_end(s.drop_last())
    } else {
        s
    }
}

/// The first `TZID=` parameter among `params`, unquoted.
pub open spec fn tzid_param(params: Seq<Seq<char>>) -> Option<Seq<char>>
    decreases params.len(),
{
    if params.len() == 0 {
        None
    } else if "TZID="@.is_prefix_of(params[0]) {
        Some(trim_quotes_end(trim_quotes_start(params[0].skip(5))))
    } else {
        tzid_param(params.drop_first())
    }
}

/// Where the parser is: the events read, the one being read, and how deep
/// inside nested components (VALARM and friends) it is.
pub struct ParseState {
    pub events: Seq<IcsModel>,
    pub cur: Option<IcsModel>,
    pub depth: int,
}

/// One content line read. Properties count only directly inside a VEVENT;
/// those of nested components are not the event's.
pub open spec fn parse_line(st: ParseState, line: Seq<char>) -> ParseState {
    if line == "BEGIN:VEVENT"@ {
        ParseState { cur: Some(seq![]), depth: 0, ..st }
    } else if line == "END:VEVENT"@ {
        ParseState {
            events: match st.cur {
                Some(c) => st.events.push(c),
                None => st.events,
            },
            cur: None,
            ..st
        }
    } else if "BEGIN:"@.is_prefix_of(line) {
        ParseState { depth: st.depth + 1, ..st }
    } else if "END:"@.is_prefix_of(line) {
        ParseState { depth: st.depth - 1, ..st }
    } else {
        match (st.cur, first_index_of(line, ':')) {
            (Some(c), Some(i)) => if st.depth == 0 {
                let head = split_on(line.take(i), ';');
                let p = PropModel { value: line.skip(i + 1), tzid: tzid_param(head.drop_first()) };
                ParseState { cur: Some(add_prop(c, spec_to_uppercase(head[0]), p)), ..st }
            } else {
                st
            },
            _ => st,
        }
    }
}

pub open spec fn parse_lines(ls: Seq<Seq<char>>) -> ParseState
    decreases ls.len(),
{
    if ls.len() == 0 {
        ParseState { events: seq![], cur: None, depth: 0 }
    } else {
        parse_line(parse_lines(ls.drop_last()), ls.last())
    }
}

/// The VEVENTs of a calendar text.
pub open spec fn spec_parse(text: Seq<char>) -> Seq<IcsModel> {
    parse_lines(unfold(spec_lines(text))).events
}

fn unfold_lines(ls: Vec<Vec<char>>) -> (r: Vec<Vec<char>>)
    ensures
        views(r@) == unfold(views(ls@)),
{
    let ghost lv = views(ls@);
    let mut out: Vec<Vec<char>> = Vec::new();
    let mut i: usize = 0;
    while i < ls.len()
        invariant
            i <= ls@.len(),
            lv == views(ls@),
            views(out@) == unfold(lv.take(i as int)),
        decreases ls@.len() - i,
    {
        assert(lv.take(i + 1).drop_last() == lv.take(i as int));
        assert(lv.take(i + 1).last() == ls@[i as int]@);
        let l = &ls[i];
        let ghost before = out@;
        if l.len() > 0 && (l[0] == ' ' || l[0] == '\t') && out.len() > 0 {
            let last = out.len() - 1;
            let mut tail = out.remove(last);
            let rest = slice_chars(l, 1, l.len());
            assert(rest@ == l@.drop_first());
            let ghost t0 = tail@;
            let mut k: usize = 0;
            while k < rest.len()
                invariant
                    k <= rest@.len(),
                    tail@ == t0 + rest@.take(k as int),
                decreases rest@.len() - k,
            {
                assert(rest@.take(k + 1) == rest@.take(k as int).push(rest@[k as int]));
                tail.push(rest[k]);
                k = k + 1;
            }
            assert(rest@.take(rest@.len() as int) == rest@);
            out.push(tail);
            assert(views(out@) =~= views(before).update(last as int, views(before)[last as int] + l@.drop_first()));
        } else {
            let copy = slice_chars(l, 0, l.len());
            assert(copy@ == l@) by { assert(l@.subrange(0, l@.len() as int) == l@); }
            out.push(copy);
            assert(views(out@) =~= views(before).push(l@));
        }
        i = i + 1;
    }
    assert(lv.take(ls@.len() as int) == lv);
    out
}

pub fn find_char(s: &Vec<char>, c: char) -> (r: Option<usize>)
    ensures
        r == match first_index_of(s@, c) {
            Some(i) => Some(i as usize),
            None => None::<usize>,
        },
        r matches Some(i) ==> i < s@.len() && first_index_of(s@, c) == Some(i as int),
{
    let mut i: usize = 0;
    while i < s.len()
        invariant
            i <= s@.len(),
            first_index_of(s@.take(i as int), c) is None,
        decreases s@.len() - i,
    {
        assert(s@.take(i + 1).drop_last() == s@.take(i as int));
        if s[i] == c {
            assert(first_index_of(s@.take(i + 1), c) == Some(i as int));
            proof { lemma_first_index_prefix(s@, i as int + 1, c); }
            return Some(i);
        }
        i = i + 1;
    }
    assert(s@.take(s@.len() as int) == s@);
    None
}

pub proof fn lemma_first_index_prefix(s: Seq<char>, k: int, c: char)
    requires
        0 <= k <= s.len(),
        first_index_of(s.take(k), c) is Some,
    ensures
        first_index_of(s, c) == first_index_of(s.take(k), c),
    decreases s.len() - k,
{
    if k < s.len() {
        assert(s.drop_last().take(k) == s.take(k));
        lemma_first_index_prefix(s.drop_last(), k, c);
    } else {
        assert(s.take(k) == s);
    }
}

fn trim_quotes(s: &Vec<char>) -> (r: Vec<char>)
    ensures
        r@ == trim_quotes_end(trim_quotes_start(s@)),
{
    let mut a: usize = 0;
    assert(s@.skip(0) == s@);
    while a < s.len() && s[a] == '"'
        invariant
            a <= s@.len(),
            trim_quotes_start(s@) == trim_quotes_start(s@.skip(a as int)),
        decreases s@.len() - a,
    {
        assert(s@.skip(a as int).drop_first() == s@.skip(a + 1));
        a = a + 1;
    }
    let mut b = s.len();
    assert(s@.skip(a as int) == s@.subrange(a as int, b as int));
    while b > a && s[b - 1] == '"'
        invariant
            a <= b <= s@.len(),
            trim_quotes_end(trim_quotes_start(s@)) == trim_quotes_end(s@.subrange(a as int, b as int)),
        decreases b,
    {
        assert(s@.subrange(a as int, b as int).drop_last() == s@.subrange(a as int, b - 1));
        b = b - 1;
    }
    slice_chars(s, a, b)
}

fn find_tzid(parts: &Vec<Vec<char>>) -> (r: Option<Vec<char>>)
    requires
        parts@.len() > 0,
    ensures
        match r {
            Some(t) => tzid_param(views(parts@).drop_first()) == Some(t@),
            None => tzid_param(views(parts@).drop_first()) is None,
        },
{
    let ghost pv = views(parts@);
    let mut i: usize = 1;
    assert(pv.skip(1) == pv.drop_first());
    while i < parts.len()
        invariant
            1 <= i <= parts@.len(),
            pv == views(parts@),
            tzid_param(pv.drop_first()) == tzid_param(pv.skip(i as int)),
        decreases parts@.len() - i,
    {
        let p = &parts[i];
        assert(pv.skip(i as int)[0] == p@);
        assert(pv.skip(i as int).drop_first() == pv.skip(i + 1));
        proof { reveal_strlit("TZID="); }
        if starts_with(p, "TZID=") {
            let rest = slice_chars(p, 5, p.len());
            assert(rest@ == p@.skip(5));
            return Some(trim_quotes(&rest));
        }
        i = i + 1;
    }
    None
}

/// Adds `p` to the values of `name`.
fn push_prop(ev: &mut IcsEvent, name: String, p: Prop)
    ensures
        final(ev)@ == add_prop(old(ev)@, name@, p@),
{
    let ghost e0 = ev@;
    let ghost pm = p@;
    let ghost nm = name@;
    proof { lemma_name_index(e0, name@); }
    let mut i = ev.props.len();
    assert(e0.take(i as int) == e0);
    while i > 0
        invariant
            i <= ev.props@.len(),
            ev@ == e0,
            e0 == old(ev)@,
            pm == p@,
            nm == name@,
            name_index(e0, name@) == name_index(e0.take(i as int), name@),
        decreases i,
    {
        assert(e0.take(i as int).drop_last() == e0.take(i - 1));
        assert(e0[i - 1] == (ev.props@[i - 1].0@, prop_views(ev.props@[i - 1].1@)));
        if eq_str(ev.props[i - 1].0.as_str(), name.as_str()) {
            assert(name_index(e0.take(i as int), name@) == Some(i - 1));
            let (n, mut ps) = ev.props.remove(i - 1);
            let ghost pv = ps@;
            ps.push(p);
            assert(prop_views(ps@) =~= prop_views(pv).push(pm));
            ev.props.insert(i - 1, (n, ps));
            assert(ev@ =~= e0.update(i - 1, (nm, e0[i - 1].1.push(pm))));
            assert(add_prop(e0, nm, pm) == e0.update(i - 1, (nm, e0[i - 1].1.push(pm))));
            return;
        }
        i = i - 1;
    }
    assert(e0.take(0) =~= Seq::<(Seq<char>, Seq<PropModel>)>::empty());
    let mut v: Vec<Prop> = Vec::new();
    v.push(p);
    assert(prop_views(v@) =~= seq![pm]);
    ev.props.push((name, v));
    assert(ev@ =~= e0.push((nm, seq![pm])));
}

/// The VEVENTs of a calendar text, each with its properties.
pub fn parse(text: &str) -> (r: Vec<IcsEvent>)
    ensures
        ics_views(r@) == spec_parse(text@),
{
    let ls = unfold_lines(lines_of(&chars_of(text)));
    let ghost lv = views(ls@);
    let begin_vevent = chars_of("BEGIN:VEVENT");
    let end_vevent = chars_of("END:VEVENT");
    let mut events: Vec<IcsEvent> = Vec::new();
    let mut cur: Option<IcsEvent> = None;
    let mut depth: i128 = 0;
    let mut i: usize = 0;
    while i < ls.len()
        invariant
            i <= ls@.len(),
            lv == views(ls@),
            lv == unfold(spec_lines(text@)),
            begin_vevent@ == "BEGIN:VEVENT"@,
            end_vevent@ == "END:VEVENT"@,
            -(i as int) <= depth <= i,
            ({
                let st = parse_lines(lv.take(i as int));
                &&& ics_views(events@) == st.events
                &&& st.cur == match cur {
                    Some(c) => Some(c@),
                    None => None::<IcsModel>,
                }
                &&& st.depth == depth
            }),
        decreases ls@.len() - i,
    {
        assert(lv.take(i + 1).drop_last() == lv.take(i as int));
        assert(lv.take(i + 1).last() == ls@[i as int]@);
        let line = &ls[i];
        let ghost evs = events@;
        let ghost st = parse_lines(lv.take(i as int));
        assert(parse_lines(lv.take(i + 1)) == parse_line(st, line@));
        if eq_chars(line, &begin_vevent) {
            let fresh = IcsEvent { props: Vec::new() };
            assert(fresh@ =~= Seq::<(Seq<char>, Seq<PropModel>)>::empty());
            cur = Some(fresh);
            depth = 0;
        } else if eq_chars(line, &end_vevent) {
            match cur {
                Some(c) => {
                    events.push(c);
                    assert(ics_views(events@) =~= ics_views(evs).push(c@));
                },
                None => {},
            }
            cur = None;
        } else if starts_with(line, "BEGIN:") {
            depth = depth + 1;
        } else if starts_with(line, "END:") {
            depth = depth - 1;
        } else {
            match find_char(line, ':') {
                Some(k) => {
                    assert(k < line.len());
                    if depth == 0 && cur.is_some() {
                        let head = slice_chars(line, 0, k);
                        let value = slice_chars(line, k + 1, line.len());
                        assert(head@ == line@.take(k as int));
                        assert(value@ == line@.skip(k + 1));
                        let parts = split_char(&head, ';');
                        proof { lemma_split_on_nonempty(head@, ';'); }
                        assert(views(parts@)[0] == parts@[0]@);
                        let name = to_uppercase(string_of(&parts[0]).as_str());
                        let tzid = match find_tzid(&parts) {
                            Some(t) => Some(string_of(&t)),
                            None => None,
                        };
                        let p = Prop { value: string_of(&value), tzid };
                        let mut c = cur.unwrap();
                        let ghost cm = c@;
                        let ghost pmodel = p@;
                        let ghost nmodel = name@;
                        assert(pmodel == (PropModel { value: line@.skip(k + 1), tzid: tzid_param(split_on(line@.take(k as int), ';').drop_first()) }));
                        assert(nmodel == spec_to_uppercase(split_on(line@.take(k as int), ';')[0]));
                        push_prop(&mut c, name, p);
                        cur = Some(c);
                        assert(parse_line(st, line@).cur == Some(add_prop(cm, nmodel, pmodel)));
                    }
                },
                None => {},
            }
        }
        i = i + 1;
    }
    assert(lv.take(ls@.len() as int) == lv);
    events
}


/// Text values with their escapes resolved: `\\n` or `\\N` is a line
/// break, a backslash before anything else stands for that character, and
/// a trailing backslash is dropped.
pub open spec fn spec_unescape(s: Seq<char>) -> Seq<char>
    decreases s.len(),
{
    if s.len() == 0 {
        seq![]
    } else if s[0] != '\\' {
        seq![s[0]] + spec_unescape(s.drop_first())
    } else if s.len() == 1 {
        seq![]
    } else {
        seq![if s[1] == 'n' || s[1] == 'N' { '\n' } else { s[1] }] + spec_unescape(s.skip(2))
    }
}

pub fn unescape(s: &str) -> (r: String)
    ensures
        r@ == spec_unescape(s@),
{
    let cs = chars_of(s);
    let mut out: Vec<char> = Vec::new();
    let mut i: usize = 0;
    assert(cs@.skip(0) == cs@);
    while i < cs.len()
        invariant
            i <= cs@.len(),
            out@ + spec_unescape(cs@.skip(i as int)) == spec_unescape(cs@),
        decreases cs@.len() - i,
    {
        let ghost rest = cs@.skip(i as int);
        let c = cs[i];
        assert(rest[0] == c);
        let ghost o = out@;
        if c != '\\' {
            assert(rest.drop_first() == cs@.skip(i + 1));
            assert(spec_unescape(rest) == seq![c] + spec_unescape(cs@.skip(i + 1)));
            out.push(c);
            assert(out@ + spec_unescape(cs@.skip(i + 1)) =~= o + spec_unescape(rest));
            i = i + 1;
        } else if i + 1 == cs.len() {
            assert(spec_unescape(rest) == Seq::<char>::empty());
            assert(cs@.skip(i + 1) =~= Seq::<char>::empty());
            i = i + 1;
        } else {
            let d = cs[i + 1];
            assert(rest[1] == d);
            assert(rest.skip(2) == cs@.skip(i + 2));
            let x = if d == 'n' || d == 'N' { '\n' } else { d };
            assert(spec_unescape(rest) == seq![x] + spec_unescape(cs@.skip(i + 2)));
            out.push(x);
            assert(out@ + spec_unescape(cs@.skip(i + 2)) =~= o + spec_unescape(rest));
            i = i + 2;
        }
    }
    assert(cs@.skip(cs@.len() as int) =~= Seq::<char>::empty());
    string_of(&out)
}


/// The first value of property `name`.
pub open spec fn ics_prop(ev: IcsModel, name: Seq<char>) -> Option<PropModel> {
    match name_index(ev, name) {
        Some(i) => if ev[i].1.len() > 0 { Some(ev[i].1[0]) } else { None },
        None => None,
    }
}

pub fn prop<'a>(ev: &'a IcsEvent, name: &str) -> (r: Option<&'a Prop>)
    ensures
        match r {
            Some(p) => ics_prop(ev@, name@) == Some(p@),
            None => ics_prop(ev@, name@) is None,
        },
{
    let ghost e0 = ev@;
    proof { lemma_name_index(e0, name@); }
    let mut i = ev.props.len();
    assert(e0.take(i as int) == e0);
    while i > 0
        invariant
            i <= ev.props@.len(),
            e0 == ev@,
            name_index(e0, name@) == name_index(e0.take(i as int), name@),
        decreases i,
    {
        assert(e0.take(i as int).drop_last() == e0.take(i - 1));
        assert(e0[i - 1] == (ev.props@[i - 1].0@, prop_views(ev.props@[i - 1].1@)));
        if eq_str(ev.props[i - 1].0.as_str(), name) {
            assert(name_index(e0.take(i as int), name@) == Some(i - 1));
            let ps = &ev.props[i - 1].1;
            if ps.len() > 0 {
                assert(prop_views(ps@)[0] == ps@[0]@);
                return Some(&ps[0]);
            } else {
                return None;
            }
        }
        i = i - 1;
    }
    assert(e0.take(0) =~= Seq::<(Seq<char>, Seq<PropModel>)>::empty());
    None
}

/// The first value of property `name`, unescaped; empty if there is none.
pub open spec fn spec_value(ev: IcsModel, name: Seq<char>) -> Seq<char> {
    match ics_prop(ev, name) {
        Some(p) => spec_unescape(p.value),
        None => seq![],
    }
}

pub fn value(ev: &IcsEvent, name: &str) -> (r: String)
    ensures
        r@ == spec_value(ev@, name@),
{
    match prop(ev, name) {
        Some(p) => unescape(p.value.as_str()),
        None => String::new(),
    }
}

/// The zone a `TZID` names, if chrono-tz knows it; else Munich's.
pub open spec fn zone_name(tzid: Option<Seq<char>>) -> Seq<char> {
    match tzid {
        Some(t) => if spec_zone_known(t) { t } else { "Europe/Berlin"@ },
        None => "Europe/Berlin"@,
    }
}

pub fn zone(tzid: Option<&str>) -> (r: &str)
    ensures
        r@ == zone_name(match tzid {
            Some(t) => Some(t@),
            None => None,
        }),
        spec_zone_known(r@),
{
    match tzid {
        Some(t) => if zone_known(t) { t } else { berlin() },
        None => berlin(),
    }
}

/// The time at which the clock of zone `z` first shows `local`, if it is a
/// time the calendar works with.
pub open spec fn from_local(local: int, z: Seq<char>) -> Option<i64> {
    if !in_range(local) {
        None
    } else {
        match spec_earliest_utc(local, z) {
            Some(t) => if valid_time(t as int) { Some(t) } else { None },
            None => None,
        }
    }
}

/// A single DATE or DATE-TIME value: a date is its midnight, a time ending
/// in `Z` is UTC, and other times are read in the `TZID` zone (Munich's
/// when there is none), the earliest reading if the clock shows it twice.
pub open spec fn spec_parse_time(v: Seq<char>, tzid: Option<Seq<char>>) -> Option<i64> {
    if utf8_len(v) == 8 {
        match spec_parse_date(v) {
            Some(n) => from_local(n as int, zone_name(tzid)),
            None => None,
        }
    } else if v.len() > 0 && v.last() == 'Z' {
        match spec_parse_date_time(v.drop_last()) {
            Some(n) => if valid_time(n as int) { Some(n) } else { None },
            None => None,
        }
    } else {
        match spec_parse_date_time(v) {
            Some(n) => from_local(n as int, zone_name(tzid)),
            None => None,
        }
    }
}

pub fn local_to_utc(n: i64, z: &str) -> (r: Option<i64>)
    requires
        spec_zone_known(z@),
    ensures
        r == from_local(n as int, z@),
{
    if n < -8_200_000_000_000 || n > 8_200_000_000_000 {
        return None;
    }
    match earliest_utc(n, z) {
        Some(t) => if -TIME_LIMIT <= t && t <= TIME_LIMIT { Some(t) } else { None },
        None => None,
    }
}

pub fn parse_time(v: &str, tzid: Option<&str>) -> (r: Option<i64>)
    ensures
        r == spec_parse_time(v@, match tzid {
            Some(t) => Some(t@),
            None => None,
        }),
{
    let cs = chars_of(v);
    let len = utf8_length_wide(&cs);
    if len == 8 {
        match parse_date(v) {
            Some(n) => local_to_utc(n, zone(tzid)),
            None => None,
        }
    } else if cs.len() > 0 && cs[cs.len() - 1] == 'Z' {
        let head = string_of(&slice_chars(&cs, 0, cs.len() - 1));
        assert(head@ == v@.drop_last());
        match parse_date_time(head.as_str()) {
            Some(n) => if -TIME_LIMIT <= n && n <= TIME_LIMIT { Some(n) } else { None },
            None => None,
        }
    } else {
        match parse_date_time(v) {
            Some(n) => local_to_utc(n, zone(tzid)),
            None => None,
        }
    }
}

pub open spec fn prop_time(p: PropModel) -> Option<i64> {
    spec_parse_time(p.value, p.tzid)
}

pub fn time(p: Option<&Prop>) -> (r: Option<i64>)
    ensures
        r == match p {
            Some(p) => prop_time(p@),
            None => None,
        },
{
    match p {
        Some(p) => {
            let tz: Option<&str> = match &p.tzid {
                Some(t) => Some(t.as_str()),
                None => None,
            };
            parse_time(p.value.as_str(), tz)
        },
        None => None,
    }
}


// Recurrence

/// Every value property `name` had, in order; none if it is absent.
pub open spec fn ics_values(ev: IcsModel, name: Seq<char>) -> Seq<PropModel> {
    match name_index(ev, name) {
        Some(i) => ev[i].1,
        None => seq![],
    }
}

fn values_of<'a>(ev: &'a IcsEvent, name: &str) -> (r: Option<&'a Vec<Prop>>)
    ensures
        match r {
            Some(ps) => name_index(ev@, name@) matches Some(i) && prop_views(ps@) == ev@[i].1,
            None => name_index(ev@, name@) is None,
        },
{
    let ghost e0 = ev@;
    let mut i = ev.props.len();
    assert(e0.take(i as int) == e0);
    while i > 0
        invariant
            i <= ev.props@.len(),
            e0 == ev@,
            name_index(e0, name@) == name_index(e0.take(i as int), name@),
        decreases i,
    {
        assert(e0.take(i as int).drop_last() == e0.take(i - 1));
        assert(e0[i - 1] == (ev.props@[i - 1].0@, prop_views(ev.props@[i - 1].1@)));
        if eq_str(ev.props[i - 1].0.as_str(), name) {
            assert(name_index(e0.take(i as int), name@) == Some(i - 1));
            return Some(&ev.props[i - 1].1);
        }
        i = i - 1;
    }
    assert(e0.take(0) =~= Seq::<(Seq<char>, Seq<PropModel>)>::empty());
    None
}

/// The value of `key` among the `KEY=value` parts of a rule; a later part
/// wins over an earlier one with the same key.
pub open spec fn part_get(parts: Seq<Seq<char>>, key: Seq<char>) -> Option<Seq<char>>
    decreases parts.len(),
{
    if parts.len() == 0 {
        None
    } else {
        let p = parts.last();
        match first_index_of(p, '=') {
            Some(i) => if p.take(i) == key {
                Some(p.skip(i + 1))
            } else {
                part_get(parts.drop_last(), key)
            },
            None => part_get(parts.drop_last(), key),
        }
    }
}

fn get_part(parts: &Vec<Vec<char>>, key: &str) -> (r: Option<Vec<char>>)
    ensures
        match r {
            Some(v) => part_get(views(parts@), key@) == Some(v@),
            None => part_get(views(parts@), key@) is None,
        },
{
    let ghost all = views(parts@);
    let k = chars_of(key);
    let mut i = parts.len();
    assert(all.take(i as int) == all);
    while i > 0
        invariant
            i <= parts@.len(),
            all == views(parts@),
            k@ == key@,
            part_get(all, key@) == part_get(all.take(i as int), key@),
        decreases i,
    {
        let ghost pre = all.take(i as int);
        assert(pre.drop_last() == all.take(i - 1));
        let p = &parts[i - 1];
        let plen = p.len();
        assert(pre.last() == p@);
        match find_char(p, '=') {
            Some(e) => {
                assert(e < p@.len() && first_index_of(p@, '=') == Some(e as int));
                let head = slice_chars(p, 0, e);
                assert(head@ == p@.take(e as int));
                if eq_chars(&head, &k) {
                    let v = slice_chars(p, e + 1, plen);
                    assert(v@ == p@.skip(e + 1));
                    assert(part_get(pre, key@) == Some(v@));
                    return Some(v);
                }
            },
            None => {},
        }
        i = i - 1;
    }
    assert(all.take(0) =~= Seq::<Seq<char>>::empty());
    None
}

/// `code` without the ordinal a `BYDAY` entry may carry (`-1SU`).
pub open spec fn trim_ordinal(code: Seq<char>) -> Seq<char>
    decreases code.len(),
{
    if code.len() > 0 && (code[0] == '-' || code[0] == '+' || is_ascii_digit(code[0])) {
        trim_ordinal(code.drop_first())
    } else {
        code
    }
}

/// The weekday a `BYDAY` entry names, counted from Monday.
pub open spec fn weekday_code(code: Seq<char>) -> Option<u32> {
    let c = trim_ordinal(code);
    if c == "MO"@ {
        Some(0)
    } else if c == "TU"@ {
        Some(1)
    } else if c == "WE"@ {
        Some(2)
    } else if c == "TH"@ {
        Some(3)
    } else if c == "FR"@ {
        Some(4)
    } else if c == "SA"@ {
        Some(5)
    } else if c == "SU"@ {
        Some(6)
    } else {
        None
    }
}

fn weekday(code: &Vec<char>) -> (r: Option<u32>)
    ensures
        r == weekday_code(code@),
{
    let mut i: usize = 0;
    assert(code@.skip(0) == code@);
    while i < code.len() && (code[i] == '-' || code[i] == '+' || ('0' <= code[i] && code[i] <= '9'))
        invariant
            i <= code@.len(),
            trim_ordinal(code@) == trim_ordinal(code@.skip(i as int)),
        decreases code@.len() - i,
    {
        assert(code@.skip(i as int).drop_first() == code@.skip(i + 1));
        i = i + 1;
    }
    let rest = string_of(&slice_chars(code, i, code.len()));
    assert(rest@ == code@.skip(i as int));
    assert(trim_ordinal(rest@) == rest@);
    if eq_str(rest.as_str(), "MO") {
        Some(0)
    } else if eq_str(rest.as_str(), "TU") {
        Some(1)
    } else if eq_str(rest.as_str(), "WE") {
        Some(2)
    } else if eq_str(rest.as_str(), "TH") {
        Some(3)
    } else if eq_str(rest.as_str(), "FR") {
        Some(4)
    } else if eq_str(rest.as_str(), "SA") {
        Some(5)
    } else if eq_str(rest.as_str(), "SU") {
        Some(6)
    } else {
        None
    }
}

/// The weekdays the entries name, in order, skipping those that name none.
pub open spec fn day_codes(codes: Seq<Seq<char>>) -> Seq<u32>
    decreases codes.len(),
{
    if codes.len() == 0 {
        seq![]
    } else {
        day_codes(codes.drop_last()) + match weekday_code(codes.last()) {
            Some(d) => seq![d],
            None => seq![],
        }
    }
}

/// `x` put into the ascending `s` after every element no larger than it.
pub open spec fn insert_day(s: Seq<u32>, x: u32) -> Seq<u32>
    decreases s.len(),
{
    if s.len() == 0 {
        seq![x]
    } else if s.last() <= x {
        s.push(x)
    } else {
        insert_day(s.drop_last(), x).push(s.last())
    }
}

/// `s` in ascending order.
pub open spec fn sort_days(s: Seq<u32>) -> Seq<u32>
    decreases s.len(),
{
    if s.len() == 0 {
        seq![]
    } else {
        insert_day(sort_days(s.drop_last()), s.last())
    }
}

fn insert_day_into(v: &mut Vec<u32>, x: u32)
    ensures
        final(v)@ == insert_day(old(v)@, x),
{
    let ghost target = insert_day(v@, x);
    let mut tail: Vec<u32> = Vec::new();
    while v.len() > 0 && v[v.len() - 1] > x
        invariant
            target == insert_day(v@, x) + tail@,
        decreases v@.len(),
    {
        let ghost before = v@;
        let y = v.pop().unwrap();
        assert(before.drop_last() == v@);
        tail.insert(0, y);
        assert(insert_day(before, x) == insert_day(v@, x).push(y));
        assert(target =~= insert_day(v@, x) + tail@);
    }
    assert(insert_day(v@, x) == v@.push(x));
    v.push(x);
    let mut i: usize = 0;
    assert(tail@.skip(0) == tail@);
    while i < tail.len()
        invariant
            i <= tail@.len(),
            target == v@ + tail@.skip(i as int),
        decreases tail@.len() - i,
    {
        let ghost before = v@;
        v.push(tail[i]);
        assert(v@ + tail@.skip(i + 1) =~= before + tail@.skip(i as int));
        i = i + 1;
    }
    assert(tail@.skip(i as int) =~= Seq::<u32>::empty());
    assert(v@ =~= target);
}

/// The weekdays a rule's `BYDAY` lists, in ascending order; the start's
/// own weekday when it lists none.
pub open spec fn rule_days(parts: Seq<Seq<char>>, start_weekday: u32) -> Seq<u32> {
    let listed = match part_get(parts, "BYDAY"@) {
        Some(d) => day_codes(split_on(d, ',')),
        None => seq![],
    };
    sort_days(if listed.len() == 0 { seq![start_weekday] } else { listed })
}

fn days_of(parts: &Vec<Vec<char>>, start_weekday: u32) -> (r: Vec<u32>)
    ensures
        r@ == rule_days(views(parts@), start_weekday),
        r@.len() > 0,
{
    let mut listed: Vec<u32> = Vec::new();
    match get_part(parts, "BYDAY") {
        Some(d) => {
            let codes = split_char(&d, ',');
            let ghost cs = views(codes@);
            let mut i: usize = 0;
            while i < codes.len()
                invariant
                    i <= codes@.len(),
                    cs == views(codes@),
                    listed@ == day_codes(cs.take(i as int)),
                decreases codes@.len() - i,
            {
                assert(cs.take(i + 1).drop_last() == cs.take(i as int));
                assert(cs[i as int] == codes@[i as int]@);
                match weekday(&codes[i]) {
                    Some(w) => listed.push(w),
                    None => {},
                }
                i = i + 1;
            }
            assert(cs.take(codes@.len() as int) == cs);
        },
        None => {},
    }
    let ghost source = listed@;
    if listed.len() == 0 {
        listed.push(start_weekday);
    }
    let ghost chosen = listed@;
    let mut sorted: Vec<u32> = Vec::new();
    let mut i: usize = 0;
    while i < listed.len()
        invariant
            i <= listed@.len(),
            listed@ == chosen,
            sorted@ == sort_days(chosen.take(i as int)),
        decreases listed@.len() - i,
    {
        assert(chosen.take(i + 1).drop_last() == chosen.take(i as int));
        insert_day_into(&mut sorted, listed[i]);
        i = i + 1;
    }
    assert(chosen.take(chosen.len() as int) == chosen);
    proof { lemma_sort_days_len(chosen); }
    sorted
}

pub proof fn lemma_insert_day_len(s: Seq<u32>, x: u32)
    ensures
        insert_day(s, x).len() == s.len() + 1,
    decreases s.len(),
{
    if s.len() > 0 && s.last() > x {
        lemma_insert_day_len(s.drop_last(), x);
    }
}

pub proof fn lemma_sort_days_len(s: Seq<u32>)
    ensures
        sort_days(s).len() == s.len(),
    decreases s.len(),
{
    if s.len() > 0 {
        lemma_sort_days_len(s.drop_last());
        lemma_insert_day_len(sort_days(s.drop_last()), s.last());
    }
}

/// The times a list of comma-separated values names, skipping those that
/// do not read as one.
pub open spec fn listed_times(vs: Seq<Seq<char>>, tzid: Option<Seq<char>>) -> Seq<i64>
    decreases vs.len(),
{
    if vs.len() == 0 {
        seq![]
    } else {
        listed_times(vs.drop_last(), tzid) + match spec_parse_time(vs.last(), tzid) {
            Some(t) => seq![t],
            None => seq![],
        }
    }
}

/// Every time the `EXDATE` values name.
pub open spec fn excluded_times(ps: Seq<PropModel>) -> Seq<i64>
    decreases ps.len(),
{
    if ps.len() == 0 {
        seq![]
    } else {
        excluded_times(ps.drop_last()) + listed_times(split_on(ps.last().value, ','), ps.last().tzid)
    }
}

fn exdates(ev: &IcsEvent) -> (r: Vec<i64>)
    ensures
        r@ == excluded_times(ics_values(ev@, "EXDATE"@)),
{
    let mut out: Vec<i64> = Vec::new();
    let ps = match values_of(ev, "EXDATE") {
        Some(ps) => ps,
        None => {
            assert(ics_values(ev@, "EXDATE"@) == Seq::<PropModel>::empty());
            return out;
        },
    };
    let ghost pv = prop_views(ps@);
    let mut i: usize = 0;
    while i < ps.len()
        invariant
            i <= ps@.len(),
            pv == prop_views(ps@),
            out@ == excluded_times(pv.take(i as int)),
        decreases ps@.len() - i,
    {
        assert(pv.take(i + 1).drop_last() == pv.take(i as int));
        let p = &ps[i];
        assert(pv[i as int] == p@);
        let tz: Option<&str> = match &p.tzid {
            Some(t) => Some(t.as_str()),
            None => None,
        };
        let vs = split_char(&chars_of(p.value.as_str()), ',');
        let ghost vv = views(vs@);
        let ghost before = out@;
        let mut k: usize = 0;
        while k < vs.len()
            invariant
                k <= vs@.len(),
                vv == views(vs@),
                out@ == before + listed_times(vv.take(k as int), p@.tzid),
                (match tz { Some(t) => Some(t@), None => None::<Seq<char>> }) == p@.tzid,
            decreases vs@.len() - k,
        {
            assert(vv.take(k + 1).drop_last() == vv.take(k as int));
            assert(vv[k as int] == vs@[k as int]@);
            let ghost mid = out@;
            match parse_time(string_of(&vs[k]).as_str(), tz) {
                Some(t) => {
                    out.push(t);
                },
                None => {},
            }
            assert(out@ =~= before + listed_times(vv.take(k + 1), p@.tzid));
            k = k + 1;
        }
        assert(vv.take(vs@.len() as int) == vv);
        i = i + 1;
    }
    assert(pv.take(ps@.len() as int) == pv);
    out
}

/// A time on the clock it is read on: the zone's wall clock, or UTC.
pub open spec fn wall_clock(zone: Option<Seq<char>>, t: i64) -> int {
    match zone {
        Some(z) => spec_local_of(t as int, z),
        None => t as int,
    }
}

/// The clock an event's start is read on: none when it is written in UTC.
pub open spec fn start_zone(ev: IcsModel) -> Option<Seq<char>> {
    match ics_prop(ev, "DTSTART"@) {
        Some(ds) => if ds.value.len() > 0 && ds.value.last() == 'Z' { None } else { Some(zone_name(ds.tzid)) },
        None => None,
    }
}

proof fn lemma_same_time_of_day(m: int, x: int, tod: int)
    requires
        m % 86400 == 0,
        0 <= tod < 86400,
    ensures
        (m + x * 86400 + tod) % 86400 == tod,
{
    let q = m / 86400;
    assert(m == q * 86400);
    assert(m + x * 86400 + tod == (q + x) * 86400 + tod) by (nonlinear_arith)
        requires m == q * 86400;
    vstd::arithmetic::div_mod::lemma_fundamental_div_mod_converse((q + x) * 86400 + tod, 86400, q + x, tod);
}

/// A weekly rule as its expansion steps through it. Candidate times are
/// local times: the Monday of the start's week (`monday`, at midnight) plus
/// whole days plus the start's time of day (`tod`).
pub struct Weekly {
    pub first: i64,
    pub zone: Option<Seq<char>>,
    pub interval: int,
    pub count: Option<nat>,
    pub until: Option<i64>,
    pub horizon: i64,
    pub days: Seq<u32>,
    pub excluded: Seq<i64>,
    pub monday: int,
    pub tod: int,
}

/// The time a candidate local time names: in the rule's zone, or as UTC
/// when the start was written in UTC.
pub open spec fn weekly_utc(w: Weekly, n: int) -> Option<i64> {
    match w.zone {
        Some(z) => spec_earliest_utc(n, z),
        None => Some(n as i64),
    }
}

/// Past `UNTIL` or past the horizon.
pub open spec fn past_end(w: Weekly, t: i64) -> bool {
    (w.until matches Some(u) && t > u) || t > w.horizon
}

/// `COUNT` occurrences have been produced.
pub open spec fn count_reached(w: Weekly, produced: nat) -> bool {
    w.count matches Some(c) && produced >= c
}

/// The expansion from the `j`-th listed weekday of the week `wd` days after
/// the start's, having produced `produced` occurrences and kept `out`.
///
/// A candidate the zone's clock skips, or one not after the start (which
/// `weekly_start` has already produced), is passed over. The expansion ends
/// at the first candidate past `UNTIL` or the horizon, or once `COUNT`
/// occurrences are produced. A produced occurrence is kept unless `EXDATE` lists it, and
/// the expansion ends at a thousand kept ones, or where local times leave
/// the range the calendar works with.
pub open spec fn weekly_run(w: Weekly, wd: int, j: int, produced: nat, out: Seq<i64>) -> Seq<i64>
    decreases 8_200_000_000_000 - w.monday - wd * 86400, w.days.len() - j,
{
    if j < 0 || w.interval < 1 {
        out
    } else if j >= w.days.len() {
        if w.monday + (wd + 7 * w.interval) * 86400 > 8_200_000_000_000 {
            out
        } else {
            weekly_run(w, wd + 7 * w.interval, 0, produced, out)
        }
    } else {
        let n = w.monday + (wd + w.days[j]) * 86400 + w.tod;
        if !in_range(n) {
            out
        } else {
            match weekly_utc(w, n) {
                None => weekly_run(w, wd, j + 1, produced, out),
                Some(t) => if t <= w.first {
                    weekly_run(w, wd, j + 1, produced, out)
                } else if past_end(w, t) || count_reached(w, produced) {
                    out
                } else {
                    let kept = if w.excluded.contains(t) { out } else { out.push(t) };
                    if kept.len() >= 1000 {
                        kept
                    } else {
                        weekly_run(w, wd, j + 1, produced + 1, kept)
                    }
                },
            }
        }
    }
}

/// The start is always the first occurrence, whatever `BYDAY`, `UNTIL` and
/// `COUNT` say; it is kept unless `EXDATE` lists it.
pub open spec fn weekly_start(w: Weekly) -> Seq<i64> {
    if w.excluded.contains(w.first) { seq![] } else { seq![w.first] }
}

/// The weekday of a day counted from 1970-01-01, a Thursday; 0 is Monday.
pub open spec fn weekday_of(day: int) -> int {
    (day + 3) % 7
}

/// The weekly rule an event with start `ds` (at `first`) and rule parts
/// `parts` describes.
pub open spec fn weekly_rule(
    ds: PropModel,
    first: i64,
    parts: Seq<Seq<char>>,
    excluded: Seq<i64>,
    horizon: i64,
) -> Weekly {
    let zone = if ds.value.len() > 0 && ds.value.last() == 'Z' {
        None
    } else {
        Some(zone_name(ds.tzid))
    };
    let start = match zone {
        Some(z) => spec_local_of(first as int, z),
        None => first as int,
    };
    let day = day_of(start);
    let wk = weekday_of(day);
    Weekly {
        first,
        zone,
        interval: match part_get(parts, "INTERVAL"@) {
            Some(v) => match parse_signed(v, i64::MAX as nat) {
                Some(i) => if i < 1 { 1 } else { i },
                None => 1,
            },
            None => 1,
        },
        count: match part_get(parts, "COUNT"@) {
            Some(v) => parse_unsigned(v, usize::MAX as nat),
            None => None,
        },
        until: match part_get(parts, "UNTIL"@) {
            Some(u) => spec_parse_time(u, None),
            None => None,
        },
        horizon,
        days: rule_days(parts, wk as u32),
        excluded,
        monday: (day - wk) * 86400,
        tod: start - day * 86400,
    }
}

/// Every start time an event has, up to `horizon`: just `DTSTART` without
/// a rule or with one that is not weekly, and the weekly expansion
/// otherwise.
pub open spec fn spec_occurrences(ev: IcsModel, horizon: i64) -> Seq<i64> {
    match ics_prop(ev, "DTSTART"@) {
        None => seq![],
        Some(ds) => match prop_time(ds) {
            None => seq![],
            Some(first) => match ics_prop(ev, "RRULE"@) {
                None => seq![first],
                Some(rule) => {
                    let parts = split_on(rule.value, ';');
                    if part_get(parts, "FREQ"@) != Some("WEEKLY"@) {
                        seq![first]
                    } else {
                        let w = weekly_rule(ds, first, parts, excluded_times(ics_values(ev, "EXDATE"@)), horizon);
                        weekly_run(w, 0, 0, 1, weekly_start(w))
                    }
                },
            },
        },
    }
}

pub proof fn lemma_parse_time_valid(v: Seq<char>, tzid: Option<Seq<char>>)
    ensures
        spec_parse_time(v, tzid) matches Some(t) ==> valid_time(t as int),
{
}

fn contains_time(v: &Vec<i64>, t: i64) -> (r: bool)
    ensures
        r == v@.contains(t),
{
    let mut i: usize = 0;
    while i < v.len()
        invariant
            i <= v@.len(),
            forall|k: int| 0 <= k < i ==> v@[k] != t,
        decreases v@.len() - i,
    {
        if v[i] == t {
            assert(v@[i as int] == t);
            return true;
        }
        i = i + 1;
    }
    false
}

/// A weekly rule as the expansion runs it.
pub struct WeeklyRule<'a> {
    pub first: i64,
    pub zone: Option<&'a str>,
    pub interval: i64,
    pub count: Option<usize>,
    pub until: Option<i64>,
    pub horizon: i64,
    pub days: Vec<u32>,
    pub excluded: Vec<i64>,
    pub monday: i64,
    pub tod: i64,
}

impl<'a> View for WeeklyRule<'a> {
    type V = Weekly;

    open spec fn view(&self) -> Weekly {
        Weekly {
            first: self.first,
            zone: match self.zone {
                Some(z) => Some(z@),
                None => None,
            },
            interval: self.interval as int,
            count: match self.count {
                Some(c) => Some(c as nat),
                None => None,
            },
            until: self.until,
            horizon: self.horizon,
            days: self.days@,
            excluded: self.excluded@,
            monday: self.monday as int,
            tod: self.tod as int,
        }
    }
}

/// Reads the weekly rule of an event whose start `dtstart` is at `first`.
fn read_rule<'a>(
    ev: &IcsEvent,
    dtstart: &'a Prop,
    first: i64,
    parts: &Vec<Vec<char>>,
    horizon: i64,
) -> (r: WeeklyRule<'a>)
    requires
        valid_time(first as int),
    ensures
        r@ == weekly_rule(dtstart@, first, views(parts@), excluded_times(ics_values(ev@, "EXDATE"@)), horizon),
        r.interval >= 1,
        r.days@.len() > 0,
        r.zone matches Some(z) ==> spec_zone_known(z@),
        r.monday <= 8_200_000_000_000,
        r.monday % 86400 == 0,
        0 <= r.tod < 86400,
        wall_clock(r@.zone, first) % 86400 == r.tod,
{
    let tzid: Option<&str> = match &dtstart.tzid {
        Some(t) => Some(t.as_str()),
        None => None,
    };
    let vc = chars_of(dtstart.value.as_str());
    let tz: Option<&str> = if vc.len() > 0 && vc[vc.len() - 1] == 'Z' {
        None
    } else {
        Some(zone(tzid))
    };
    let start: i64 = match tz {
        Some(z) => local_of(first, z),
        None => first,
    };
    let day = day_number(start);
    let wk: i64 = (day + 3 + 140_000_000) % 7;
    assert(wk == weekday_of(day as int));
    let interval: i64 = match get_part(parts, "INTERVAL") {
        Some(v) => match parse_int(&v, i64::MAX as u64) {
            Some(i) => if i < 1 { 1 } else { i },
            None => 1,
        },
        None => 1,
    };
    let count: Option<usize> = match get_part(parts, "COUNT") {
        Some(v) => match parse_uint(&v, usize::MAX as u64) {
            Some(c) => Some(c as usize),
            None => None,
        },
        None => None,
    };
    let until: Option<i64> = match get_part(parts, "UNTIL") {
        Some(u) => parse_time(string_of(&u).as_str(), None),
        None => None,
    };
    let days = days_of(parts, wk as u32);
    let excluded = exdates(ev);
    WeeklyRule {
        first,
        zone: tz,
        interval,
        count,
        until,
        horizon,
        days,
        excluded,
        monday: (day - wk) * 86400,
        tod: start - day * 86400,
    }
}

/// Runs the expansion of a weekly rule from its start.
fn expand(w: &WeeklyRule) -> (r: Vec<i64>)
    requires
        w.interval >= 1,
        w.days@.len() > 0,
        w.zone matches Some(z) ==> spec_zone_known(z@),
        w.monday <= 8_200_000_000_000,
        w.monday % 86400 == 0,
        0 <= w.tod < 86400,
        wall_clock(w@.zone, w.first) % 86400 == w.tod,
    ensures
        r@ == weekly_run(w@, 0, 0, 1, weekly_start(w@)),
        forall|k: int| 0 <= k < r@.len() ==> #[trigger] wall_clock(w@.zone, r@[k]) % 86400 == w.tod,
{
    let ghost target = weekly_run(w@, 0, 0, 1, weekly_start(w@));
    let mut out: Vec<i64> = Vec::new();
    if !contains_time(&w.excluded, w.first) {
        out.push(w.first);
    }
    assert(out@ == weekly_start(w@));
    let mut wd: i64 = 0;
    let mut j: usize = 0;
    let mut produced: u64 = 1;
    let ghost mut gp: nat = 1;
    loop
        invariant
            w.interval >= 1,
            w.days@.len() > 0,
            w.zone matches Some(z) ==> spec_zone_known(z@),
            0 <= wd,
            w.monday + wd * 86400 <= 8_200_000_000_000,
            j <= w.days@.len(),
            produced as nat == (if gp < u64::MAX { gp } else { u64::MAX as nat }),
            weekly_run(w@, wd as int, j as int, gp, out@) == target,
            w.monday % 86400 == 0,
            0 <= w.tod < 86400,
            forall|k: int| 0 <= k < out@.len() ==> #[trigger] wall_clock(w@.zone, out@[k]) % 86400 == w.tod,
            target == weekly_run(w@, 0, 0, 1, weekly_start(w@)),
        decreases 8_200_000_000_000 - w.monday - wd * 86400, w.days@.len() - j,
    {
        if j >= w.days.len() {
            let next: i128 = w.monday as i128 + (wd as i128 + 7 * w.interval as i128) * 86400;
            if next > 8_200_000_000_000 {
                return out;
            }
            wd = (wd as i128 + 7 * w.interval as i128) as i64;
            j = 0;
        } else {
            let n128: i128 = w.monday as i128 + (wd as i128 + w.days[j] as i128) * 86400 + w.tod as i128;
            if n128 < -8_200_000_000_000 || n128 > 8_200_000_000_000 {
                return out;
            }
            let n = n128 as i64;
            let found = match w.zone {
                Some(z) => earliest_utc(n, z),
                None => Some(n),
            };
            match found {
                None => {
                    j = j + 1;
                },
                Some(t) => {
                    if t <= w.first {
                        j = j + 1;
                    } else {
                        let past = (match w.until {
                            Some(u) => t > u,
                            None => false,
                        }) || t > w.horizon;
                        let reached = match w.count {
                            Some(c) => produced >= c as u64,
                            None => false,
                        };
                        if past || reached {
                            return out;
                        }
                        if !contains_time(&w.excluded, t) {
                            proof {
                                assert(wall_clock(w@.zone, t) == n as int);
                                lemma_same_time_of_day(w.monday as int, wd + w.days@[j as int], w.tod as int);
                            }
                            let ghost o = out@;
                            out.push(t);
                            assert forall|k: int| 0 <= k < out@.len() implies #[trigger] wall_clock(w@.zone, out@[k]) % 86400 == w.tod by {
                                if k < o.len() {
                                    assert(out@[k] == o[k]);
                                }
                            }
                        }
                        proof { gp = gp + 1; }
                        if produced < u64::MAX {
                            produced = produced + 1;
                        }
                        if out.len() >= 1000 {
                            return out;
                        }
                        j = j + 1;
                    }
                },
            }
        }
    }
}

/// Every start time a recurring event has, up to `horizon`.
///
/// Only weekly rules are expanded; any other rule yields just the first
/// occurrence. Occurrences listed in `EXDATE` are dropped. Times step in
/// local time, so 19:00 stays 19:00 across a change of the clocks.
pub fn occurrences(ev: &IcsEvent, horizon: i64) -> (r: Vec<i64>)
    ensures
        r@ == spec_occurrences(ev@, horizon),
        forall|k: int| 0 <= k < r@.len()
            ==> #[trigger] wall_clock(start_zone(ev@), r@[k]) % 86400 == wall_clock(start_zone(ev@), r@[0]) % 86400,
{
    let dtstart = match prop(ev, "DTSTART") {
        Some(p) => p,
        None => return Vec::new(),
    };
    let first = match time(Some(dtstart)) {
        Some(t) => t,
        None => return Vec::new(),
    };
    proof { lemma_parse_time_valid(dtstart@.value, dtstart@.tzid); }
    let rule = match prop(ev, "RRULE") {
        Some(p) => p,
        None => return vec![first],
    };
    let parts = split_char(&chars_of(rule.value.as_str()), ';');
    let weekly = match get_part(&parts, "FREQ") {
        Some(f) => eq_str(string_of(&f).as_str(), "WEEKLY"),
        None => false,
    };
    if !weekly {
        return vec![first];
    }
    let w = read_rule(ev, dtstart, first, &parts, horizon);
    let r = expand(&w);
    assert(w@.zone == start_zone(ev@));
    r
}

// Writing

/// How a character is written in a text value.
pub open spec fn escape_char(c: char) -> Seq<char> {
    if c == '\\' {
        seq!['\\', '\\']
    } else if c == ';' {
        seq!['\\', ';']
    } else if c == ',' {
        seq!['\\', ',']
    } else if c == '\n' {
        seq!['\\', 'n']
    } else {
        seq![c]
    }
}

/// A text value with backslash, semicolon, comma and line break escaped.
pub open spec fn spec_escape(s: Seq<char>) -> Seq<char>
    decreases s.len(),
{
    if s.len() == 0 {
        seq![]
    } else {
        escape_char(s[0]) + spec_escape(s.drop_first())
    }
}

fn escape_chars(s: &Vec<char>) -> (r: Vec<char>)
    ensures
        r@ == spec_escape(s@),
{
    let mut out: Vec<char> = Vec::new();
    let mut i: usize = 0;
    assert(s@.skip(0) == s@);
    while i < s.len()
        invariant
            i <= s@.len(),
            out@ + spec_escape(s@.skip(i as int)) == spec_escape(s@),
        decreases s@.len() - i,
    {
        let c = s[i];
        let ghost o = out@;
        assert(s@.skip(i as int).drop_first() == s@.skip(i + 1));
        assert(s@.skip(i as int)[0] == c);
        if c == '\\' || c == ';' || c == ',' {
            out.push('\\');
            out.push(c);
        } else if c == '\n' {
            out.push('\\');
            out.push('n');
        } else {
            out.push(c);
        }
        assert(out@ =~= o + escape_char(c));
        assert(out@ + spec_escape(s@.skip(i + 1)) =~= o + spec_escape(s@.skip(i as int)));
        i = i + 1;
    }
    assert(s@.skip(i as int) =~= Seq::<char>::empty());
    out
}

pub fn escape(s: &str) -> (r: String)
    ensures
        r@ == spec_escape(s@),
{
    string_of(&escape_chars(&chars_of(s)))
}

/// A content line folded from octet `len` of its physical line on: a line
/// break and a space go in before any character that would take the line
/// past 75 octets.
pub open spec fn fold_from(s: Seq<char>, len: nat) -> Seq<char>
    decreases s.len(),
{
    if s.len() == 0 {
        seq![]
    } else {
        let w = char_utf8_len(s[0]);
        if len + w > 75 {
            seq!['\r', '\n', ' ', s[0]] + fold_from(s.drop_first(), 1 + w)
        } else {
            seq![s[0]] + fold_from(s.drop_first(), len + w)
        }
    }
}

pub open spec fn folded(s: Seq<char>) -> Seq<char> {
    fold_from(s, 0)
}

fn fold_chars(line: &Vec<char>) -> (r: Vec<char>)
    ensures
        r@ == folded(line@),
{
    let mut out: Vec<char> = Vec::new();
    let mut len: usize = 0;
    let mut i: usize = 0;
    assert(line@.skip(0) == line@);
    while i < line.len()
        invariant
            i <= line@.len(),
            len <= 75,
            out@ + fold_from(line@.skip(i as int), len as nat) == folded(line@),
        decreases line@.len() - i,
    {
        let c = line[i];
        let w = char_len_utf8(c);
        let ghost o = out@;
        let ghost len0 = len as nat;
        assert(line@.skip(i as int).drop_first() == line@.skip(i + 1));
        assert(line@.skip(i as int)[0] == c);
        if len + w > 75 {
            out.push('\r');
            out.push('\n');
            out.push(' ');
            out.push(c);
            len = 1 + w;
            assert(out@ =~= o + seq!['\r', '\n', ' ', c]);
        } else {
            out.push(c);
            len = len + w;
            assert(out@ =~= o + seq![c]);
        }
        assert(out@ + fold_from(line@.skip(i + 1), len as nat) =~= o + fold_from(line@.skip(i as int), len0));
        i = i + 1;
    }
    assert(line@.skip(i as int) =~= Seq::<char>::empty());
    out
}

/// Lines may be at most 75 octets; continuation lines start with a space.
pub fn fold(line: &str) -> (r: String)
    ensures
        r@ == folded(line@),
{
    string_of(&fold_chars(&chars_of(line)))
}

/// How a time is written in UTC (`%Y%m%dT%H%M%SZ`).
pub open spec fn spec_utc(t: int) -> Seq<char> {
    spec_format_local(t, "%Y%m%dT%H%M%SZ"@)
}

pub fn utc(t: i64) -> (r: String)
    requires
        in_range(t as int),
    ensures
        r@ == spec_utc(t as int),
{
    format_local(t, "%Y%m%dT%H%M%SZ")
}

/// `label: url` for one link.
pub open spec fn link_line(l: (Seq<char>, Seq<char>)) -> Seq<char> {
    l.0 + ": "@ + l.1
}

pub open spec fn link_lines(ls: Seq<(Seq<char>, Seq<char>)>) -> Seq<Seq<char>>
    decreases ls.len(),
{
    if ls.len() == 0 {
        seq![]
    } else {
        link_lines(ls.drop_last()).push(link_line(ls.last()))
    }
}

/// The text calendar apps show under an event: the excerpt, then every
/// announcement and the permalink, one per line.
pub open spec fn spec_description(e: EventModel, permalink: Seq<char>) -> Seq<char> {
    let links = join(link_lines(e.links).push("rationality-munich.com: "@ + permalink), "\n"@);
    if e.excerpt.len() == 0 {
        links
    } else {
        e.excerpt + "\n\n"@ + links
    }
}

/// The text calendar apps show under the event: the excerpt, then every
/// announcement and the permalink.
pub fn description(e: &Event, permalink: &str) -> (r: String)
    ensures
        r@ == spec_description(e@, permalink@),
{
    let mut links: Vec<Vec<char>> = Vec::new();
    let ghost ls = e@.links;
    let mut i: usize = 0;
    while i < e.links.len()
        invariant
            i <= e.links@.len(),
            ls == e@.links,
            views(links@) == link_lines(ls.take(i as int)),
        decreases e.links@.len() - i,
    {
        assert(ls.take(i + 1).drop_last() == ls.take(i as int));
        assert(ls[i as int] == (e.links@[i as int].0@, e.links@[i as int].1@));
        let mut line = chars_of(e.links[i].0.as_str());
        push_str(&mut line, ": ");
        push_str(&mut line, e.links[i].1.as_str());
        let ghost before = links@;
        links.push(line);
        assert(views(links@) =~= views(before).push(link_line(ls[i as int])));
        i = i + 1;
    }
    assert(ls.take(e.links@.len() as int) == ls);
    let mut own = chars_of("rationality-munich.com: ");
    push_str(&mut own, permalink);
    let ghost before = links@;
    links.push(own);
    assert(views(links@) =~= views(before).push("rationality-munich.com: "@ + permalink@));
    let joined = join_from(&links, 0, "\n");
    assert(views(links@).skip(0) == views(links@));
    if e.excerpt.as_str().is_empty() {
        string_of(&joined)
    } else {
        let mut out = chars_of(e.excerpt.as_str());
        push_str(&mut out, "\n\n");
        push_chars(&mut out, &joined);
        string_of(&out)
    }
}

/// The lines that open a calendar named `name`.
pub open spec fn header_lines(name: Seq<char>) -> Seq<Seq<char>> {
    seq![
        "BEGIN:VCALENDAR"@,
        "VERSION:2.0"@,
        "PRODID:-//rationality-munich.com//calendar//EN"@,
        "CALSCALE:GREGORIAN"@,
        "METHOD:PUBLISH"@,
        "X-WR-CALNAME:"@ + spec_escape(name),
        "X-WR-TIMEZONE:Europe/Berlin"@,
        "X-WR-CALDESC:Events from the rationality\\, EA and AI safety groups in Munich"@,
        "REFRESH-INTERVAL;VALUE=DURATION:PT1H"@,
        "X-PUBLISHED-TTL:PT1H"@,
    ]
}

/// The lines of one event; the id is what a subscribed app matches on to
/// update it.
pub open spec fn event_lines(e: EventModel, now: i64, base: Seq<char>) -> Seq<Seq<char>> {
    let permalink = base + "#"@ + e.id;
    seq![
        "BEGIN:VEVENT"@,
        "UID:"@ + e.id + "@rationality-munich.com"@,
        "DTSTAMP:"@ + spec_utc(now as int),
        "DTSTART:"@ + spec_utc(e.start as int),
        "DTEND:"@ + spec_utc(e.end_or_default()),
        "SUMMARY:"@ + spec_escape(e.title),
        "DESCRIPTION:"@ + spec_escape(spec_description(e, permalink)),
        "URL:"@ + permalink,
    ] + (if e.place().len() > 0 {
        seq!["LOCATION:"@ + spec_escape(e.place())]
    } else {
        seq![]
    }) + seq!["END:VEVENT"@]
}

pub open spec fn events_lines(es: Seq<EventModel>, now: i64, base: Seq<char>) -> Seq<Seq<char>>
    decreases es.len(),
{
    if es.len() == 0 {
        seq![]
    } else {
        events_lines(es.drop_last(), now, base) + event_lines(es.last(), now, base)
    }
}

/// Every content line of a calendar, unfolded.
pub open spec fn calendar_lines(
    name: Seq<char>,
    es: Seq<EventModel>,
    now: i64,
    base: Seq<char>,
) -> Seq<Seq<char>> {
    header_lines(name) + events_lines(es, now, base) + seq!["END:VCALENDAR"@]
}

pub open spec fn folded_lines(ls: Seq<Seq<char>>) -> Seq<Seq<char>>
    decreases ls.len(),
{
    if ls.len() == 0 {
        seq![]
    } else {
        folded_lines(ls.drop_last()).push(folded(ls.last()))
    }
}

/// A calendar file: the lines folded, each ended by CRLF.
pub open spec fn spec_calendar(name: Seq<char>, es: Seq<EventModel>, now: i64, base: Seq<char>) -> Seq<char> {
    join(folded_lines(calendar_lines(name, es, now, base)), "\r\n"@) + "\r\n"@
}

pub open spec fn ref_models(v: Seq<&Event>) -> Seq<EventModel> {
    v.map_values(|e: &Event| e@)
}

fn cat(a: &str, b: &Vec<char>) -> (r: Vec<char>)
    ensures
        r@ == a@ + b@,
{
    let mut out = chars_of(a);
    push_chars(&mut out, b);
    out
}

fn push_event_lines(lines: &mut Vec<Vec<char>>, e: &Event, now: i64, base: &str)
    requires
        in_range(now as int),
        e@.wf(),
    ensures
        views(final(lines)@) == views(old(lines)@) + event_lines(e@, now, base@),
{
    let ghost before = views(lines@);
    let id = chars_of(e.id.as_str());
    let mut permalink = chars_of(base);
    push_str(&mut permalink, "#");
    push_chars(&mut permalink, &id);
    let mut uid = cat("UID:", &id);
    push_str(&mut uid, "@rationality-munich.com");
    let description = description(e, string_of(&permalink).as_str());
    let mut add: Vec<Vec<char>> = Vec::new();
    add.push(chars_of("BEGIN:VEVENT"));
    add.push(uid);
    add.push(cat("DTSTAMP:", &chars_of(utc(now).as_str())));
    add.push(cat("DTSTART:", &chars_of(utc(e.start).as_str())));
    add.push(cat("DTEND:", &chars_of(utc(e.end_or_default()).as_str())));
    add.push(cat("SUMMARY:", &escape_chars(&chars_of(e.title.as_str()))));
    add.push(cat("DESCRIPTION:", &escape_chars(&chars_of(description.as_str()))));
    add.push(cat("URL:", &permalink));
    let place = e.place();
    if !place.is_empty() {
        add.push(cat("LOCATION:", &escape_chars(&chars_of(place))));
    }
    add.push(chars_of("END:VEVENT"));
    assert(views(add@) =~= event_lines(e@, now, base@));
    let ghost added = add@;
    lines.append(&mut add);
    assert(views(lines@) =~= before + views(added));
}

/// A calendar file of `events`, named `name`, stamped `now`, with
/// permalinks under `base`.
pub fn calendar(name: &str, events: &[&Event], now: i64, base: &str) -> (r: String)
    requires
        in_range(now as int),
        forall|i: int| 0 <= i < events@.len() ==> (#[trigger] events@[i])@.wf(),
    ensures
        r@ == spec_calendar(name@, ref_models(events@), now, base@),
{
    let mut lines: Vec<Vec<char>> = Vec::new();
    lines.push(chars_of("BEGIN:VCALENDAR"));
    lines.push(chars_of("VERSION:2.0"));
    lines.push(chars_of("PRODID:-//rationality-munich.com//calendar//EN"));
    lines.push(chars_of("CALSCALE:GREGORIAN"));
    lines.push(chars_of("METHOD:PUBLISH"));
    lines.push(cat("X-WR-CALNAME:", &escape_chars(&chars_of(name))));
    lines.push(chars_of("X-WR-TIMEZONE:Europe/Berlin"));
    lines.push(chars_of("X-WR-CALDESC:Events from the rationality\\, EA and AI safety groups in Munich"));
    lines.push(chars_of("REFRESH-INTERVAL;VALUE=DURATION:PT1H"));
    lines.push(chars_of("X-PUBLISHED-TTL:PT1H"));
    assert(views(lines@) =~= header_lines(name@));
    let ghost es = ref_models(events@);
    let mut i: usize = 0;
    while i < events.len()
        invariant
            i <= events@.len(),
            es == ref_models(events@),
            in_range(now as int),
            forall|k: int| 0 <= k < events@.len() ==> (#[trigger] events@[k])@.wf(),
            views(lines@) == header_lines(name@) + events_lines(es.take(i as int), now, base@),
        decreases events@.len() - i,
    {
        assert(es.take(i + 1).drop_last() == es.take(i as int));
        assert(es[i as int] == events@[i as int]@);
        let ghost before = views(lines@);
        push_event_lines(&mut lines, events[i], now, base);
        assert(views(lines@) =~= header_lines(name@) + events_lines(es.take(i + 1), now, base@));
        i = i + 1;
    }
    assert(es.take(events@.len() as int) == es);
    let ghost before = views(lines@);
    lines.push(chars_of("END:VCALENDAR"));
    assert(views(lines@) =~= before.push("END:VCALENDAR"@));
    let ghost all = views(lines@);
    assert(all =~= calendar_lines(name@, es, now, base@));
    let mut out: Vec<char> = Vec::new();
    let mut k: usize = 0;
    while k < lines.len()
        invariant
            k <= lines@.len(),
            all == views(lines@),
            out@ == join(folded_lines(all.take(k as int)), "\r\n"@),
        decreases lines@.len() - k,
    {
        let ghost prev = folded_lines(all.take(k as int));
        assert(all.take(k + 1).drop_last() == all.take(k as int));
        assert(all[k as int] == lines@[k as int]@);
        proof {
            lemma_folded_lines_len(all.take(k as int));
            lemma_join_push(prev, "\r\n"@, folded(all[k as int]));
        }
        if k > 0 {
            push_str(&mut out, "\r\n");
        }
        let f = fold_chars(&lines[k]);
        push_chars(&mut out, &f);
        k = k + 1;
    }
    assert(all.take(lines@.len() as int) == all);
    push_str(&mut out, "\r\n");
    string_of(&out)
}

pub proof fn lemma_folded_lines_len(ls: Seq<Seq<char>>)
    ensures
        folded_lines(ls).len() == ls.len(),
    decreases ls.len(),
{
    if ls.len() > 0 {
        lemma_folded_lines_len(ls.drop_last());
    }
}

// Laws

/// Reading an escaped text value gives back the text.
pub proof fn law_unescape_undoes_escape(s: Seq<char>)
    ensures
        spec_unescape(spec_escape(s)) == s,
    decreases s.len(),
{
    if s.len() > 0 {
        law_unescape_undoes_escape(s.drop_first());
        let e = spec_escape(s.drop_first());
        let c = s[0];
        let x = escape_char(c) + e;
        assert(spec_escape(s) == x);
        if c == '\\' || c == ';' || c == ',' || c == '\n' {
            assert(x[0] == '\\' && x.len() >= 2);
            assert(x.skip(2) =~= e);
        } else {
            assert(x.drop_first() =~= e);
        }
        assert(s =~= seq![c] + s.drop_first());
    }
}

/// The physical lines `fold_from(s, len)` is made of, the first of them
/// continuing a line that already holds `len` octets.
pub open spec fn fold_lines(s: Seq<char>, len: nat) -> Seq<Seq<char>>
    decreases s.len(),
{
    if s.len() == 0 {
        seq![seq![]]
    } else {
        let c = s[0];
        let w = char_utf8_len(c);
        if len + w > 75 {
            let rest = fold_lines(s.drop_first(), 1 + w);
            seq![seq![]] + rest.update(0, seq![' ', c] + rest[0])
        } else {
            let rest = fold_lines(s.drop_first(), len + w);
            rest.update(0, seq![c] + rest[0])
        }
    }
}

/// The continuation lines without the space each starts with, one after
/// another.
pub open spec fn continuations(ls: Seq<Seq<char>>) -> Seq<char>
    decreases ls.len(),
{
    if ls.len() == 0 {
        seq![]
    } else {
        ls[0].drop_first() + continuations(ls.drop_first())
    }
}

/// A folded line read back: the first physical line, then each
/// continuation without its leading space.
pub open spec fn unfolded(ls: Seq<Seq<char>>) -> Seq<char> {
    if ls.len() == 0 {
        seq![]
    } else {
        ls[0] + continuations(ls.drop_first())
    }
}

pub proof fn lemma_join_prepend(a: Seq<char>, ws: Seq<Seq<char>>, sep: Seq<char>)
    requires
        ws.len() >= 1,
    ensures
        join(seq![a] + ws, sep) == a + sep + join(ws, sep),
    decreases ws.len(),
{
    let x = seq![a] + ws;
    assert(x.last() == ws.last());
    if ws.len() == 1 {
        assert(x.drop_last() =~= seq![a]);
        assert(join(seq![a], sep) == a);
        assert(join(ws, sep) == ws[0]);
    } else {
        assert(x.drop_last() =~= seq![a] + ws.drop_last());
        lemma_join_prepend(a, ws.drop_last(), sep);
        assert(join(ws, sep) == join(ws.drop_last(), sep) + sep + ws.last());
        assert(a + sep + join(ws.drop_last(), sep) + sep + ws.last() =~= a + sep + (join(ws.drop_last(), sep) + sep + ws.last()));
    }
}

pub proof fn lemma_join_update_first(ws: Seq<Seq<char>>, x: Seq<char>, sep: Seq<char>)
    requires
        ws.len() >= 1,
    ensures
        join(ws.update(0, x + ws[0]), sep) == x + join(ws, sep),
    decreases ws.len(),
{
    let u = ws.update(0, x + ws[0]);
    if ws.len() > 1 {
        assert(u.drop_last() =~= ws.drop_last().update(0, x + ws.drop_last()[0]));
        lemma_join_update_first(ws.drop_last(), x, sep);
        assert(x + join(ws.drop_last(), sep) + sep + ws.last() =~= x + (join(ws.drop_last(), sep) + sep + ws.last()));
    }
}

#[verifier::spinoff_prover]
#[verifier::rlimit(40)]
proof fn lemma_fold_lines(s: Seq<char>, len: nat)
    requires
        len <= 75,
    ensures
        ({
            let ls = fold_lines(s, len);
            &&& ls.len() >= 1
            &&& fold_from(s, len) == join(ls, seq!['\r', '\n'])
            &&& len + utf8_len(ls[0]) <= 75
            &&& forall|k: int| 1 <= k < ls.len() ==> utf8_len(#[trigger] ls[k]) <= 75
                && ls[k].len() > 0 && ls[k][0] == ' '
            &&& unfolded(ls) == s
        }),
    decreases s.len(),
{
    let crlf = seq!['\r', '\n'];
    let ls = fold_lines(s, len);
    if s.len() == 0 {
        assert(unfolded(ls) =~= s);
    } else {
        let c = s[0];
        let w = char_utf8_len(c);
        let s1 = s.drop_first();
        assert(s =~= seq![c] + s1);
        if len + w > 75 {
            let rest = fold_lines(s1, 1 + w);
            lemma_fold_lines(s1, 1 + w);
            let first = seq![' ', c] + rest[0];
            let u = rest.update(0, first);
            assert(ls == seq![seq![]] + u);
            lemma_join_prepend(seq![], u, crlf);
            lemma_join_update_first(rest, seq![' ', c], crlf);
            assert(fold_from(s, len) =~= seq![] + crlf + (seq![' ', c] + join(rest, crlf)));
            assert(utf8_len(ls[0]) == 0);
            lemma_utf8_len_add(seq![' ', c], rest[0]);
            assert(utf8_len(seq![' ', c]) == 1 + w) by {
                assert(seq![' ', c].drop_last() =~= seq![' ']);
                assert(seq![' '].drop_last() =~= Seq::<char>::empty());
                assert(seq![' ', c].last() == c);
                assert(seq![' '].last() == ' ');
                assert(char_utf8_len(' ') == 1);
                assert(utf8_len(seq![' ']) == 1);
            }
            assert forall|k: int| 1 <= k < ls.len() implies utf8_len(#[trigger] ls[k]) <= 75
                && ls[k].len() > 0 && ls[k][0] == ' ' by {
                if k == 1 {
                    assert(ls[k] == first);
                } else {
                    assert(ls[k] == rest[k - 1]);
                }
            }
            assert(ls.drop_first() == u);
            assert(u.drop_first() =~= rest.drop_first());
            assert(continuations(u) == first.drop_first() + continuations(rest.drop_first()));
            assert(first.drop_first() =~= seq![c] + rest[0]);
            assert(unfolded(ls) =~= seq![] + (seq![c] + rest[0] + continuations(rest.drop_first())));
            assert(unfolded(rest) == s1);
        } else {
            let rest = fold_lines(s1, len + w);
            lemma_fold_lines(s1, len + w);
            assert(ls == rest.update(0, seq![c] + rest[0]));
            lemma_join_update_first(rest, seq![c], crlf);
            assert(fold_from(s, len) =~= seq![c] + join(rest, crlf));
            lemma_utf8_len_add(seq![c], rest[0]);
            assert(utf8_len(seq![c]) == w) by {
                assert(seq![c].drop_last() =~= Seq::<char>::empty());
                assert(seq![c].last() == c);
                assert(utf8_len(Seq::<char>::empty()) == 0);
                assert(utf8_len(seq![c]) == utf8_len(seq![c].drop_last()) + char_utf8_len(c));
            }
            assert forall|k: int| 1 <= k < ls.len() implies utf8_len(#[trigger] ls[k]) <= 75
                && ls[k].len() > 0 && ls[k][0] == ' ' by {
                assert(ls[k] == rest[k]);
            }
            assert(ls.drop_first() =~= rest.drop_first());
            assert(unfolded(ls) =~= seq![c] + (rest[0] + continuations(rest.drop_first())));
        }
    }
}

/// Folding a content line: the physical lines are joined by CRLF, none
/// holds more than 75 octets, each after the first starts with a space,
/// and taking those spaces away gives back the content line.
pub proof fn law_fold(s: Seq<char>)
    ensures
        ({
            let ls = fold_lines(s, 0);
            &&& ls.len() >= 1
            &&& folded(s) == join(ls, seq!['\r', '\n'])
            &&& forall|k: int| 0 <= k < ls.len() ==> utf8_len(#[trigger] ls[k]) <= 75
            &&& forall|k: int| 1 <= k < ls.len() ==> (#[trigger] ls[k]).len() > 0 && ls[k][0] == ' '
            &&& unfolded(ls) == s
        }),
{
    lemma_fold_lines(s, 0);
}

/// An occurrence a weekly expansion may keep: not before the start, not
/// listed in `EXDATE`, and, unless it is the start, not past `UNTIL` or the
/// horizon.
pub open spec fn may_keep(w: Weekly, t: i64) -> bool {
    &&& t >= w.first
    &&& !w.excluded.contains(t)
    &&& (t == w.first || !past_end(w, t))
}

proof fn lemma_weekly_run(w: Weekly, wd: int, j: int, produced: nat, out: Seq<i64>)
    requires
        out.len() < 1000,
        forall|k: int| 0 <= k < out.len() ==> may_keep(w, #[trigger] out[k]),
    ensures
        ({
            let r = weekly_run(w, wd, j, produced, out);
            &&& r.len() <= 1000
            &&& forall|k: int| 0 <= k < r.len() ==> may_keep(w, #[trigger] r[k])
            &&& r.len() >= out.len()
            &&& forall|k: int| 0 <= k < out.len() ==> #[trigger] r[k] == out[k]
        }),
    decreases 8_200_000_000_000 - w.monday - wd * 86400, w.days.len() - j,
{
    if j < 0 || w.interval < 1 {
    } else if j >= w.days.len() {
        if w.monday + (wd + 7 * w.interval) * 86400 > 8_200_000_000_000 {
        } else {
            lemma_weekly_run(w, wd + 7 * w.interval, 0, produced, out);
        }
    } else {
        let n = w.monday + (wd + w.days[j]) * 86400 + w.tod;
        if in_range(n) {
            match weekly_utc(w, n) {
                None => lemma_weekly_run(w, wd, j + 1, produced, out),
                Some(t) => if t <= w.first {
                    lemma_weekly_run(w, wd, j + 1, produced, out);
                } else if past_end(w, t) || count_reached(w, produced) {
                } else {
                    let kept = if w.excluded.contains(t) { out } else { out.push(t) };
                    assert forall|k: int| 0 <= k < kept.len() implies may_keep(w, #[trigger] kept[k]) by {
                        if k < out.len() {
                            assert(kept[k] == out[k]);
                        }
                    }
                    if kept.len() < 1000 {
                        lemma_weekly_run(w, wd, j + 1, produced + 1, kept);
                        let r = weekly_run(w, wd, j + 1, produced + 1, kept);
                        assert forall|k: int| 0 <= k < out.len() implies #[trigger] r[k] == out[k] by {
                            assert(kept[k] == out[k]);
                        }
                    } else {
                        assert forall|k: int| 0 <= k < out.len() implies #[trigger] kept[k] == out[k] by {}
                    }
                },
            }
        }
    }
}

/// Expanding an event yields at most a thousand start times.
pub proof fn law_occurrences_at_most_a_thousand(ev: IcsModel, horizon: i64)
    ensures
        spec_occurrences(ev, horizon).len() <= 1000,
{
    if let Some(ds) = ics_prop(ev, "DTSTART"@) {
        if let Some(first) = prop_time(ds) {
            if let Some(rule) = ics_prop(ev, "RRULE"@) {
                let parts = split_on(rule.value, ';');
                let w = weekly_rule(ds, first, parts, excluded_times(ics_values(ev, "EXDATE"@)), horizon);
                lemma_weekly_run(w, 0, 0, 1, weekly_start(w));
            }
        }
    }
}

/// A weekly rule yields `DTSTART` first unless `EXDATE` lists it, whatever
/// `BYDAY` and `UNTIL` say; it never yields a time `EXDATE` lists; every time
/// it yields is at or after `DTSTART`, and every one but `DTSTART` itself is
/// no later than the horizon and no later than `UNTIL`.
pub proof fn law_weekly_occurrences(ev: IcsModel, horizon: i64)
    requires
        ics_prop(ev, "RRULE"@) matches Some(rule)
            && part_get(split_on(rule.value, ';'), "FREQ"@) == Some("WEEKLY"@),
    ensures
        ({
            let r = spec_occurrences(ev, horizon);
            let excluded = excluded_times(ics_values(ev, "EXDATE"@));
            let until = match part_get(split_on(ics_prop(ev, "RRULE"@)->0.value, ';'), "UNTIL"@) {
                Some(u) => spec_parse_time(u, None),
                None => None,
            };
            let start = match ics_prop(ev, "DTSTART"@) {
                Some(ds) => prop_time(ds),
                None => None,
            };
            &&& forall|k: int| 0 <= k < r.len() ==> {
                &&& !excluded.contains(#[trigger] r[k])
                &&& ics_prop(ev, "DTSTART"@) matches Some(ds) && prop_time(ds) matches Some(first)
                    && r[k] >= first
                    && (r[k] != first ==> r[k] <= horizon && (until matches Some(u) ==> r[k] <= u))
            }
            &&& (start matches Some(t) ==> (!excluded.contains(t) ==> r.len() > 0 && r[0] == t))
        }),
{
    if let Some(ds) = ics_prop(ev, "DTSTART"@) {
        if let Some(first) = prop_time(ds) {
            let rule = ics_prop(ev, "RRULE"@)->0;
            let parts = split_on(rule.value, ';');
            let w = weekly_rule(ds, first, parts, excluded_times(ics_values(ev, "EXDATE"@)), horizon);
            lemma_weekly_run(w, 0, 0, 1, weekly_start(w));
            if !w.excluded.contains(first) {
                assert(weekly_start(w)[0] == first);
            }
        }
    }
}

/// Where the block of event `i` starts among the lines of `es`.
proof fn lemma_events_lines_block(es: Seq<EventModel>, now: i64, base: Seq<char>, i: int)
    requires
        0 <= i < es.len(),
    ensures
        exists|k: int| 0 <= k && k + 9 <= events_lines(es, now, base).len()
            && #[trigger] events_lines(es, now, base).subrange(k, k + 8) == event_lines(es[i], now, base).take(8),
    decreases es.len(),
{
    let a = events_lines(es.drop_last(), now, base);
    let b = event_lines(es.last(), now, base);
    let all = events_lines(es, now, base);
    assert(all == a + b);
    assert(b.len() >= 9);
    if i < es.len() - 1 {
        lemma_events_lines_block(es.drop_last(), now, base, i);
        assert(es.drop_last()[i] == es[i]);
        let k = choose|k: int| 0 <= k && k + 9 <= a.len()
            && #[trigger] a.subrange(k, k + 8) == event_lines(es.drop_last()[i], now, base).take(8);
        assert(all.subrange(k, k + 8) =~= a.subrange(k, k + 8));
    } else {
        let k = a.len() as int;
        assert(all.subrange(k, k + 8) =~= b.take(8));
    }
}

/// Every event gets its own block in a calendar, whose start is the
/// event's start and whose end is the event's end, or three hours after
/// the start when it has none: calendar apps never see a zero-length
/// event for lack of an end.
pub proof fn law_calendar_events_start_and_end(name: Seq<char>, es: Seq<EventModel>, now: i64, base: Seq<char>, i: int)
    requires
        0 <= i < es.len(),
    ensures
        exists|k: int| 0 <= k && k + 5 <= calendar_lines(name, es, now, base).len() && {
            &&& #[trigger] calendar_lines(name, es, now, base)[k] == "BEGIN:VEVENT"@
            &&& calendar_lines(name, es, now, base)[k + 1] == "UID:"@ + es[i].id + "@rationality-munich.com"@
            &&& calendar_lines(name, es, now, base)[k + 3] == "DTSTART:"@ + spec_utc(es[i].start as int)
            &&& calendar_lines(name, es, now, base)[k + 4] == "DTEND:"@ + spec_utc(match es[i].end {
                Some(t) => t as int,
                None => es[i].start + 3 * 3600,
            })
        },
{
    lemma_events_lines_block(es, now, base, i);
    let ev = events_lines(es, now, base);
    let j = choose|j: int| 0 <= j && j + 9 <= ev.len()
        && #[trigger] ev.subrange(j, j + 8) == event_lines(es[i], now, base).take(8);
    let h = header_lines(name);
    let ls = calendar_lines(name, es, now, base);
    assert(ls == h + ev + seq!["END:VCALENDAR"@]);
    let k = h.len() + j;
    let blk = event_lines(es[i], now, base);
    assert(ls[k] == ev[j] && ev[j] == ev.subrange(j, j + 8)[0] && blk.take(8)[0] == blk[0]);
    assert(ls[k + 1] == ev[j + 1] && ev[j + 1] == ev.subrange(j, j + 8)[1] && blk.take(8)[1] == blk[1]);
    assert(ls[k + 3] == ev[j + 3] && ev[j + 3] == ev.subrange(j, j + 8)[3] && blk.take(8)[3] == blk[3]);
    assert(ls[k + 4] == ev[j + 4] && ev[j + 4] == ev.subrange(j, j + 8)[4] && blk.take(8)[4] == blk[4]);
    assert(ls[k] == "BEGIN:VEVENT"@);
}

/// Names stand where they stood when only values change.
proof fn lemma_name_index_names(v: IcsModel, w: IcsModel, name: Seq<char>)
    requires
        v.len() == w.len(),
        forall|k: int| 0 <= k < v.len() ==> (#[trigger] v[k]).0 == w[k].0,
    ensures
        name_index(v, name) == name_index(w, name),
    decreases v.len(),
{
    if v.len() > 0 {
        assert forall|k: int| 0 <= k < v.drop_last().len() implies (#[trigger] v.drop_last()[k]).0 == w.drop_last()[k].0 by {
            assert(v.drop_last()[k] == v[k] && w.drop_last()[k] == w[k]);
        }
        lemma_name_index_names(v.drop_last(), w.drop_last(), name);
    }
}

/// Adding a value to a property keeps every value it had, puts the new
/// one after them, and leaves every other property as it was.
pub proof fn law_add_prop_appends(ev: IcsModel, name: Seq<char>, p: PropModel, other: Seq<char>)
    ensures
        ics_values(add_prop(ev, name, p), name) == ics_values(ev, name).push(p),
        other != name ==> ics_values(add_prop(ev, name, p), other) == ics_values(ev, other),
{
    lemma_name_index(ev, name);
    lemma_name_index(ev, other);
    let r = add_prop(ev, name, p);
    match name_index(ev, name) {
        Some(i) => {
            assert forall|k: int| 0 <= k < ev.len() implies (#[trigger] ev[k]).0 == r[k].0 by {}
            lemma_name_index_names(ev, r, name);
            lemma_name_index_names(ev, r, other);
            if other != name {
                if let Some(j) = name_index(ev, other) {
                    assert(j != i);
                }
            }
        },
        None => {
            assert(r.drop_last() == ev);
            assert(seq![p] =~= Seq::<PropModel>::empty().push(p));
        },
    }
}

/// A content line that is a property: neither a `BEGIN:` nor an `END:`
/// line, and with a colon.
pub open spec fn is_prop_line(line: Seq<char>) -> bool {
    !"BEGIN:"@.is_prefix_of(line) && !"END:"@.is_prefix_of(line) && first_index_of(line, ':') is Some
}

/// The property name of a property line, upper-cased.
pub open spec fn line_name(line: Seq<char>) -> Seq<char> {
    spec_to_uppercase(split_on(line.take(first_index_of(line, ':')->0), ';')[0])
}

/// The value (and `TZID`) of a property line.
pub open spec fn line_prop(line: Seq<char>) -> PropModel {
    let i = first_index_of(line, ':')->0;
    PropModel { value: line.skip(i + 1), tzid: tzid_param(split_on(line.take(i), ';').drop_first()) }
}

/// The values the lines `body` give property `name`, in order.
pub open spec fn line_values(body: Seq<Seq<char>>, name: Seq<char>) -> Seq<PropModel>
    decreases body.len(),
{
    if body.len() == 0 {
        seq![]
    } else {
        line_values(body.drop_last(), name) + if line_name(body.last()) == name { seq![line_prop(body.last())] } else { seq![] }
    }
}

proof fn lemma_prop_lines(pre: Seq<Seq<char>>, body: Seq<Seq<char>>, name: Seq<char>)
    requires
        parse_lines(pre).cur is Some,
        parse_lines(pre).depth == 0,
        forall|k: int| 0 <= k < body.len() ==> is_prop_line(#[trigger] body[k]),
    ensures
        parse_lines(pre + body).cur is Some,
        parse_lines(pre + body).depth == 0,
        parse_lines(pre + body).events == parse_lines(pre).events,
        ics_values(parse_lines(pre + body).cur->0, name)
            == ics_values(parse_lines(pre).cur->0, name) + line_values(body, name),
    decreases body.len(),
{
    reveal_strlit("BEGIN:VEVENT");
    reveal_strlit("END:VEVENT");
    reveal_strlit("BEGIN:");
    reveal_strlit("END:");
    if body.len() == 0 {
        assert(pre + body =~= pre);
    } else {
        let b0 = body.drop_last();
        let line = body.last();
        assert forall|k: int| 0 <= k < b0.len() implies is_prop_line(#[trigger] b0[k]) by {
            assert(b0[k] == body[k]);
        }
        lemma_prop_lines(pre, b0, name);
        assert((pre + body).drop_last() =~= pre + b0);
        assert((pre + body).last() == line);
        assert(is_prop_line(body[body.len() - 1]));
        assert(line != "BEGIN:VEVENT"@) by {
            if line == "BEGIN:VEVENT"@ {
                assert("BEGIN:"@.is_prefix_of(line));
            }
        }
        assert(line != "END:VEVENT"@) by {
            if line == "END:VEVENT"@ {
                assert("END:"@.is_prefix_of(line));
            }
        }
        let st = parse_lines(pre + b0);
        let c = st.cur->0;
        let i = first_index_of(line, ':')->0;
        let head = split_on(line.take(i), ';');
        let p = PropModel { value: line.skip(i + 1), tzid: tzid_param(head.drop_first()) };
        assert(parse_lines(pre + body) == parse_line(st, line));
        assert(parse_line(st, line).cur == Some(add_prop(c, spec_to_uppercase(head[0]), p)));
        law_add_prop_appends(c, spec_to_uppercase(head[0]), p, name);
        assert(line_prop(line) == p);
        assert(line_name(line) == spec_to_uppercase(head[0]));
        if line_name(line) == name {
            assert(line_values(body, name) == line_values(b0, name) + seq![p]);
        } else {
            assert(line_values(body, name) == line_values(b0, name) + Seq::<PropModel>::empty());
        }
    }
}

/// Every value a property had is read, in order: an event whose lines
/// between `BEGIN:VEVENT` and `END:VEVENT` are properties has, for each
/// name, the values of exactly the lines with that name, as many as there
/// are lines (`EXDATE` may repeat, and each one counts).
pub proof fn law_parse_keeps_every_value(pre: Seq<Seq<char>>, body: Seq<Seq<char>>, name: Seq<char>)
    requires
        parse_lines(pre).depth == 0,
        forall|k: int| 0 <= k < body.len() ==> is_prop_line(#[trigger] body[k]),
    ensures
        ({
            let evs = parse_lines(pre + seq!["BEGIN:VEVENT"@] + body + seq!["END:VEVENT"@]).events;
            &&& evs.len() == parse_lines(pre).events.len() + 1
            &&& ics_values(evs.last(), name) == line_values(body, name)
        }),
{
    reveal_strlit("BEGIN:VEVENT");
    reveal_strlit("END:VEVENT");
    let p1 = pre + seq!["BEGIN:VEVENT"@];
    assert(p1.drop_last() == pre);
    assert(p1.last() == "BEGIN:VEVENT"@);
    assert(parse_lines(p1) == parse_line(parse_lines(pre), "BEGIN:VEVENT"@));
    assert(parse_lines(p1).cur == Some(Seq::<(Seq<char>, Seq<PropModel>)>::empty()));
    assert(ics_values(Seq::<(Seq<char>, Seq<PropModel>)>::empty(), name) == Seq::<PropModel>::empty());
    lemma_prop_lines(p1, body, name);
    let p2 = p1 + body;
    let all = p2 + seq!["END:VEVENT"@];
    assert(all.drop_last() == p2);
    assert(all.last() == "END:VEVENT"@);
    assert(parse_lines(all) == parse_line(parse_lines(p2), "END:VEVENT"@));
    assert(pre + seq!["BEGIN:VEVENT"@] + body + seq!["END:VEVENT"@] == all);
    assert(Seq::<PropModel>::empty() + line_values(body, name) =~= line_values(body, name));
}

proof fn lemma_insert_day(s: Seq<u32>, x: u32)
    ensures
        forall|y: u32| #[trigger] insert_day(s, x).contains(y) <==> s.contains(y) || y == x,
    decreases s.len(),
{
    let r = insert_day(s, x);
    if s.len() == 0 {
        assert forall|y: u32| #[trigger] r.contains(y) <==> s.contains(y) || y == x by {
            if r.contains(y) { let k = choose|k: int| 0 <= k < r.len() && r[k] == y; }
            if y == x { assert(r[0] == x); }
        }
    } else if s.last() <= x {
        assert forall|y: u32| #[trigger] r.contains(y) <==> s.contains(y) || y == x by {
            if r.contains(y) {
                let k = choose|k: int| 0 <= k < r.len() && r[k] == y;
                if k < s.len() { assert(s[k] == y); }
            }
            if s.contains(y) { let k = choose|k: int| 0 <= k < s.len() && s[k] == y; assert(r[k] == y); }
            if y == x { assert(r[s.len() as int] == x); }
        }
    } else {
        lemma_insert_day(s.drop_last(), x);
        let r0 = insert_day(s.drop_last(), x);
        assert(r == r0.push(s.last()));
        assert forall|y: u32| #[trigger] r.contains(y) <==> s.contains(y) || y == x by {
            if r.contains(y) {
                let k = choose|k: int| 0 <= k < r.len() && r[k] == y;
                if k < r0.len() {
                    assert(r0.contains(y));
                    if s.drop_last().contains(y) {
                        let j = choose|j: int| 0 <= j < s.drop_last().len() && s.drop_last()[j] == y;
                        assert(s[j] == y);
                    }
                } else {
                    assert(s[s.len() - 1] == y);
                }
            }
            if s.contains(y) {
                let k = choose|k: int| 0 <= k < s.len() && s[k] == y;
                if k < s.len() - 1 {
                    assert(s.drop_last()[k] == y);
                    assert(r0.contains(y));
                    let j = choose|j: int| 0 <= j < r0.len() && r0[j] == y;
                    assert(r[j] == y);
                } else {
                    assert(r[r0.len() as int] == y);
                }
            }
            if y == x {
                assert(r0.contains(y));
                let j = choose|j: int| 0 <= j < r0.len() && r0[j] == y;
                assert(r[j] == y);
            }
        }
    }
}

proof fn lemma_sort_days(s: Seq<u32>)
    ensures
        forall|y: u32| #[trigger] sort_days(s).contains(y) <==> s.contains(y),
    decreases s.len(),
{
    if s.len() > 0 {
        lemma_sort_days(s.drop_last());
        lemma_insert_day(sort_days(s.drop_last()), s.last());
        assert forall|y: u32| #[trigger] sort_days(s).contains(y) <==> s.contains(y) by {
            if s.contains(y) {
                let k = choose|k: int| 0 <= k < s.len() && s[k] == y;
                if k < s.len() - 1 { assert(s.drop_last()[k] == y); }
            }
            if s.drop_last().contains(y) {
                let k = choose|k: int| 0 <= k < s.drop_last().len() && s.drop_last()[k] == y;
                assert(s[k] == y);
            }
        }
    }
}

proof fn lemma_day_codes(codes: Seq<Seq<char>>)
    ensures
        forall|d: u32| #[trigger] day_codes(codes).contains(d)
            <==> exists|k: int| 0 <= k < codes.len() && weekday_code(#[trigger] codes[k]) == Some(d),
    decreases codes.len(),
{
    if codes.len() > 0 {
        let c0 = codes.drop_last();
        lemma_day_codes(c0);
        let r0 = day_codes(c0);
        let tail = match weekday_code(codes.last()) { Some(d) => seq![d], None => Seq::<u32>::empty() };
        let r = day_codes(codes);
        assert(r == r0 + tail);
        assert forall|d: u32| #[trigger] r.contains(d)
            <==> exists|k: int| 0 <= k < codes.len() && weekday_code(#[trigger] codes[k]) == Some(d) by {
            if r.contains(d) {
                let j = choose|j: int| 0 <= j < r.len() && r[j] == d;
                if j < r0.len() {
                    assert(r0.contains(d));
                    let k = choose|k: int| 0 <= k < c0.len() && weekday_code(#[trigger] c0[k]) == Some(d);
                    assert(codes[k] == c0[k]);
                } else {
                    assert(weekday_code(codes[codes.len() - 1]) == Some(d));
                }
            }
            if exists|k: int| 0 <= k < codes.len() && weekday_code(#[trigger] codes[k]) == Some(d) {
                let k = choose|k: int| 0 <= k < codes.len() && weekday_code(#[trigger] codes[k]) == Some(d);
                if k < codes.len() - 1 {
                    assert(c0[k] == codes[k]);
                    assert(r0.contains(d));
                    let j = choose|j: int| 0 <= j < r0.len() && r0[j] == d;
                    assert(r[j] == d);
                } else {
                    assert(r[r0.len() as int] == d);
                }
            }
        }
    }
}

/// The entries of a rule's `BYDAY`.
pub open spec fn byday_entries(parts: Seq<Seq<char>>) -> Seq<Seq<char>> {
    match part_get(parts, "BYDAY"@) {
        Some(d) => split_on(d, ','),
        None => seq![],
    }
}

/// A weekly rule steps through exactly the weekdays its `BYDAY` names, every
/// one of them; the start's own weekday when it names none.
pub proof fn law_weekly_days_are_the_byday_weekdays(
    ds: PropModel,
    first: i64,
    parts: Seq<Seq<char>>,
    excluded: Seq<i64>,
    horizon: i64,
    d: u32,
)
    ensures
        ({
            let w = weekly_rule(ds, first, parts, excluded, horizon);
            let named = exists|k: int| 0 <= k < byday_entries(parts).len()
                && weekday_code(#[trigger] byday_entries(parts)[k]) == Some(d);
            let none_named = forall|k: int| 0 <= k < byday_entries(parts).len()
                ==> weekday_code(#[trigger] byday_entries(parts)[k]) is None;
            &&& named ==> w.days.contains(d)
            &&& w.days.contains(d) ==> named || none_named
        }),
{
    let codes = byday_entries(parts);
    lemma_day_codes(codes);
    let listed = day_codes(codes);
    let w = weekly_rule(ds, first, parts, excluded, horizon);
    let src = if listed.len() == 0 { seq![weekday_of(day_of(match (if ds.value.len() > 0 && ds.value.last() == 'Z' { None } else { Some(zone_name(ds.tzid)) }) {
        Some(z) => spec_local_of(first as int, z),
        None => first as int,
    })) as u32] } else { listed };
    lemma_sort_days(src);
    assert(w.days == sort_days(src));
    if listed.len() == 0 {
        assert forall|k: int| 0 <= k < codes.len() implies weekday_code(#[trigger] codes[k]) is None by {
            if let Some(x) = weekday_code(codes[k]) {
                assert(listed.contains(x));
            }
        }
    } else {
        if w.days.contains(d) {
            assert(listed.contains(d));
        }
    }
}

} // verus!
