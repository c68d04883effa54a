//! Reports of about how many came to past events, sent from the past events
//! page. A report stores the event, the number and the time; nothing about
//! who sent it. The client address only ever lives in memory, to limit how
//! often one address can report, and is forgotten within a day.
//!
//! The server around this is a loop: it reads a request, asks
//! `read_request` what it is, checks whether the event is a past one, asks
//! `take_report` what to answer and whether to save, saves `reports_with`,
//! and only once that succeeded takes the report with `count_report`.

use vstd::prelude::*;
use vstd::utf8::encode_utf8;
use std::collections::HashSet;
use crate::text::{chars_of, string_of, slice_chars, split_char, split_on, views, eq_chars, eq_str, parse_uint, parse_unsigned};
use crate::ics::first_index_of;
use crate::text::{utf8_len, utf8_length};

verus! {

broadcast use vstd::std_specs::hash::group_hash_axioms;

pub const MAX_BODY: usize = 256;
pub const MAX_ATTENDEES: u32 = 1000;
/// Reports one address may send per hour.
pub const PER_HOUR: usize = 20;
/// Reports kept per event; enough for a median, too few to flood.
pub const PER_EVENT: usize = 100;
/// An hour, in milliseconds.
pub const HOUR_MS: i64 = 3_600_000;

/// FNV-1a of `bytes`, continuing from `h`.
pub open spec fn fnv_from(h: u64, bytes: Seq<u8>) -> u64
    decreases bytes.len(),
{
    if bytes.len() == 0 {
        h
    } else {
        fnv_from((h ^ (bytes[0] as u64)).wrapping_mul(0x100000001b3), bytes.drop_first())
    }
}

pub open spec fn fnv1a(bytes: Seq<u8>) -> u64 {
    fnv_from(0xcbf29ce484222325, bytes)
}

/// FNV-1a of the UTF-8 bytes of `s`: only ever compared within this
/// process's memory.
pub fn hash(s: &str) -> (r: u64)
    ensures
        r == fnv1a(encode_utf8(s@)),
{
    let bytes = s.as_bytes();
    let mut h: u64 = 0xcbf29ce484222325;
    let mut i: usize = 0;
    assert(bytes@.skip(0) == bytes@);
    while i < bytes.len()
        invariant
            i <= bytes@.len(),
            bytes@ == encode_utf8(s@),
            fnv_from(h, bytes@.skip(i as int)) == fnv1a(encode_utf8(s@)),
        decreases bytes@.len() - i,
    {
        assert(bytes@.skip(i as int).drop_first() == bytes@.skip(i + 1));
        assert(bytes@.skip(i as int)[0] == bytes@[i as int]);
        h = (h ^ (bytes[i] as u64)).wrapping_mul(0x100000001b3);
        i = i + 1;
    }
    assert(bytes@.skip(i as int) =~= Seq::<u8>::empty());
    h
}

/// Characters an event id is made of.
pub open spec fn id_char(c: char) -> bool {
    ('a' <= c && c <= 'z') || ('0' <= c && c <= '9') || c == '-'
}

/// Ids are `[a-z0-9-]`, one to 120 of them.
pub open spec fn spec_valid_id(id: Seq<char>) -> bool {
    0 < id.len() <= 120 && forall|i: int| 0 <= i < id.len() ==> id_char(#[trigger] id[i])
}

pub fn valid_id(id: &str) -> (r: bool)
    ensures
        r == spec_valid_id(id@),
{
    let cs = chars_of(id);
    if cs.len() == 0 || cs.len() > 120 {
        return false;
    }
    let mut i: usize = 0;
    while i < cs.len()
        invariant
            i <= cs@.len(),
            cs@ == id@,
            forall|k: int| 0 <= k < i ==> id_char(#[trigger] cs@[k]),
        decreases cs@.len() - i,
    {
        let c = cs[i];
        if !(('a' <= c && c <= 'z') || ('0' <= c && c <= '9') || c == '-') {
            assert(!id_char(cs@[i as int]));
            return false;
        }
        i = i + 1;
    }
    true
}

/// The `key=value` pairs of a form body read in turn: `id` takes a valid
/// id, `n` takes a number (or loses it, if what follows is none), others
/// are ignored. A pair without `=` spoils the whole body.
pub open spec fn read_pairs(
    pairs: Seq<Seq<char>>,
    id: Option<Seq<char>>,
    n: Option<nat>,
) -> Option<(Option<Seq<char>>, Option<nat>)>
    decreases pairs.len(),
{
    if pairs.len() == 0 {
        Some((id, n))
    } else {
        let p = pairs[0];
        match first_index_of(p, '=') {
            None => None,
            Some(i) => {
                let k = p.take(i);
                let v = p.skip(i + 1);
                if k == "id"@ && spec_valid_id(v) {
                    read_pairs(pairs.drop_first(), Some(v), n)
                } else if k == "n"@ {
                    read_pairs(pairs.drop_first(), id, parse_unsigned(v, u32::MAX as nat))
                } else {
                    read_pairs(pairs.drop_first(), id, n)
                }
            },
        }
    }
}

/// `id=...&n=...`: an event id and a number from 1 to 1000.
pub open spec fn spec_parse(body: Seq<char>) -> Option<(Seq<char>, u32)> {
    match read_pairs(split_on(body, '&'), None, None) {
        Some((Some(id), Some(n))) => if 1 <= n <= 1000 { Some((id, n as u32)) } else { None },
        _ => None,
    }
}

/// `id=...&n=...`. Neither needs percent-decoding: ids are `[a-z0-9-]`.
pub fn parse(body: &str) -> (r: Option<(String, u32)>)
    ensures
        match r {
            Some((id, n)) => spec_parse(body@) == Some((id@, n)),
            None => spec_parse(body@) is None,
        },
{
    let pairs = split_char(&chars_of(body), '&');
    let ghost ps = views(pairs@);
    let mut id: Option<Vec<char>> = None;
    let mut n: Option<u64> = None;
    let mut i: usize = 0;
    assert(ps.skip(0) == ps);
    while i < pairs.len()
        invariant
            i <= pairs@.len(),
            ps == views(pairs@),
            ps == split_on(body@, '&'),
            read_pairs(ps.skip(i as int), match id { Some(v) => Some(v@), None => None }, match n { Some(x) => Some(x as nat), None => None })
                == read_pairs(ps, None, None),
            n matches Some(x) ==> x <= u32::MAX,
        decreases pairs@.len() - i,
    {
        let p = &pairs[i];
        let plen = p.len();
        assert(ps.skip(i as int)[0] == p@);
        assert(ps.skip(i as int).drop_first() == ps.skip(i + 1));
        match crate::ics::find_char(p, '=') {
            None => {
                return None;
            },
            Some(e) => {
                let k = slice_chars(p, 0, e);
                let v = slice_chars(p, e + 1, plen);
                assert(k@ == p@.take(e as int) && v@ == p@.skip(e + 1));
                if eq_str(string_of(&k).as_str(), "id") && valid_id(string_of(&v).as_str()) {
                    id = Some(v);
                } else if eq_str(string_of(&k).as_str(), "n") {
                    n = parse_uint(&v, u32::MAX as u64);
                }
            },
        }
        i = i + 1;
    }
    assert(ps.skip(i as int) =~= Seq::<Seq<char>>::empty());
    match (id, n) {
        (Some(v), Some(x)) => if 1 <= x && x <= 1000 {
            Some((string_of(&v), x as u32))
        } else {
            None
        },
        _ => None,
    }
}

// Serving

/// One report: how many came, and when it was sent (seconds since 1970).
#[derive(Clone, Copy, Debug, PartialEq, Eq, Structural)]
pub struct Report {
    pub n: u32,
    pub at: i64,
}

/// What the server remembers between requests.
pub struct State {
    /// Per event id, its reports, in the order the ids were first reported.
    pub reports: Vec<(String, Vec<Report>)>,
    /// Per address: when its hour started, in milliseconds on a clock that
    /// only goes forward, and how many reports it sent since.
    pub recent: Vec<(String, i64, usize)>,
    /// Hashes of address and event, so one address reports an event once a
    /// day.
    pub seen: HashSet<u64>,
    /// The day, counted from 1970-01-01 in UTC, the two above are for.
    pub day: i64,
}

pub struct StateModel {
    pub reports: Seq<(Seq<char>, Seq<Report>)>,
    pub recent: Seq<(Seq<char>, i64, usize)>,
    pub seen: Set<u64>,
    pub day: i64,
}

impl View for State {
    type V = StateModel;

    open spec fn view(&self) -> StateModel {
        StateModel {
            reports: self.reports@.map_values(|r: (String, Vec<Report>)| (r.0@, r.1@)),
            recent: self.recent@.map_values(|r: (String, i64, usize)| (r.0@, r.1, r.2)),
            seen: self.seen@,
            day: self.day,
        }
    }
}

impl State {
    /// A server that has heard nothing yet today, keeping `reports`.
    pub fn new(reports: Vec<(String, Vec<Report>)>, day: i64) -> (s: State)
        ensures
            s@.reports == reports@.map_values(|r: (String, Vec<Report>)| (r.0@, r.1@)),
            s@.recent.len() == 0,
            s@.seen == Set::<u64>::empty(),
            s@.day == day,
    {
        State { reports, recent: Vec::new(), seen: HashSet::new(), day }
    }
}

/// What to do with a request before the event is looked up: answer it
/// right away, or check that `id` is a past event and go on.
#[derive(Debug, PartialEq, Eq)]
pub enum Step {
    Reply(u16, &'static str),
    Check(String, u32),
}

pub enum StepModel {
    Reply(u16, Seq<char>),
    Check(Seq<char>, u32),
}

impl View for Step {
    type V = StepModel;

    open spec fn view(&self) -> StepModel {
        match self {
            Step::Reply(code, m) => StepModel::Reply(*code, m@),
            Step::Check(id, n) => StepModel::Check(id@, *n),
        }
    }
}

/// Reports go to `/calendar/attend`, as a POST of at most 256 bytes whose
/// body `parse` reads. `body` is what was read, or none if reading failed.
pub open spec fn spec_read_request(url: Seq<char>, post: bool, body: Option<Seq<char>>) -> StepModel {
    if url != "/calendar/attend"@ {
        StepModel::Reply(404, "Not found."@)
    } else if !post {
        StepModel::Reply(405, "Send a POST."@)
    } else {
        match body {
            None => StepModel::Reply(413, "Too long."@),
            Some(b) => if utf8_len(b) > 256 {
                StepModel::Reply(413, "Too long."@)
            } else {
                match spec_parse(b) {
                    None => StepModel::Reply(400, "Send a number between 1 and 1000 for a past event."@),
                    Some((id, n)) => StepModel::Check(id, n),
                }
            },
        }
    }
}

/// What a request is; every request, whatever it is, first forgets the
/// addresses of an earlier day.
pub fn read_request(st: &mut State, url: &str, post: bool, body: Option<&str>, today: i64) -> (r: Step)
    ensures
        r@ == spec_read_request(url@, post, match body { Some(b) => Some(b@), None => None }),
        final(st)@ == spec_turn_day(old(st)@, today),
{
    turn_day(st, today);
    if !eq_str(url, "/calendar/attend") {
        return Step::Reply(404, "Not found.");
    }
    if !post {
        return Step::Reply(405, "Send a POST.");
    }
    match body {
        None => Step::Reply(413, "Too long."),
        Some(b) => {
            if utf8_length(&chars_of(b)) > MAX_BODY {
                return Step::Reply(413, "Too long.");
            }
            match parse(b) {
                None => Step::Reply(400, "Send a number between 1 and 1000 for a past event."),
                Some((id, n)) => Step::Check(id, n),
            }
        },
    }
}

/// Where address `a` stands among the recent ones.
pub open spec fn recent_index(rs: Seq<(Seq<char>, i64, usize)>, a: Seq<char>) -> Option<int>
    decreases rs.len(),
{
    if rs.len() == 0 {
        None
    } else {
        match recent_index(rs.drop_last(), a) {
            Some(i) => Some(i),
            None => if rs.last().0 == a { Some(rs.len() - 1) } else { None },
        }
    }
}

/// Where event `id` stands among the reported ones.
pub open spec fn report_index(rs: Seq<(Seq<char>, Seq<Report>)>, id: Seq<char>) -> Option<int>
    decreases rs.len(),
{
    if rs.len() == 0 {
        None
    } else {
        match report_index(rs.drop_last(), id) {
            Some(i) => Some(i),
            None => if rs.last().0 == id { Some(rs.len() - 1) } else { None },
        }
    }
}

/// The state once the day is `today`: a new day forgets every address.
pub open spec fn spec_turn_day(st: StateModel, today: i64) -> StateModel {
    if today != st.day {
        StateModel { reports: st.reports, recent: seq![], seen: Set::empty(), day: today }
    } else {
        st
    }
}

/// What marks that `addr` reported `id` today: a hash of the two.
pub open spec fn seen_key(addr: Seq<char>, id: Seq<char>) -> u64 {
    fnv1a(encode_utf8(addr + " "@ + id))
}

/// The reports with one of `n` for event `id`, sent at `now`, added.
pub open spec fn reports_with_one(rs: Seq<(Seq<char>, Seq<Report>)>, id: Seq<char>, n: u32, now: i64)
    -> Seq<(Seq<char>, Seq<Report>)>
{
    match report_index(rs, id) {
        Some(k) => rs.update(k, (id, rs[k].1.push(Report { n, at: now }))),
        None => rs.push((id, seq![Report { n, at: now }])),
    }
}

/// What the server answers a well-formed report of `n` for event `id`
/// from `addr`, `past` telling whether the event is a past one: the state
/// afterwards, the status and message, and whether the report is to be
/// saved. A report to be saved is not taken yet: `spec_count_report` takes
/// it once the save succeeded, so a failed save leaves it untaken.
///
/// A new day forgets addresses. An address may report 20 times an hour,
/// and each event once a day; an event keeps a hundred reports. An address
/// told an event has enough reports is, for that event, taken as having
/// reported it that day.
pub open spec fn spec_take_report(
    st: StateModel,
    id: Seq<char>,
    n: u32,
    past: bool,
    addr: Seq<char>,
    today: i64,
    clock: i64,
) -> (StateModel, (u16, Seq<char>, bool)) {
    let st1 = spec_turn_day(st, today);
    if !past {
        (st1, (404, "No such past event."@, false))
    } else {
        let (recent2, i) = match recent_index(st1.recent, addr) {
            Some(i) => (st1.recent, i),
            None => (st1.recent.push((addr, clock, 0usize)), st1.recent.len() as int),
        };
        let e = recent2[i];
        let e2 = if clock - e.1 > HOUR_MS { (e.0, clock, 0usize) } else { e };
        let st3 = StateModel { recent: recent2.update(i, e2), ..st1 };
        if e2.2 >= PER_HOUR {
            (st3, (429, "That's a lot of reports; try again in an hour."@, false))
        } else if st1.seen.contains(seen_key(addr, id)) {
            (st3, (409, "Already counted, thanks!"@, false))
        } else if report_index(st1.reports, id) matches Some(k) && st1.reports[k].1.len() >= PER_EVENT {
            (StateModel { seen: st1.seen.insert(seen_key(addr, id)), ..st3 },
                (429, "This event has enough reports, thanks!"@, false))
        } else {
            (st3, (200, "Thanks! It shows on the page within the hour."@, true))
        }
    }
}

/// One more, short of overflowing.
pub open spec fn saturating_inc(c: usize) -> usize {
    if c < usize::MAX { (c + 1) as usize } else { c }
}

/// The state once a report that `spec_take_report` answered 200 is saved:
/// the report is kept, the address has reported the event today, and its
/// hour has one more report.
pub open spec fn spec_count_report(st: StateModel, id: Seq<char>, n: u32, addr: Seq<char>, clock: i64, now: i64)
    -> StateModel
{
    StateModel {
        reports: reports_with_one(st.reports, id, n, now),
        recent: match recent_index(st.recent, addr) {
            Some(i) => st.recent.update(i, (st.recent[i].0, st.recent[i].1, saturating_inc(st.recent[i].2))),
            None => st.recent.push((addr, clock, 1usize)),
        },
        seen: st.seen.insert(seen_key(addr, id)),
        day: st.day,
    }
}

fn find_recent(rs: &Vec<(String, i64, usize)>, a: &str) -> (r: Option<usize>)
    ensures
        match r {
            Some(i) => recent_index(rs@.map_values(|r: (String, i64, usize)| (r.0@, r.1, r.2)), a@) == Some(i as int)
                && i < rs@.len(),
            None => recent_index(rs@.map_values(|r: (String, i64, usize)| (r.0@, r.1, r.2)), a@) is None,
        },
{
    let ghost v = rs@.map_values(|r: (String, i64, usize)| (r.0@, r.1, r.2));
    let mut i: usize = 0;
    while i < rs.len()
        invariant
            i <= rs@.len(),
            v == rs@.map_values(|r: (String, i64, usize)| (r.0@, r.1, r.2)),
            recent_index(v.take(i as int), a@) is None,
        decreases rs@.len() - i,
    {
        assert(v.take(i + 1).drop_last() == v.take(i as int));
        if eq_str(rs[i].0.as_str(), a) {
            assert(recent_index(v.take(i + 1), a@) == Some(i as int));
            proof { lemma_recent_index_prefix(v, i + 1, a@); }
            return Some(i);
        }
        i = i + 1;
    }
    assert(v.take(rs@.len() as int) == v);
    None
}

proof fn lemma_recent_index(v: Seq<(Seq<char>, i64, usize)>, a: Seq<char>)
    ensures
        recent_index(v, a) matches Some(k) ==> 0 <= k < v.len() && v[k].0 == a,
    decreases v.len(),
{
    if v.len() > 0 {
        lemma_recent_index(v.drop_last(), a);
    }
}

proof fn lemma_recent_index_prefix(v: Seq<(Seq<char>, i64, usize)>, k: int, a: Seq<char>)
    requires
        0 <= k <= v.len(),
        recent_index(v.take(k), a) is Some,
    ensures
        recent_index(v, a) == recent_index(v.take(k), a),
    decreases v.len() - k,
{
    if k < v.len() {
        assert(v.drop_last().take(k) == v.take(k));
        lemma_recent_index_prefix(v.drop_last(), k, a);
    } else {
        assert(v.take(k) == v);
    }
}

fn find_report(rs: &Vec<(String, Vec<Report>)>, id: &str) -> (r: Option<usize>)
    ensures
        match r {
            Some(i) => report_index(rs@.map_values(|r: (String, Vec<Report>)| (r.0@, r.1@)), id@) == Some(i as int)
                && i < rs@.len(),
            None => report_index(rs@.map_values(|r: (String, Vec<Report>)| (r.0@, r.1@)), id@) is None,
        },
{
    let ghost v = rs@.map_values(|r: (String, Vec<Report>)| (r.0@, r.1@));
    let mut i: usize = 0;
    while i < rs.len()
        invariant
            i <= rs@.len(),
            v == rs@.map_values(|r: (String, Vec<Report>)| (r.0@, r.1@)),
            report_index(v.take(i as int), id@) is None,
        decreases rs@.len() - i,
    {
        assert(v.take(i + 1).drop_last() == v.take(i as int));
        if eq_str(rs[i].0.as_str(), id) {
            assert(report_index(v.take(i + 1), id@) == Some(i as int));
            proof { lemma_report_index_prefix(v, i + 1, id@); }
            return Some(i);
        }
        i = i + 1;
    }
    assert(v.take(rs@.len() as int) == v);
    None
}

proof fn lemma_report_index(v: Seq<(Seq<char>, Seq<Report>)>, id: Seq<char>)
    ensures
        report_index(v, id) matches Some(k) ==> 0 <= k < v.len() && v[k].0 == id,
    decreases v.len(),
{
    if v.len() > 0 {
        lemma_report_index(v.drop_last(), id);
    }
}

proof fn lemma_report_index_prefix(v: Seq<(Seq<char>, Seq<Report>)>, k: int, id: Seq<char>)
    requires
        0 <= k <= v.len(),
        report_index(v.take(k), id) is Some,
    ensures
        report_index(v, id) == report_index(v.take(k), id),
    decreases v.len() - k,
{
    if k < v.len() {
        assert(v.drop_last().take(k) == v.take(k));
        lemma_report_index_prefix(v.drop_last(), k, id);
    } else {
        assert(v.take(k) == v);
    }
}

/// Forgets every address once the day is not the one they are for.
pub fn turn_day(st: &mut State, today: i64)
    ensures
        final(st)@ == spec_turn_day(old(st)@, today),
{
    if today != st.day {
        st.day = today;
        st.seen = HashSet::new();
        st.recent = Vec::new();
    }
    assert(st@.recent =~= spec_turn_day(old(st)@, today).recent);
    assert(st@.seen =~= spec_turn_day(old(st)@, today).seen);
}

/// What to answer a well-formed report, and whether to save it; see
/// `spec_take_report`. `clock` is in milliseconds on a clock that only goes
/// forward, `today` the UTC day. A report to be saved is taken by
/// `count_report` once the save succeeded.
pub fn take_report(
    st: &mut State,
    id: &str,
    n: u32,
    past: bool,
    addr: &str,
    today: i64,
    clock: i64,
) -> (r: (u16, &'static str, bool))
    ensures
        (final(st)@, (r.0, r.1@, r.2)) == spec_take_report(old(st)@, id@, n, past, addr@, today, clock),
{
    turn_day(st, today);
    let ghost s1 = st@;
    if !past {
        return (404, "No such past event.", false);
    }
    let ghost recent1 = s1.recent;
    let i = match find_recent(&st.recent, addr) {
        Some(i) => i,
        None => {
            st.recent.push((string_of(&chars_of(addr)), clock, 0));
            assert(st@.recent =~= recent1.push((addr@, clock, 0usize)));
            st.recent.len() - 1
        },
    };
    let ghost recent2 = st@.recent;
    assert(recent2 == (match recent_index(recent1, addr@) {
        Some(j) => recent1,
        None => recent1.push((addr@, clock, 0usize)),
    }));
    assert(i as int == (match recent_index(recent1, addr@) {
        Some(j) => j,
        None => recent1.len() as int,
    }));
    let ghost e = recent2[i as int];
    let ghost e2 = if clock - e.1 > HOUR_MS { (e.0, clock, 0usize) } else { e };
    let since = st.recent[i].1;
    if (clock as i128) - (since as i128) > HOUR_MS as i128 {
        st.recent[i].1 = clock;
        st.recent[i].2 = 0;
    }
    assert(st@.recent =~= recent2.update(i as int, e2));
    assert(st@.reports == s1.reports && st@.seen == s1.seen && st@.day == s1.day);
    let count = st.recent[i].2;
    assert(count == e2.2);
    if count >= PER_HOUR {
        return (429, "That's a lot of reports; try again in an hour.", false);
    }
    let h = report_key(addr, id);
    if st.seen.contains(&h) {
        return (409, "Already counted, thanks!", false);
    }
    match find_report(&st.reports, id) {
        Some(k) => {
            assert(s1.reports[k as int].1 == st.reports@[k as int].1@);
            if st.reports[k].1.len() >= PER_EVENT {
                st.seen.insert(h);
                return (429, "This event has enough reports, thanks!", false);
            }
        },
        None => {},
    }
    (200, "Thanks! It shows on the page within the hour.", true)
}

fn report_key(addr: &str, id: &str) -> (r: u64)
    ensures
        r == seen_key(addr@, id@),
{
    let mut key = chars_of(addr);
    key.push(' ');
    crate::text::push_str(&mut key, id);
    assert(key@ =~= addr@ + " "@ + id@) by {
        reveal_strlit(" ");
    }
    hash(string_of(&key).as_str())
}

fn copy_reports(v: &Vec<Report>) -> (r: Vec<Report>)
    ensures
        r@ == v@,
{
    let mut out: Vec<Report> = Vec::new();
    let mut i: usize = 0;
    while i < v.len()
        invariant
            i <= v@.len(),
            out@ == v@.take(i as int),
        decreases v@.len() - i,
    {
        out.push(v[i]);
        assert(v@.take(i + 1) == v@.take(i as int).push(v@[i as int]));
        i = i + 1;
    }
    assert(v@.take(v@.len() as int) == v@);
    out
}

/// The reports as they are to be saved with one of `n` for event `id`, sent
/// at `now`, added; the state itself is left as it is.
pub fn reports_with(st: &State, id: &str, n: u32, now: i64) -> (r: Vec<(String, Vec<Report>)>)
    ensures
        r@.map_values(|r: (String, Vec<Report>)| (r.0@, r.1@)) == reports_with_one(st@.reports, id@, n, now),
{
    let ghost v = st@.reports;
    let mut out: Vec<(String, Vec<Report>)> = Vec::new();
    let mut i: usize = 0;
    while i < st.reports.len()
        invariant
            i <= st.reports@.len(),
            v == st@.reports,
            out@.map_values(|r: (String, Vec<Report>)| (r.0@, r.1@)) == v.take(i as int),
        decreases st.reports@.len() - i,
    {
        let ghost before = out@.map_values(|r: (String, Vec<Report>)| (r.0@, r.1@));
        let entry = (string_of(&chars_of(st.reports[i].0.as_str())), copy_reports(&st.reports[i].1));
        out.push(entry);
        assert(v[i as int] == (st.reports@[i as int].0@, st.reports@[i as int].1@));
        assert(out@.map_values(|r: (String, Vec<Report>)| (r.0@, r.1@)) =~= before.push(v[i as int]));
        assert(v.take(i + 1) =~= v.take(i as int).push(v[i as int]));
        i = i + 1;
    }
    assert(v.take(v.len() as int) =~= v);
    let ghost w = out@.map_values(|r: (String, Vec<Report>)| (r.0@, r.1@));
    assert(w == v);
    match find_report(&out, id) {
        Some(k) => {
            proof { lemma_report_index(v, id@); }
            let ghost before = out@;
            out[k].1.push(Report { n, at: now });
            assert(out@.map_values(|r: (String, Vec<Report>)| (r.0@, r.1@))
                =~= v.update(k as int, (id@, v[k as int].1.push(Report { n, at: now }))));
        },
        None => {
            let mut one: Vec<Report> = Vec::new();
            one.push(Report { n, at: now });
            assert(one@ =~= seq![Report { n, at: now }]);
            out.push((string_of(&chars_of(id)), one));
            assert(out@.map_values(|r: (String, Vec<Report>)| (r.0@, r.1@))
                =~= v.push((id@, seq![Report { n, at: now }])));
        },
    }
    out
}

/// Takes a report that `take_report` answered 200, once it is saved; see
/// `spec_count_report`.
pub fn count_report(st: &mut State, id: &str, n: u32, addr: &str, clock: i64, now: i64)
    ensures
        final(st)@ == spec_count_report(old(st)@, id@, n, addr@, clock, now),
{
    let ghost s0 = st@;
    match find_recent(&st.recent, addr) {
        Some(i) => {
            let c = st.recent[i].2;
            st.recent[i].2 = if c < usize::MAX { c + 1 } else { c };
        },
        None => {
            st.recent.push((string_of(&chars_of(addr)), clock, 1));
        },
    }
    let h = report_key(addr, id);
    st.seen.insert(h);
    assert(st@.reports == s0.reports);
    match find_report(&st.reports, id) {
        Some(k) => {
            proof { lemma_report_index(s0.reports, id@); }
            st.reports[k].1.push(Report { n, at: now });
            assert(st@.reports =~= s0.reports.update(k as int, (id@, s0.reports[k as int].1.push(Report { n, at: now }))));
        },
        None => {
            let mut one: Vec<Report> = Vec::new();
            one.push(Report { n, at: now });
            assert(one@ =~= seq![Report { n, at: now }]);
            st.reports.push((string_of(&chars_of(id)), one));
            assert(st@.reports =~= s0.reports.push((id@, seq![Report { n, at: now }])));
        },
    }
    assert(st@.reports =~= spec_count_report(s0, id@, n, addr@, clock, now).reports);
    assert(st@.recent =~= spec_count_report(s0, id@, n, addr@, clock, now).recent);
}

/// Where an address stands depends on the addresses alone.
proof fn lemma_recent_index_names(v: Seq<(Seq<char>, i64, usize)>, w: Seq<(Seq<char>, i64, usize)>, a: Seq<char>)
    requires
        v.len() == w.len(),
        forall|k: int| 0 <= k < v.len() ==> (#[trigger] v[k]).0 == w[k].0,
    ensures
        recent_index(v, a) == recent_index(w, a),
    decreases v.len(),
{
    if v.len() > 0 {
        assert forall|k: int| 0 <= k < v.drop_last().len() implies (#[trigger] v.drop_last()[k]).0 == w.drop_last()[k].0 by {
            assert(v.drop_last()[k] == v[k] && w.drop_last()[k] == w[k]);
        }
        lemma_recent_index_names(v.drop_last(), w.drop_last(), a);
    }
}

/// After a report answered 200 the address stands in the state at the
/// place its hour is kept, with fewer than twenty reports there.
proof fn lemma_taken_address(st: StateModel, id: Seq<char>, n: u32, past: bool, addr: Seq<char>, today: i64, clock: i64)
    requires
        spec_take_report(st, id, n, past, addr, today, clock).1.0 == 200,
    ensures
        ({
            let st2 = spec_take_report(st, id, n, past, addr, today, clock).0;
            &&& st2.day == today
            &&& st2.reports == st.reports
            &&& st2.seen == spec_turn_day(st, today).seen
            &&& !st2.seen.contains(seen_key(addr, id))
            &&& recent_index(st2.recent, addr) matches Some(i) && 0 <= i < st2.recent.len()
                && st2.recent[i].0 == addr && st2.recent[i].2 < PER_HOUR
            &&& (report_index(st2.reports, id) matches Some(k) ==> st2.reports[k].1.len() < PER_EVENT)
        }),
{
    let st1 = spec_turn_day(st, today);
    let (recent2, i) = match recent_index(st1.recent, addr) {
        Some(i) => (st1.recent, i),
        None => (st1.recent.push((addr, clock, 0usize)), st1.recent.len() as int),
    };
    lemma_recent_index(st1.recent, addr);
    lemma_recent_index(recent2, addr);
    assert(recent_index(recent2, addr) == Some(i)) by {
        if recent_index(st1.recent, addr) is None {
            assert(recent2.drop_last() == st1.recent);
        }
    }
    let e = recent2[i];
    let e2 = if clock - e.1 > HOUR_MS { (e.0, clock, 0usize) } else { e };
    let r3 = recent2.update(i, e2);
    assert forall|k: int| 0 <= k < recent2.len() implies (#[trigger] recent2[k]).0 == r3[k].0 by {}
    lemma_recent_index_names(recent2, r3, addr);
}

/// Once an address's report of an event is saved, nothing the same address
/// sends about that event later that day is counted.
pub proof fn law_one_report_per_address_event_and_day(
    st: StateModel,
    id: Seq<char>,
    n: u32,
    past: bool,
    addr: Seq<char>,
    today: i64,
    clock: i64,
    now: i64,
    n2: u32,
    past2: bool,
    clock2: i64,
)
    requires
        spec_take_report(st, id, n, past, addr, today, clock).1.0 == 200,
    ensures
        ({
            let saved = spec_count_report(spec_take_report(st, id, n, past, addr, today, clock).0, id, n, addr, clock, now);
            spec_take_report(saved, id, n2, past2, addr, today, clock2).1.0 != 200
        }),
{
    lemma_taken_address(st, id, n, past, addr, today, clock);
    let st2 = spec_take_report(st, id, n, past, addr, today, clock).0;
    let saved = spec_count_report(st2, id, n, addr, clock, now);
    assert(saved.day == today);
    assert(saved.seen.contains(seen_key(addr, id)));
}

/// A report answered 200 whose save failed is not taken: the reports and
/// what the address reported today are as they were, and sending the same
/// report again that day is answered 200 once more.
pub proof fn law_a_failed_save_takes_nothing(
    st: StateModel,
    id: Seq<char>,
    n: u32,
    past: bool,
    addr: Seq<char>,
    today: i64,
    clock: i64,
    n2: u32,
    clock2: i64,
)
    requires
        spec_take_report(st, id, n, past, addr, today, clock).1.0 == 200,
    ensures
        ({
            let st2 = spec_take_report(st, id, n, past, addr, today, clock).0;
            &&& st2.reports == st.reports
            &&& st2.seen == spec_turn_day(st, today).seen
            &&& spec_take_report(st2, id, n2, true, addr, today, clock2).1.0 == 200
        }),
{
    lemma_taken_address(st, id, n, past, addr, today, clock);
    let st2 = spec_take_report(st, id, n, past, addr, today, clock).0;
    assert(spec_turn_day(st2, today) == st2);
}

/// No event ever holds more than a hundred reports.
pub open spec fn reports_capped(st: StateModel) -> bool {
    forall|k: int| 0 <= k < st.reports.len() ==> (#[trigger] st.reports[k]).1.len() <= PER_EVENT
}

/// No address ever has more than twenty reports counted in its hour.
pub open spec fn hours_capped(st: StateModel) -> bool {
    forall|k: int| 0 <= k < st.recent.len() ==> (#[trigger] st.recent[k]).2 <= PER_HOUR
}

/// Answering a report, and saving one answered 200, keep every event at a
/// hundred reports at most and every address at twenty an hour at most.
pub proof fn law_reports_stay_capped(
    st: StateModel,
    id: Seq<char>,
    n: u32,
    past: bool,
    addr: Seq<char>,
    today: i64,
    clock: i64,
    now: i64,
)
    requires
        reports_capped(st),
        hours_capped(st),
    ensures
        reports_capped(spec_take_report(st, id, n, past, addr, today, clock).0),
        hours_capped(spec_take_report(st, id, n, past, addr, today, clock).0),
        spec_take_report(st, id, n, past, addr, today, clock).1.0 == 200 ==> {
            let saved = spec_count_report(spec_take_report(st, id, n, past, addr, today, clock).0, id, n, addr, clock, now);
            reports_capped(saved) && hours_capped(saved)
        },
{
    let st1 = spec_turn_day(st, today);
    let st2 = spec_take_report(st, id, n, past, addr, today, clock).0;
    assert(hours_capped(st1));
    if past {
        let (recent2, i) = match recent_index(st1.recent, addr) {
            Some(i) => (st1.recent, i),
            None => (st1.recent.push((addr, clock, 0usize)), st1.recent.len() as int),
        };
        lemma_recent_index(st1.recent, addr);
        assert forall|k: int| 0 <= k < recent2.len() implies (#[trigger] recent2[k]).2 <= PER_HOUR by {
            if k < st1.recent.len() {
                assert(recent2[k] == st1.recent[k]);
            }
        }
    }
    assert(reports_capped(st2));
    assert(hours_capped(st2));
    if spec_take_report(st, id, n, past, addr, today, clock).1.0 == 200 {
        lemma_taken_address(st, id, n, past, addr, today, clock);
        lemma_report_index(st2.reports, id);
        let saved = spec_count_report(st2, id, n, addr, clock, now);
        let i = recent_index(st2.recent, addr)->0;
        assert forall|k: int| 0 <= k < saved.recent.len() implies (#[trigger] saved.recent[k]).2 <= PER_HOUR by {
            if k != i {
                assert(saved.recent[k] == st2.recent[k]);
            }
        }
        assert forall|k: int| 0 <= k < saved.reports.len() implies (#[trigger] saved.reports[k]).1.len() <= PER_EVENT by {
            match report_index(st2.reports, id) {
                Some(j) => {
                    if k != j {
                        assert(saved.reports[k] == st2.reports[k]);
                    }
                },
                None => {
                    if k < st2.reports.len() {
                        assert(saved.reports[k] == st2.reports[k]);
                    }
                },
            }
        }
    }
}

} // verus!
