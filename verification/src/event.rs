//! One event, however many places announced it, and the rules for merging
//! cross-posts and cleaning up what the feeds send.

use vstd::prelude::*;
use crate::text::{
    chars_of, char_is_control, char_is_whitespace, collapse_whitespace, collapse_ws, contains,
    contains_seq, ends_with, eq_str, is_control, is_whitespace, join, join_from, slice_chars,
    split_char, split_on, spec_to_lowercase, starts_with, string_of, to_lowercase, trim, trim_start, trim_end,
    trim_chars, views, lemma_split_on_nonempty,
};
use crate::text::{split_alnum, alnum_split, utf8_len, utf8_length, utf8_length_wide, eq_chars, contains_str};
use crate::time::{DAY, munich, munich_local, format_local, spec_format_local};
use crate::text::{decimal, all_digits, is_ascii_digit, lemma_decimal_reads_back, push_decimal, push_str, push_chars, is_ascii_alphanumeric};
use crate::time::{valid_time, HOUR, MINUTE, munich_day, munich_day_of, convertible};

verus! {

pub const EXCERPT_CHARS: usize = 240;

/// The communities people can switch on and off, as (key, name). Keys are
/// part of feed URLs (`feeds/acx+ea.ics`), so renaming one breaks existing
/// subscriptions. The first three get a feed for every combination of them;
/// the rest, further Munich groups, one feed each.
pub open spec fn group_table() -> Seq<(Seq<char>, Seq<char>)> {
    seq![
        ("acx"@, "LW/ACX Munich"@),
        ("ea"@, "EA Munich"@),
        ("philosophia"@, "Philosophia Munich"@),
        ("mlphil"@, "Philosophy of ML reading group"@),
        ("geb"@, "Gödel, Escher, Bach reading group"@),
        ("agi"@, "AGI Munich"@),
        ("skeptics"@, "Skeptics in the Pub"@),
        ("science"@, "Science Club Munich"@),
        ("minds"@, "Minds in Motion"@),
        ("curious"@, "Lifelong Curious & Book Lovers"@),
        ("silentbooks"@, "Silent Book Club"@),
        ("culture"@, "Culture Club Munich"@),
    ]
}

pub open spec fn table_view(t: Seq<(&str, &str)>) -> Seq<(Seq<char>, Seq<char>)> {
    t.map_values(|p: (&str, &str)| (p.0@, p.1@))
}

/// `GROUPS`: the groups, in the order pages and feeds list them.
pub fn groups() -> (r: Vec<(&'static str, &'static str)>)
    ensures
        table_view(r@) == group_table(),
        r@.len() == 12,
{
    let r = vec![
        ("acx", "LW/ACX Munich"),
        ("ea", "EA Munich"),
        ("philosophia", "Philosophia Munich"),
        ("mlphil", "Philosophy of ML reading group"),
        ("geb", "Gödel, Escher, Bach reading group"),
        ("agi", "AGI Munich"),
        ("skeptics", "Skeptics in the Pub"),
        ("science", "Science Club Munich"),
        ("minds", "Minds in Motion"),
        ("curious", "Lifelong Curious & Book Lovers"),
        ("silentbooks", "Silent Book Club"),
        ("culture", "Culture Club Munich"),
    ];
    assert(table_view(r@) =~= group_table());
    r
}

/// The keys with a feed for every combination of them (`COMBO_GROUPS`).
pub open spec fn combo_keys() -> Seq<Seq<char>> {
    seq!["acx"@, "ea"@, "philosophia"@]
}

/// The keys shown until the visitor picks otherwise (`DEFAULT_GROUPS`).
pub open spec fn default_keys() -> Seq<Seq<char>> {
    seq!["acx"@, "ea"@]
}

pub open spec fn strs_view(v: Seq<&str>) -> Seq<Seq<char>> {
    v.map_values(|s: &str| s@)
}

pub fn combo_groups() -> (r: Vec<&'static str>)
    ensures
        strs_view(r@) == combo_keys(),
{
    let r = vec!["acx", "ea", "philosophia"];
    assert(strs_view(r@) =~= combo_keys());
    r
}

pub fn default_groups() -> (r: Vec<&'static str>)
    ensures
        strs_view(r@) == default_keys(),
{
    let r = vec!["acx", "ea"];
    assert(strs_view(r@) =~= default_keys());
    r
}

/// The first row of the table from `i` on whose key is `g`, or whose name
/// is `g` too when `by_name`.
pub open spec fn first_row_from(i: int, g: Seq<char>, by_name: bool) -> Option<int>
    decreases 12 - i,
{
    if i < 0 || i >= 12 {
        None
    } else if group_table()[i].0 == g || (by_name && group_table()[i].1 == g) {
        Some(i)
    } else {
        first_row_from(i + 1, g, by_name)
    }
}

/// The row whose key is `k`.
pub open spec fn key_row(k: Seq<char>) -> Option<int> {
    first_row_from(0, k, false)
}

/// The row whose key or name is `g`: caches written before groups became
/// keys hold display names.
pub open spec fn group_row(g: Seq<char>) -> Option<int> {
    first_row_from(0, g, true)
}

/// A key's display name; an unknown key stands for itself.
pub open spec fn spec_group_name(k: Seq<char>) -> Seq<char> {
    match key_row(k) {
        Some(i) => group_table()[i].1,
        None => k,
    }
}

pub open spec fn row_hit(i: int, g: Seq<char>, by_name: bool) -> bool {
    group_table()[i].0 == g || (by_name && group_table()[i].1 == g)
}

pub proof fn lemma_first_row_from(i: int, g: Seq<char>, by_name: bool)
    requires
        0 <= i <= 12,
    ensures
        match first_row_from(i, g, by_name) {
            Some(j) => i <= j < 12 && row_hit(j, g, by_name) && forall|k: int| i <= k < j ==> !row_hit(k, g, by_name),
            None => forall|k: int| i <= k < 12 ==> !row_hit(k, g, by_name),
        },
    decreases 12 - i,
{
    if i < 12 {
        lemma_first_row_from(i + 1, g, by_name);
    }
}

fn find_row(g: &str, by_name: bool) -> (r: Option<usize>)
    ensures
        r == match first_row_from(0, g@, by_name) {
            Some(i) => Some(i as usize),
            None => None::<usize>,
        },
        r matches Some(i) ==> i < 12 && first_row_from(0, g@, by_name) == Some(i as int),
{
    let t = groups();
    proof { lemma_first_row_from(0, g@, by_name); }
    let mut i: usize = 0;
    while i < t.len()
        invariant
            i <= 12,
            t@.len() == 12,
            table_view(t@) == group_table(),
            forall|k: int| 0 <= k < i ==> !row_hit(k, g@, by_name),
        decreases 12 - i,
    {
        assert(table_view(t@)[i as int] == (t@[i as int].0@, t@[i as int].1@));
        if eq_str(t[i].0, g) || (by_name && eq_str(t[i].1, g)) {
            assert(row_hit(i as int, g@, by_name));
            proof { lemma_first_row_from(0, g@, by_name); }
            return Some(i);
        }
        i = i + 1;
    }
    None
}

/// The row of the table whose key is `key`.
pub fn key_index(key: &str) -> (r: Option<usize>)
    ensures
        r == match key_row(key@) {
            Some(i) => Some(i as usize),
            None => None::<usize>,
        },
        r matches Some(i) ==> i < 12 && key_row(key@) == Some(i as int),
{
    find_row(key, false)
}

/// The row of the table whose key or name is `g`.
pub fn group_index(g: &str) -> (r: Option<usize>)
    ensures
        r == match group_row(g@) {
            Some(i) => Some(i as usize),
            None => None::<usize>,
        },
        r matches Some(i) ==> i < 12 && group_row(g@) == Some(i as int),
{
    find_row(g, true)
}

pub fn group_name(key: &str) -> (r: &str)
    ensures
        r@ == spec_group_name(key@),
{
    let t = groups();
    assert(group_table().len() == 12);
    match key_index(key) {
        Some(i) => {
            assert(table_view(t@)[i as int] == (t@[i as int].0@, t@[i as int].1@));
            let name: &str = t[i].1;
            assert(key_row(key@) == Some(i as int));
            assert(name@ == group_table()[i as int].1);
            name
        },
        None => key,
    }
}

// Text helpers

/// Feed text ends up on one line of the page and of the ICS file, so
/// control characters are dropped (a bare CR or LF would start a new ICS
/// content line), then the ends trimmed.
pub open spec fn without_controls(s: Seq<char>) -> Seq<char>
    decreases s.len(),
{
    if s.len() == 0 {
        seq![]
    } else if is_control(s.last()) {
        without_controls(s.drop_last())
    } else {
        without_controls(s.drop_last()).push(s.last())
    }
}

pub open spec fn spec_one_line(s: Seq<char>) -> Seq<char> {
    trim(without_controls(s))
}

pub fn one_line(s: &Vec<char>) -> (r: Vec<char>)
    ensures
        r@ == spec_one_line(s@),
{
    let mut kept: Vec<char> = Vec::new();
    let mut i: usize = 0;
    while i < s.len()
        invariant
            i <= s@.len(),
            kept@ == without_controls(s@.take(i as int)),
        decreases s@.len() - i,
    {
        assert(s@.take(i + 1).drop_last() == s@.take(i as int));
        if !char_is_control(s[i]) {
            kept.push(s[i]);
        }
        i = i + 1;
    }
    assert(s@.take(s@.len() as int) == s@);
    trim_chars(&kept)
}

/// Links are only ever web links; anything else a feed supplies
/// (`javascript:`, a URL carrying a line break) is not published.
pub open spec fn is_web_url(u: Seq<char>) -> bool {
    &&& ("https://"@.is_prefix_of(u) || "http://"@.is_prefix_of(u))
    &&& forall|i: int| 0 <= i < u.len() ==> !is_control(#[trigger] u[i]) && !is_whitespace(u[i])
}

pub fn web_url(url: &str) -> (r: bool)
    ensures
        r == is_web_url(url@),
{
    let u = chars_of(url);
    let a = starts_with(&u, "https://");
    let b = starts_with(&u, "http://");
    if !(a || b) {
        assert(!("https://"@.is_prefix_of(url@) || "http://"@.is_prefix_of(url@)));
        assert(!is_web_url(url@));
        return false;
    }
    let mut i: usize = 0;
    while i < u.len()
        invariant
            i <= u@.len(),
            u@ == url@,
            "https://"@.is_prefix_of(url@) || "http://"@.is_prefix_of(url@),
            forall|j: int| 0 <= j < i ==> !is_control(#[trigger] u@[j]) && !is_whitespace(u@[j]),
        decreases u@.len() - i,
    {
        if char_is_control(u[i]) || char_is_whitespace(u[i]) {
            assert(!(!is_control(u@[i as int]) && !is_whitespace(u@[i as int])));
            return false;
        }
        i = i + 1;
    }
    true
}

/// `trim_end_matches` with a string pattern: `p` stripped from the end of
/// `s` as long as it ends with it.
pub open spec fn strip_all(s: Seq<char>, p: Seq<char>) -> Seq<char>
    decreases s.len(),
{
    if p.len() > 0 && p.is_suffix_of(s) {
        strip_all(s.take(s.len() - p.len()), p)
    } else {
        s
    }
}

pub fn strip_all_suffix(s: &Vec<char>, p: &str) -> (r: Vec<char>)
    ensures
        r@ == strip_all(s@, p@),
{
    let pc = chars_of(p);
    if pc.len() == 0 {
        return slice_chars(s, 0, s.len());
    }
    let mut end = s.len();
    let mut cur = slice_chars(s, 0, end);
    assert(s@.subrange(0, end as int) == s@);
    assert(s@.take(end as int) == s@);
    while ends_with(&cur, p)
        invariant
            pc@ == p@,
            pc@.len() > 0,
            end <= s@.len(),
            cur@ == s@.take(end as int),
            strip_all(s@, p@) == strip_all(cur@, p@),
        decreases end,
    {
        assert(strip_all(cur@, p@) == strip_all(cur@.take(cur@.len() - p@.len()), p@));
        end = end - pc.len();
        assert(cur@.take(cur@.len() - p@.len()) == s@.take(end as int));
        cur = slice_chars(s, 0, end);
        assert(cur@ == s@.subrange(0, end as int));
    }
    assert(s@.subrange(0, s@.len() as int) == s@);
    cur
}


/// How many came to an event: a count, or only a floor ("at least 10").
#[derive(Clone, Copy, Debug, PartialEq, Eq, Structural)]
pub struct Came {
    pub n: u32,
    pub at_least: bool,
}

/// One event. Times are seconds since 1970-01-01T00:00:00 UTC.
#[derive(Debug)]
pub struct Event {
    /// Permalink anchor and file name, e.g. `2026-09-26-petrov-day-ritual`.
    /// Assigned after merging.
    pub id: String,
    pub title: String,
    pub start: i64,
    pub end: Option<i64>,
    pub location: String,
    pub online: bool,
    pub excerpt: String,
    /// Keys from the group table.
    pub groups: Vec<String>,
    /// (source label, url); the first one is the event's canonical link.
    pub links: Vec<(String, String)>,
    /// Organised only in a group chat: nothing to link to.
    pub chat: bool,
    /// How many came, by visitors' reports or the organisers' count.
    pub attended: Option<Came>,
    /// How many said they would come: a page's RSVP count or a chat poll's
    /// yes votes. Cross-posts keep the largest.
    pub signups: u32,
    /// The turnout forecast for an upcoming event.
    pub expected: Option<u32>,
}

/// An event as the contracts see it.
pub struct EventModel {
    pub id: Seq<char>,
    pub title: Seq<char>,
    pub start: i64,
    pub end: Option<i64>,
    pub location: Seq<char>,
    pub online: bool,
    pub excerpt: Seq<char>,
    pub groups: Seq<Seq<char>>,
    pub links: Seq<(Seq<char>, Seq<char>)>,
    pub chat: bool,
    pub attended: Option<Came>,
    pub signups: u32,
    pub expected: Option<u32>,
}

pub open spec fn string_views(v: Seq<String>) -> Seq<Seq<char>> {
    v.map_values(|s: String| s@)
}

pub open spec fn link_views(v: Seq<(String, String)>) -> Seq<(Seq<char>, Seq<char>)> {
    v.map_values(|l: (String, String)| (l.0@, l.1@))
}

impl View for Event {
    type V = EventModel;

    open spec fn view(&self) -> EventModel {
        EventModel {
            id: self.id@,
            title: self.title@,
            start: self.start,
            end: self.end,
            location: self.location@,
            online: self.online,
            excerpt: self.excerpt@,
            groups: string_views(self.groups@),
            links: link_views(self.links@),
            chat: self.chat,
            attended: self.attended,
            signups: self.signups,
            expected: self.expected,
        }
    }
}

impl EventModel {
    /// Its times are ones the calendar works with.
    pub open spec fn wf(self) -> bool {
        valid_time(self.start as int) && match self.end {
            Some(e) => valid_time(e as int),
            None => true,
        }
    }

    /// Reported attendance if anyone reported it, else the sign-ups.
    pub open spec fn headcount(self) -> Option<u32> {
        match self.attended {
            Some(c) => Some(c.n),
            None => if self.signups > 0 { Some(self.signups) } else { None },
        }
    }

    pub open spec fn place(self) -> Seq<char> {
        if self.online && self.location.len() == 0 {
            "Online"@
        } else {
            self.location
        }
    }

    pub open spec fn end_or_default(self) -> int {
        match self.end {
            Some(e) => e as int,
            None => self.start + 3 * HOUR,
        }
    }

    pub open spec fn in_any(self, keys: Seq<Seq<char>>) -> bool {
        exists|i: int| 0 <= i < self.groups.len() && keys.contains(#[trigger] self.groups[i])
    }
}

pub open spec fn models(v: Seq<Event>) -> Seq<EventModel> {
    v.map_values(|e: Event| e@)
}

pub open spec fn all_wf(v: Seq<Event>) -> bool {
    forall|i: int| 0 <= i < v.len() ==> (#[trigger] v[i])@.wf()
}

/// The event one announcement makes: its title and location trimmed, an
/// excerpt of its text, its group, and the link to it.
pub open spec fn spec_new(
    title: Seq<char>,
    start: i64,
    end: Option<i64>,
    location: Seq<char>,
    online: bool,
    text: Seq<char>,
    group: Seq<char>,
    label: Seq<char>,
    url: Seq<char>,
) -> EventModel {
    EventModel {
        id: seq![],
        title: trim(title),
        start,
        end,
        location: trim(location),
        online,
        excerpt: spec_excerpt(spec_drop_title(text, trim(title))),
        groups: seq![group],
        links: seq![(label, url)],
        chat: false,
        attended: None,
        signups: 0,
        expected: None,
    }
}

/// What an announcement says about an event, as a source read it.
pub struct Raw<'a> {
    pub title: &'a str,
    pub start: i64,
    pub end: Option<i64>,
    pub location: &'a str,
    pub online: bool,
    pub text: &'a str,
    pub group: &'a str,
    pub label: &'a str,
    pub url: &'a str,
}

// Excerpts

pub open spec fn is_excerpt_tail(c: char) -> bool {
    c == ',' || c == '.' || c == ';' || c == ':' || c == '–' || c == '-'
}

fn excerpt_tail_char(c: char) -> (r: bool)
    ensures
        r == is_excerpt_tail(c),
{
    c == ',' || c == '.' || c == ';' || c == ':' || c == '–' || c == '-'
}

/// `trim_end_matches([',', '.', ';', ':', '–', '-'])`.
pub open spec fn trim_excerpt_tail(s: Seq<char>) -> Seq<char>
    decreases s.len(),
{
    if s.len() > 0 && is_excerpt_tail(s.last()) {
        trim_excerpt_tail(s.drop_last())
    } else {
        s
    }
}

/// The last position of `c` in `s`.
pub open spec fn last_index_of(s: Seq<char>, c: char) -> Option<int>
    decreases s.len(),
{
    if s.len() == 0 {
        None
    } else if s.last() == c {
        Some(s.len() - 1)
    } else {
        last_index_of(s.drop_last(), c)
    }
}

/// The text with its whitespace collapsed, cut after `EXCERPT_CHARS`
/// characters at the last space, loose punctuation dropped and ` …` added.
pub open spec fn spec_excerpt(text: Seq<char>) -> Seq<char> {
    let t = collapse_ws(text);
    if t.len() <= EXCERPT_CHARS {
        t
    } else {
        let cut = t.take(EXCERPT_CHARS as int);
        let head = match last_index_of(cut, ' ') {
            Some(i) => cut.take(i),
            None => cut,
        };
        trim_excerpt_tail(head) + " …"@
    }
}

pub proof fn lemma_last_index_of(s: Seq<char>, c: char)
    ensures
        match last_index_of(s, c) {
            Some(i) => 0 <= i < s.len() && s[i] == c && forall|j: int| i < j < s.len() ==> s[j] != c,
            None => forall|j: int| 0 <= j < s.len() ==> s[j] != c,
        },
    decreases s.len(),
{
    if s.len() > 0 {
        let t = s.drop_last();
        lemma_last_index_of(t, c);
        assert forall|j: int| 0 <= j < t.len() implies t[j] == s[j] by {}
    }
}

pub fn excerpt_chars(text: &Vec<char>) -> (r: Vec<char>)
    ensures
        r@ == spec_excerpt(text@),
{
    let t = collapse_whitespace(text);
    if t.len() <= EXCERPT_CHARS {
        return t;
    }
    let cut = slice_chars(&t, 0, EXCERPT_CHARS);
    assert(cut@ == t@.take(EXCERPT_CHARS as int));
    let mut k = cut.len();
    while k > 0 && cut[k - 1] != ' '
        invariant
            k <= cut@.len(),
            forall|j: int| k <= j < cut@.len() ==> cut@[j] != ' ',
        decreases k,
    {
        k = k - 1;
    }
    proof { lemma_last_index_of(cut@, ' '); }
    let head_len = if k > 0 { k - 1 } else { cut.len() };
    assert(match last_index_of(cut@, ' ') {
        Some(i) => i == head_len,
        None => head_len == cut@.len(),
    });
    let mut end = head_len;
    while end > 0 && excerpt_tail_char(cut[end - 1])
        invariant
            end <= head_len <= cut@.len(),
            trim_excerpt_tail(cut@.take(head_len as int)) == trim_excerpt_tail(cut@.take(end as int)),
        decreases end,
    {
        assert(cut@.take(end as int).drop_last() == cut@.take(end - 1));
        end = end - 1;
    }
    let mut out = slice_chars(&cut, 0, end);
    assert(out@ == cut@.take(end as int));
    assert(cut@.take(head_len as int) == if head_len == cut@.len() { cut@ } else { cut@.take(head_len as int) });
    assert(cut@.take(cut@.len() as int) == cut@);
    out.push(' ');
    out.push('…');
    assert(out@ == trim_excerpt_tail(cut@.take(head_len as int)) + " …"@) by {
        reveal_strlit(" …");
    }
    out
}

pub fn excerpt(text: &str) -> (r: String)
    ensures
        r@ == spec_excerpt(text@),
{
    let t = chars_of(text);
    let e = excerpt_chars(&t);
    string_of(&e)
}


/// A line without the `\r` of a `\r\n` ending.
pub open spec fn strip_cr(l: Seq<char>) -> Seq<char> {
    if l.len() > 0 && l.last() == '\r' {
        l.drop_last()
    } else {
        l
    }
}

/// `str::lines`: split at `\n`, a `\r` before it dropped, and no empty
/// line after a final `\n`.
pub open spec fn spec_lines(s: Seq<char>) -> Seq<Seq<char>> {
    let p = split_on(s, '\n');
    let n = p.len();
    let k = if p[n - 1].len() == 0 { n - 1 } else { n as int };
    Seq::new(k as nat, |i: int| if i < n - 1 { strip_cr(p[i]) } else { p[i] })
}

pub fn lines_of(s: &Vec<char>) -> (r: Vec<Vec<char>>)
    ensures
        views(r@) == spec_lines(s@),
{
    let p = split_char(s, '\n');
    proof { lemma_split_on_nonempty(s@, '\n'); }
    assert(p@.len() == split_on(s@, '\n').len());
    let n = p.len();
    let k = if p[n - 1].len() == 0 { n - 1 } else { n };
    let mut out: Vec<Vec<char>> = Vec::new();
    let mut i: usize = 0;
    while i < k
        invariant
            i <= k <= n,
            n == p@.len(),
            n > 0,
            k == if split_on(s@, '\n')[n - 1].len() == 0 { n - 1 } else { n as int },
            views(p@) == split_on(s@, '\n'),
            views(out@) == spec_lines(s@).take(i as int),
        decreases k - i,
    {
        assert(views(p@)[i as int] == p@[i as int]@);
        let line = &p[i];
        let mut l = slice_chars(line, 0, line.len());
        assert(l@ == line@) by { assert(line@.subrange(0, line@.len() as int) == line@); }
        if i + 1 < n && l.len() > 0 && l[l.len() - 1] == '\r' {
            l.pop();
        }
        let ghost before = out@;
        out.push(l);
        assert(views(out@) =~= views(before).push(l@));
        assert(spec_lines(s@).take(i + 1) =~= spec_lines(s@).take(i as int).push(spec_lines(s@)[i as int]));
        i = i + 1;
    }
    assert(spec_lines(s@).take(k as int) =~= spec_lines(s@));
    out
}

/// How many of the lines from `i` on, in a row, contain `title`
/// (both lowercased).
pub open spec fn title_lines_from(ls: Seq<Seq<char>>, title: Seq<char>, i: int) -> nat
    decreases ls.len() - i,
{
    if i < 0 || i >= ls.len() {
        0
    } else if contains_seq(spec_to_lowercase(ls[i]), title) {
        1 + title_lines_from(ls, title, i + 1)
    } else {
        0
    }
}

/// Announcements often open by repeating the title, which the card
/// already shows: the lines that do are dropped.
pub open spec fn spec_drop_title(text: Seq<char>, title: Seq<char>) -> Seq<char> {
    let ls = spec_lines(trim(text));
    join(ls.skip(title_lines_from(ls, spec_to_lowercase(title), 0) as int), "\n"@)
}

/// The lowercased line contains `title`.
fn line_has(line: &Vec<char>, title: &Vec<char>) -> (r: bool)
    ensures
        r == contains_seq(spec_to_lowercase(line@), title@),
{
    let lower = chars_of(&to_lowercase(&string_of(line)));
    contains(&lower, title)
}

pub fn drop_title(text: &str, title: &str) -> (r: Vec<char>)
    ensures
        r@ == spec_drop_title(text@, title@),
{
    let tl = chars_of(&to_lowercase(title));
    let t = chars_of(text);
    let tt = trim_chars(&t);
    let ls = lines_of(&tt);
    let ghost lsv = views(ls@);
    let mut i: usize = 0;
    while i < ls.len() && line_has(&ls[i], &tl)
        invariant
            i <= ls@.len(),
            lsv == views(ls@),
            title_lines_from(lsv, tl@, 0) == i + title_lines_from(lsv, tl@, i as int),
        decreases ls@.len() - i,
    {
        assert(lsv[i as int] == ls@[i as int]@);
        i = i + 1;
    }
    assert(i < ls@.len() ==> lsv[i as int] == ls@[i as int]@);
    assert(title_lines_from(lsv, tl@, i as int) == 0);
    join_from(&ls, i, "\n")
}

impl Event {
    pub fn new(r: Raw) -> (e: Self)
        ensures
            e@ == spec_new(r.title@, r.start, r.end, r.location@, r.online, r.text@, r.group@, r.label@, r.url@),
    {
        let title_chars = trim_chars(&chars_of(r.title));
        let title = string_of(&title_chars);
        let body = drop_title(r.text, title.as_str());
        let excerpt = string_of(&excerpt_chars(&body));
        let location = string_of(&trim_chars(&chars_of(r.location)));
        let groups = vec![r.group.to_owned()];
        let links = vec![(r.label.to_owned(), r.url.to_owned())];
        let e = Event {
            id: String::new(),
            title,
            start: r.start,
            end: r.end,
            location,
            online: r.online,
            excerpt,
            groups,
            links,
            chat: false,
            attended: None,
            signups: 0,
            expected: None,
        };
        assert(e@.groups =~= seq![r.group@]);
        assert(e@.links =~= seq![(r.label@, r.url@)]);
        e
    }

    /// Reported attendance if anyone reported it, else the sign-ups.
    pub fn headcount(&self) -> (r: Option<u32>)
        ensures
            r == self@.headcount(),
    {
        match self.attended {
            Some(c) => Some(c.n),
            None => if self.signups > 0 { Some(self.signups) } else { None },
        }
    }

    /// How many signed up.
    pub fn signed_up(&self) -> (r: u32)
        ensures
            r == self.signups,
    {
        self.signups
    }

    pub fn place(&self) -> (r: &str)
        ensures
            r@ == self@.place(),
    {
        if self.online && self.location.as_str().is_empty() {
            "Online"
        } else {
            self.location.as_str()
        }
    }

    /// Calendar apps need an end; announcements often leave it out, and
    /// then it is three hours after the start.
    pub fn end_or_default(&self) -> (r: i64)
        requires
            self@.wf(),
        ensures
            r == self@.end_or_default(),
    {
        match self.end {
            Some(e) => e,
            None => self.start + 3 * HOUR,
        }
    }

    pub fn in_any(&self, keys: &Vec<&str>) -> (r: bool)
        ensures
            r == self@.in_any(strs_view(keys@)),
    {
        let mut i: usize = 0;
        while i < self.groups.len()
            invariant
                i <= self.groups@.len(),
                forall|j: int| 0 <= j < i ==> !strs_view(keys@).contains(#[trigger] self@.groups[j]),
            decreases self.groups@.len() - i,
        {
            let g = self.groups[i].as_str();
            assert(self@.groups[i as int] == g@);
            let mut k: usize = 0;
            while k < keys.len()
                invariant
                    k <= keys@.len(),
                    i < self.groups@.len(),
                    g@ == self@.groups[i as int],
                    forall|j: int| 0 <= j < k ==> strs_view(keys@)[j] != g@,
                decreases keys@.len() - k,
            {
                if eq_str(keys[k], g) {
                    assert(strs_view(keys@)[k as int] == g@);
                    assert(strs_view(keys@).contains(self@.groups[i as int]));
                    return true;
                }
                k = k + 1;
            }
            i = i + 1;
        }
        false
    }
}


// Sanitising

/// The keys, in table order, that some group in `gs` names by key or by
/// display name, from row `i` on.
pub open spec fn keys_from(gs: Seq<Seq<char>>, i: int) -> Seq<Seq<char>>
    decreases 12 - i,
{
    if i < 0 || i >= 12 {
        seq![]
    } else if exists|j: int| 0 <= j < gs.len() && group_row(#[trigger] gs[j]) == Some(i) {
        seq![group_table()[i].0] + keys_from(gs, i + 1)
    } else {
        keys_from(gs, i + 1)
    }
}

/// The groups an event keeps: known ones only, as keys, each once, in the
/// order of the table.
pub open spec fn spec_group_keys(gs: Seq<Seq<char>>) -> Seq<Seq<char>> {
    keys_from(gs, 0)
}

pub proof fn lemma_keys_from_split(gs: Seq<Seq<char>>, i: int)
    requires
        0 <= i <= 12,
    ensures
        keys_from(gs, 0) == keys_from(gs, 0).take(keys_from(gs, 0).len() - keys_from(gs, i).len()) + keys_from(gs, i),
        keys_from(gs, i).len() <= keys_from(gs, 0).len(),
    decreases i,
{
    if i > 0 {
        lemma_keys_from_split(gs, i - 1);
        let a = keys_from(gs, 0);
        let b = keys_from(gs, i - 1);
        let c = keys_from(gs, i);
        if exists|j: int| 0 <= j < gs.len() && group_row(#[trigger] gs[j]) == Some(i - 1) {
            assert(b == seq![group_table()[i - 1].0] + c);
        } else {
            assert(b == c);
        }
        assert(a == a.take(a.len() - c.len()) + c);
    } else {
        assert(keys_from(gs, 0).take(0) + keys_from(gs, 0) =~= keys_from(gs, 0));
    }
}

/// The keys, in table order, of the groups `gs` names.
pub fn group_keys(gs: &Vec<String>) -> (r: Vec<String>)
    ensures
        string_views(r@) == spec_group_keys(string_views(gs@)),
{
    let ghost gv = string_views(gs@);
    let mut rows: Vec<Option<usize>> = Vec::new();
    let mut j: usize = 0;
    while j < gs.len()
        invariant
            j <= gs@.len(),
            gv == string_views(gs@),
            rows@.len() == j,
            forall|k: int| 0 <= k < j ==> #[trigger] rows@[k] == match group_row(gv[k]) {
                Some(i) => Some(i as usize),
                None => None::<usize>,
            },
            forall|k: int| 0 <= k < j ==> (#[trigger] rows@[k] matches Some(i) ==> i < 12),
        decreases gs@.len() - j,
    {
        assert(gv[j as int] == gs@[j as int]@);
        rows.push(group_index(gs[j].as_str()));
        j = j + 1;
    }
    let t = groups();
    let mut out: Vec<String> = Vec::new();
    let mut i: usize = 0;
    while i < 12
        invariant
            i <= 12,
            t@.len() == 12,
            table_view(t@) == group_table(),
            rows@.len() == gv.len(),
            forall|k: int| 0 <= k < rows@.len() ==> #[trigger] rows@[k] == match group_row(gv[k]) {
                Some(i) => Some(i as usize),
                None => None::<usize>,
            },
            forall|k: int| 0 <= k < rows@.len() ==> (#[trigger] rows@[k] matches Some(i) ==> i < 12),
            string_views(out@) + keys_from(gv, i as int) == keys_from(gv, 0),
        decreases 12 - i,
    {
        let mut found = false;
        let mut k: usize = 0;
        while k < rows.len()
            invariant
                k <= rows@.len(),
                i < 12,
                found == exists|m: int| 0 <= m < k && group_row(#[trigger] gv[m]) == Some(i as int),
                rows@.len() == gv.len(),
                forall|k: int| 0 <= k < rows@.len() ==> #[trigger] rows@[k] == match group_row(gv[k]) {
                    Some(i) => Some(i as usize),
                    None => None::<usize>,
                },
                forall|k: int| 0 <= k < rows@.len() ==> (#[trigger] rows@[k] matches Some(i) ==> i < 12),
            decreases rows@.len() - k,
        {
            proof { lemma_first_row_from(0, gv[k as int], true); }
            if rows[k] == Some(i) {
                assert(group_row(gv[k as int]) == Some(i as int));
                found = true;
            } else {
                assert(group_row(gv[k as int]) != Some(i as int));
            }
            k = k + 1;
        }
        let ghost before = out@;
        if found {
            assert(table_view(t@)[i as int] == (t@[i as int].0@, t@[i as int].1@));
            out.push(t[i].0.to_owned());
            assert(string_views(out@) =~= string_views(before).push(group_table()[i as int].0));
            assert(keys_from(gv, i as int) == seq![group_table()[i as int].0] + keys_from(gv, i + 1));
            assert(string_views(out@) + keys_from(gv, i + 1) =~= string_views(before) + keys_from(gv, i as int));
        }
        i = i + 1;
    }
    assert(string_views(out@) + keys_from(gv, 12) =~= string_views(out@));
    out
}

/// The links of `ls` that are web links.
pub open spec fn web_links(ls: Seq<(Seq<char>, Seq<char>)>) -> Seq<(Seq<char>, Seq<char>)>
    decreases ls.len(),
{
    if ls.len() == 0 {
        seq![]
    } else if is_web_url(ls.last().1) {
        web_links(ls.drop_last()).push(ls.last())
    } else {
        web_links(ls.drop_last())
    }
}

/// An event as `sanitize` cleans it: one-line title and location (without
/// a trailing country), web links only, and known groups as keys.
pub open spec fn sanitized(m: EventModel) -> EventModel {
    EventModel {
        title: spec_one_line(m.title),
        location: spec_one_line(strip_all(strip_all(m.location, ", Germany"@), ", Deutschland"@)),
        links: web_links(m.links),
        groups: spec_group_keys(m.groups),
        ..m
    }
}

/// What survives cleaning: a title, a group, and a link unless organised
/// only in a chat.
pub open spec fn keeps(m: EventModel) -> bool {
    (m.chat || m.links.len() > 0) && m.groups.len() > 0 && m.title.len() > 0
}

pub open spec fn spec_sanitize(ms: Seq<EventModel>) -> Seq<EventModel>
    decreases ms.len(),
{
    if ms.len() == 0 {
        seq![]
    } else if keeps(sanitized(ms.last())) {
        spec_sanitize(ms.drop_last()).push(sanitized(ms.last()))
    } else {
        spec_sanitize(ms.drop_last())
    }
}

fn sanitize_one(e: Event) -> (r: Event)
    ensures
        r@ == sanitized(e@),
{
    let title = string_of(&one_line(&chars_of(e.title.as_str())));
    let loc = chars_of(e.location.as_str());
    let loc1 = strip_all_suffix(&loc, ", Germany");
    let loc2 = strip_all_suffix(&loc1, ", Deutschland");
    let location = string_of(&one_line(&loc2));
    let mut links: Vec<(String, String)> = Vec::new();
    let mut i: usize = 0;
    while i < e.links.len()
        invariant
            i <= e.links@.len(),
            link_views(links@) == web_links(link_views(e.links@).take(i as int)),
        decreases e.links@.len() - i,
    {
        let ghost lv = link_views(e.links@);
        assert(lv.take(i + 1).drop_last() == lv.take(i as int));
        assert(lv.take(i + 1).last() == (e.links@[i as int].0@, e.links@[i as int].1@));
        let ghost before = links@;
        if web_url(e.links[i].1.as_str()) {
            let l = (e.links[i].0.clone(), e.links[i].1.clone());
            links.push(l);
            assert(link_views(links@) =~= link_views(before).push(lv[i as int]));
        }
        i = i + 1;
    }
    assert(link_views(e.links@).take(e.links@.len() as int) == link_views(e.links@));
    let groups = group_keys(&e.groups);
    Event {
        id: e.id,
        title,
        start: e.start,
        end: e.end,
        location,
        online: e.online,
        excerpt: e.excerpt,
        groups,
        links,
        chat: e.chat,
        attended: e.attended,
        signups: e.signups,
        expected: e.expected,
    }
}

/// Applied to fetched, cached and archived events alike, before anything
/// is rendered.
pub fn sanitize(events: Vec<Event>) -> (r: Vec<Event>)
    ensures
        models(r@) == spec_sanitize(models(events@)),
{
    let ghost orig = models(events@);
    let mut out: Vec<Event> = Vec::new();
    for e in it: events.into_iter()
        invariant
            orig == models(it.seq()),
            models(out@) == spec_sanitize(orig.take(it.index() as int)),
    {
        let ghost k = it.index() as int;
        assert(orig.take(k + 1).drop_last() == orig.take(k));
        assert(orig.take(k + 1).last() == e@);
        let c = sanitize_one(e);
        let keep = (c.chat || c.links.len() > 0) && c.groups.len() > 0 && !c.title.as_str().is_empty();
        assert(keep == keeps(c@)) by {
            assert(c@.links.len() == c.links@.len());
            assert(c@.groups.len() == c.groups@.len());
        }
        let ghost before = out@;
        if keep {
            out.push(c);
            assert(models(out@) =~= models(before).push(c@));
        }
    }
    assert(orig.take(orig.len() as int) == orig);
    out
}


// Merging cross-posts

pub open spec fn stopwords() -> Seq<Seq<char>> {
    seq![
        "a"@, "an"@, "and"@, "at"@, "for"@, "in"@, "of"@, "on"@, "the"@, "to"@, "with"@,
        "munich"@, "münchen"@, "ea"@, "acx"@, "lw"@, "meetup"@, "meetups"@, "event"@, "events"@,
    ]
}

fn stopword_list() -> (r: Vec<&'static str>)
    ensures
        strs_view(r@) == stopwords(),
{
    let r = vec![
        "a", "an", "and", "at", "for", "in", "of", "on", "the", "to", "with", "munich", "münchen",
        "ea", "acx", "lw", "meetup", "meetups", "event", "events",
    ];
    assert(strs_view(r@) =~= stopwords());
    r
}

/// `trim_end_matches('s')`.
pub open spec fn trim_end_s(w: Seq<char>) -> Seq<char>
    decreases w.len(),
{
    if w.len() > 0 && w.last() == 's' {
        trim_end_s(w.drop_last())
    } else {
        w
    }
}

/// A title word as it is compared: words of more than three bytes lose
/// their trailing `s`es.
pub open spec fn stem(w: Seq<char>) -> Seq<char> {
    if utf8_len(w) > 3 {
        trim_end_s(w)
    } else {
        w
    }
}

/// The words kept of `ps`, stemmed, in order, repeats included.
pub open spec fn word_list(ps: Seq<Seq<char>>) -> Seq<Seq<char>>
    decreases ps.len(),
{
    if ps.len() == 0 {
        seq![]
    } else if ps.last().len() > 0 && !stopwords().contains(ps.last()) {
        word_list(ps.drop_last()).push(stem(ps.last()))
    } else {
        word_list(ps.drop_last())
    }
}

/// `ws` with each word once, where it first occurs.
pub open spec fn dedup(ws: Seq<Seq<char>>) -> Seq<Seq<char>>
    decreases ws.len(),
{
    if ws.len() == 0 {
        seq![]
    } else if dedup(ws.drop_last()).contains(ws.last()) {
        dedup(ws.drop_last())
    } else {
        dedup(ws.drop_last()).push(ws.last())
    }
}

/// The set of a title's words: lowercased, split at everything that is not
/// alphanumeric, without stopwords, stemmed; each once.
pub open spec fn spec_title_words(title: Seq<char>) -> Seq<Seq<char>> {
    dedup(word_list(alnum_split(spec_to_lowercase(title))))
}

pub proof fn lemma_dedup_no_duplicates(ws: Seq<Seq<char>>)
    ensures
        dedup(ws).no_duplicates(),
        forall|w: Seq<char>| dedup(ws).contains(w) <==> ws.contains(w),
    decreases ws.len(),
{
    if ws.len() > 0 {
        lemma_dedup_no_duplicates(ws.drop_last());
        let d = dedup(ws.drop_last());
        assert forall|w: Seq<char>| dedup(ws).contains(w) <==> ws.contains(w) by {
            if ws.contains(w) {
                let i = choose|i: int| 0 <= i < ws.len() && ws[i] == w;
                if i < ws.len() - 1 {
                    assert(ws.drop_last()[i] == w);
                }
            }
            if ws.drop_last().contains(w) {
                let i = choose|i: int| 0 <= i < ws.drop_last().len() && ws.drop_last()[i] == w;
                assert(ws[i] == w);
            }
            if !d.contains(ws.last()) {
                assert(d.push(ws.last()).last() == ws.last());
                if d.push(ws.last()).contains(w) && w != ws.last() {
                    let i = choose|i: int| 0 <= i < d.push(ws.last()).len() && d.push(ws.last())[i] == w;
                    assert(d[i] == w);
                }
                if d.contains(w) {
                    let i = choose|i: int| 0 <= i < d.len() && d[i] == w;
                    assert(d.push(ws.last())[i] == w);
                }
            }
        }
    }
}

fn is_stopword(w: &Vec<char>, stops: &Vec<&str>) -> (r: bool)
    requires
        strs_view(stops@) == stopwords(),
    ensures
        r == stopwords().contains(w@),
{
    let mut i: usize = 0;
    while i < stops.len()
        invariant
            i <= stops@.len(),
            strs_view(stops@) == stopwords(),
            forall|j: int| 0 <= j < i ==> stopwords()[j] != w@,
        decreases stops@.len() - i,
    {
        let s = chars_of(stops[i]);
        assert(stopwords()[i as int] == stops@[i as int]@);
        if eq_chars(&s, w) {
            return true;
        }
        i = i + 1;
    }
    false
}

fn stem_word(w: &Vec<char>) -> (r: Vec<char>)
    ensures
        r@ == stem(w@),
{
    let n = utf8_length(w);
    if n > 3 {
        let mut end = w.len();
        assert(w@.take(w@.len() as int) == w@);
        while end > 0 && w[end - 1] == 's'
            invariant
                end <= w@.len(),
                trim_end_s(w@) == trim_end_s(w@.take(end as int)),
            decreases end,
        {
            assert(w@.take(end as int).drop_last() == w@.take(end - 1));
            end = end - 1;
        }
        assert(w@.take(w@.len() as int) == w@);
        let r = slice_chars(w, 0, end);
        assert(r@ == w@.take(end as int));
        r
    } else {
        proof {
            if utf8_len(w@) > usize::MAX {
                assert(n == usize::MAX);
            }
        }
        slice_chars(w, 0, w.len())
    }
}

/// Whether `ws` holds `w`.
pub fn has_word(ws: &Vec<Vec<char>>, w: &Vec<char>) -> (r: bool)
    ensures
        r == views(ws@).contains(w@),
{
    let mut i: usize = 0;
    while i < ws.len()
        invariant
            i <= ws@.len(),
            forall|j: int| 0 <= j < i ==> views(ws@)[j] != w@,
        decreases ws@.len() - i,
    {
        assert(views(ws@)[i as int] == ws@[i as int]@);
        if eq_chars(&ws[i], w) {
            return true;
        }
        i = i + 1;
    }
    false
}

/// The words of a title, each once (`title_words`).
pub fn title_words(title: &str) -> (r: Vec<Vec<char>>)
    ensures
        views(r@) == spec_title_words(title@),
{
    let lower = chars_of(&to_lowercase(title));
    let ps = split_alnum(&lower);
    let stops = stopword_list();
    let ghost pv = views(ps@);
    let mut out: Vec<Vec<char>> = Vec::new();
    let mut i: usize = 0;
    while i < ps.len()
        invariant
            i <= ps@.len(),
            pv == views(ps@),
            strs_view(stops@) == stopwords(),
            views(out@) == dedup(word_list(pv.take(i as int))),
        decreases ps@.len() - i,
    {
        assert(pv.take(i + 1).drop_last() == pv.take(i as int));
        assert(pv.take(i + 1).last() == ps@[i as int]@);
        let p = &ps[i];
        if p.len() > 0 && !is_stopword(p, &stops) {
            let w = stem_word(p);
            let ghost l = word_list(pv.take(i as int));
            assert(l.push(w@).drop_last() == l);
            if !has_word(&out, &w) {
                let ghost before = out@;
                out.push(w);
                assert(views(out@) =~= views(before).push(w@));
            }
        }
        i = i + 1;
    }
    assert(pv.take(ps@.len() as int) == pv);
    out
}

/// How many words of `a` are in `b`.
pub open spec fn shared_count(a: Seq<Seq<char>>, b: Seq<Seq<char>>) -> nat
    decreases a.len(),
{
    if a.len() == 0 {
        0
    } else if b.contains(a.last()) {
        shared_count(a.drop_last(), b) + 1
    } else {
        shared_count(a.drop_last(), b)
    }
}

pub fn count_shared(a: &Vec<Vec<char>>, b: &Vec<Vec<char>>) -> (r: usize)
    ensures
        r == shared_count(views(a@), views(b@)),
{
    let ghost av = views(a@);
    let mut n: usize = 0;
    let mut i: usize = 0;
    while i < a.len()
        invariant
            i <= a@.len(),
            av == views(a@),
            n == shared_count(av.take(i as int), views(b@)),
            n <= i,
        decreases a@.len() - i,
    {
        assert(av.take(i + 1).drop_last() == av.take(i as int));
        assert(av.take(i + 1).last() == a@[i as int]@);
        if has_word(b, &a[i]) {
            n = n + 1;
        }
        i = i + 1;
    }
    assert(av.take(a@.len() as int) == av);
    n
}

/// Every word of `a` is in `b`.
pub open spec fn all_in(a: Seq<Seq<char>>, b: Seq<Seq<char>>) -> bool {
    forall|i: int| 0 <= i < a.len() ==> b.contains(#[trigger] a[i])
}

pub fn is_subset(a: &Vec<Vec<char>>, b: &Vec<Vec<char>>) -> (r: bool)
    ensures
        r == all_in(views(a@), views(b@)),
{
    let mut i: usize = 0;
    while i < a.len()
        invariant
            i <= a@.len(),
            forall|j: int| 0 <= j < i ==> views(b@).contains(#[trigger] views(a@)[j]),
        decreases a@.len() - i,
    {
        assert(views(a@)[i as int] == a@[i as int]@);
        if !has_word(b, &a[i]) {
            return false;
        }
        i = i + 1;
    }
    true
}

pub const TWIN_GAP: i64 = 30;

/// Cross-posts start at about the same time and share most of the words
/// in their titles: the shorter title's words need only mostly appear in
/// the longer one. A time moved after posting leaves the copies hours
/// apart; on the same Munich day, fully matching titles are still the
/// same event.
pub open spec fn spec_same_event(a: EventModel, b: EventModel) -> bool {
    let wa = spec_title_words(a.title);
    let wb = spec_title_words(b.title);
    let gap = if a.start >= b.start { a.start - b.start } else { b.start - a.start };
    if gap > TWIN_GAP * MINUTE {
        let short = if wa.len() <= wb.len() { wa } else { wb };
        let long = if wa.len() <= wb.len() { wb } else { wa };
        munich_day_of(a.start as int) == munich_day_of(b.start as int) && short.len() > 0
            && all_in(short, long)
    } else if wa.len() == 0 || wb.len() == 0 {
        spec_to_lowercase(a.title) == spec_to_lowercase(b.title)
    } else {
        shared_count(wa, wb) * 10 >= (if wa.len() <= wb.len() { wa.len() } else { wb.len() }) * 6
    }
}

pub fn same_event(a: &Event, b: &Event) -> (r: bool)
    requires
        a@.wf(),
        b@.wf(),
    ensures
        r == spec_same_event(a@, b@),
{
    let wa = title_words(a.title.as_str());
    let wb = title_words(b.title.as_str());
    let gap: i64 = if a.start >= b.start { a.start - b.start } else { b.start - a.start };
    if gap > TWIN_GAP * MINUTE {
        let (short, long) = if wa.len() <= wb.len() { (&wa, &wb) } else { (&wb, &wa) };
        return munich_day(a.start) == munich_day(b.start) && short.len() > 0 && is_subset(short, long);
    }
    if wa.len() == 0 || wb.len() == 0 {
        let la = chars_of(&to_lowercase(a.title.as_str()));
        let lb = chars_of(&to_lowercase(b.title.as_str()));
        return eq_chars(&la, &lb);
    }
    let shared = count_shared(&wa, &wb);
    let m = if wa.len() <= wb.len() { wa.len() } else { wb.len() };
    (shared as u128) * 10 >= (m as u128) * 6
}


/// Where a stable sort by start puts `x` into the sorted `s`: after every
/// event that starts no later.
pub open spec fn insert_pos(s: Seq<EventModel>, x: EventModel) -> int
    decreases s.len(),
{
    if s.len() == 0 {
        0
    } else if s.last().start <= x.start {
        s.len() as int
    } else {
        insert_pos(s.drop_last(), x)
    }
}

/// `sort_by_key(|e| e.start)`: sorted by start, and in the given order
/// among equal starts.
pub open spec fn sort_by_start(s: Seq<EventModel>) -> Seq<EventModel>
    decreases s.len(),
{
    if s.len() == 0 {
        seq![]
    } else {
        let r = sort_by_start(s.drop_last());
        r.insert(insert_pos(r, s.last()), s.last())
    }
}

pub proof fn lemma_insert_pos(s: Seq<EventModel>, x: EventModel)
    ensures
        0 <= insert_pos(s, x) <= s.len(),
        forall|i: int| insert_pos(s, x) <= i < s.len() ==> s[i].start > x.start,
        insert_pos(s, x) > 0 ==> s[insert_pos(s, x) - 1].start <= x.start,
    decreases s.len(),
{
    if s.len() > 0 && s.last().start > x.start {
        lemma_insert_pos(s.drop_last(), x);
        assert forall|i: int| insert_pos(s, x) <= i < s.len() implies s[i].start > x.start by {
            if i < s.len() - 1 {
                assert(s.drop_last()[i] == s[i]);
            }
        }
    }
}

pub open spec fn sorted_by_start(s: Seq<EventModel>) -> bool {
    forall|i: int, j: int| 0 <= i <= j < s.len() ==> s[i].start <= s[j].start
}

pub proof fn lemma_sort_by_start(s: Seq<EventModel>)
    ensures
        sorted_by_start(sort_by_start(s)),
        sort_by_start(s).len() == s.len(),
        sort_by_start(s).to_multiset() == s.to_multiset(),
    decreases s.len(),
{
    if s.len() > 0 {
        let r = sort_by_start(s.drop_last());
        lemma_sort_by_start(s.drop_last());
        let x = s.last();
        let p = insert_pos(r, x);
        lemma_insert_pos(r, x);
        let t = r.insert(p, x);
        assert forall|i: int, j: int| 0 <= i <= j < t.len() implies t[i].start <= t[j].start by {
            if j < p {
                assert(t[i] == r[i] && t[j] == r[j]);
            } else if j == p {
                if i < p {
                    assert(t[i] == r[i]);
                    assert(r[i].start <= r[p - 1].start);
                }
            } else {
                assert(t[j] == r[j - 1]);
                if i < p {
                    assert(t[i] == r[i]);
                } else if i == p {
                } else {
                    assert(t[i] == r[i - 1]);
                }
            }
        }
        vstd::seq_lib::to_multiset_insert(r, p, x);
        s.drop_last().to_multiset_ensures();
        assert(s.drop_last().push(x).to_multiset() == s.drop_last().to_multiset().insert(x));
        assert(s.drop_last().push(x) == s);
    } else {
        assert(s =~= seq![]);
    }
}

/// Sorts by start, keeping the given order among equal starts.
pub fn sort_events_by_start(events: Vec<Event>) -> (r: Vec<Event>)
    ensures
        models(r@) == sort_by_start(models(events@)),
{
    let ghost orig = models(events@);
    let mut out: Vec<Event> = Vec::new();
    for e in it: events.into_iter()
        invariant
            orig == models(it.seq()),
            models(out@) == sort_by_start(orig.take(it.index() as int)),
    {
        let ghost k = it.index() as int;
        assert(orig.take(k + 1).drop_last() == orig.take(k));
        assert(orig.take(k + 1).last() == e@);
        let ghost ov = models(out@);
        let mut p = out.len();
        assert(ov.take(p as int) == ov);
        while p > 0 && out[p - 1].start > e.start
            invariant
                p <= out@.len(),
                ov == models(out@),
                insert_pos(ov, e@) == insert_pos(ov.take(p as int), e@),
            decreases p,
        {
            assert(ov.take(p as int).last() == out@[p - 1]@);
            assert(ov.take(p as int).drop_last() == ov.take(p - 1));
            p = p - 1;
        }
        proof {
            if p > 0 {
                assert(ov.take(p as int).last() == out@[p - 1]@);
            }
            assert(insert_pos(ov.take(p as int), e@) == p);
        }
        let ghost ee = e@;
        out.insert(p, e);
        assert(models(out@) =~= ov.insert(p as int, ee));
    }
    assert(orig.take(orig.len() as int) == orig);
    out
}

/// The links of `t` with those of `add` whose URL it lacks, in order.
pub open spec fn add_links(t: Seq<(Seq<char>, Seq<char>)>, add: Seq<(Seq<char>, Seq<char>)>) -> Seq<(Seq<char>, Seq<char>)>
    decreases add.len(),
{
    if add.len() == 0 {
        t
    } else {
        let r = add_links(t, add.drop_last());
        if exists|i: int| 0 <= i < r.len() && (#[trigger] r[i]).1 == add.last().1 {
            r
        } else {
            r.push(add.last())
        }
    }
}

/// The groups of `t` with those of `add` it lacks, in order.
pub open spec fn add_groups(t: Seq<Seq<char>>, add: Seq<Seq<char>>) -> Seq<Seq<char>>
    decreases add.len(),
{
    if add.len() == 0 {
        t
    } else {
        let r = add_groups(t, add.drop_last());
        if r.contains(add.last()) {
            r
        } else {
            r.push(add.last())
        }
    }
}

/// A cross-post `e` folded into its twin `t`: every link and group, the
/// longer excerpt and location, the most sign-ups, an end if either has
/// one; online if either is; chat-only only if both are.
pub open spec fn absorb(t: EventModel, e: EventModel) -> EventModel {
    EventModel {
        links: add_links(t.links, e.links),
        groups: add_groups(t.groups, e.groups),
        excerpt: if utf8_len(e.excerpt) > utf8_len(t.excerpt) { e.excerpt } else { t.excerpt },
        location: if utf8_len(e.location) > utf8_len(t.location) { e.location } else { t.location },
        signups: if t.signups >= e.signups { t.signups } else { e.signups },
        end: match t.end {
            Some(x) => Some(x),
            None => e.end,
        },
        online: t.online || e.online,
        chat: t.chat && e.chat,
        ..t
    }
}

/// The event among `ms[..hi]`, searching back from `hi`, that `e` is a
/// cross-post of; the search stops at the first that starts more than a
/// day before `e`.
pub open spec fn find_twin(ms: Seq<EventModel>, e: EventModel, hi: int) -> Option<int>
    decreases hi,
{
    if hi <= 0 || hi > ms.len() {
        None
    } else if e.start - ms[hi - 1].start > DAY {
        None
    } else if spec_same_event(ms[hi - 1], e) {
        Some(hi - 1)
    } else {
        find_twin(ms, e, hi - 1)
    }
}

pub open spec fn merge_step(ms: Seq<EventModel>, e: EventModel) -> Seq<EventModel> {
    match find_twin(ms, e, ms.len() as int) {
        Some(j) => ms.update(j, absorb(ms[j], e)),
        None => ms.push(e),
    }
}

/// The events, in order, with each folded into an earlier twin if it has
/// one.
pub open spec fn merge_all(s: Seq<EventModel>) -> Seq<EventModel>
    decreases s.len(),
{
    if s.len() == 0 {
        seq![]
    } else {
        merge_step(merge_all(s.drop_last()), s.last())
    }
}

pub proof fn lemma_find_twin(ms: Seq<EventModel>, e: EventModel, hi: int)
    requires
        0 <= hi <= ms.len(),
    ensures
        find_twin(ms, e, hi) matches Some(j) ==> 0 <= j < hi,
    decreases hi,
{
    if hi > 0 {
        lemma_find_twin(ms, e, hi - 1);
    }
}

fn absorb_into(t: &mut Event, e: Event)
    ensures
        final(t)@ == absorb(old(t)@, e@),
{
    let ghost t0 = t@;
    let ghost ev = e@;
    let mut i: usize = 0;
    while i < e.links.len()
        invariant
            i <= e.links@.len(),
            ev == e@,
            link_views(t.links@) == add_links(t0.links, ev.links.take(i as int)),
            t@ == (EventModel { links: link_views(t.links@), ..t0 }),
        decreases e.links@.len() - i,
    {
        assert(ev.links.take(i + 1).drop_last() == ev.links.take(i as int));
        assert(ev.links.take(i + 1).last() == ev.links[i as int]);
        assert(ev.links[i as int] == (e.links@[i as int].0@, e.links@[i as int].1@));
        let url = e.links[i].1.as_str();
        let mut k: usize = 0;
        let mut found = false;
        while k < t.links.len()
            invariant
                k <= t.links@.len(),
                url@ == ev.links[i as int].1,
                found == exists|m: int| 0 <= m < k && (#[trigger] link_views(t.links@)[m]).1 == url@,
            decreases t.links@.len() - k,
        {
            assert(link_views(t.links@)[k as int] == (t.links@[k as int].0@, t.links@[k as int].1@));
            if eq_str(t.links[k].1.as_str(), url) {
                found = true;
            }
            k = k + 1;
        }
        if !found {
            let ghost before = t.links@;
            let l = (e.links[i].0.clone(), e.links[i].1.clone());
            t.links.push(l);
            assert(link_views(t.links@) =~= link_views(before).push(ev.links[i as int]));
        }
        i = i + 1;
    }
    assert(ev.links.take(ev.links.len() as int) == ev.links);
    let mut i: usize = 0;
    while i < e.groups.len()
        invariant
            i <= e.groups@.len(),
            ev == e@,
            string_views(t.groups@) == add_groups(t0.groups, ev.groups.take(i as int)),
            link_views(t.links@) == add_links(t0.links, ev.links),
            t@ == (EventModel { links: link_views(t.links@), groups: string_views(t.groups@), ..t0 }),
        decreases e.groups@.len() - i,
    {
        assert(ev.groups.take(i + 1).drop_last() == ev.groups.take(i as int));
        assert(ev.groups.take(i + 1).last() == ev.groups[i as int]);
        assert(ev.groups[i as int] == e.groups@[i as int]@);
        let g = e.groups[i].as_str();
        let mut k: usize = 0;
        let mut found = false;
        while k < t.groups.len()
            invariant
                k <= t.groups@.len(),
                g@ == ev.groups[i as int],
                found == exists|m: int| 0 <= m < k && string_views(t.groups@)[m] == g@,
            decreases t.groups@.len() - k,
        {
            assert(string_views(t.groups@)[k as int] == t.groups@[k as int]@);
            if eq_str(t.groups[k].as_str(), g) {
                found = true;
            }
            k = k + 1;
        }
        let ghost before = t.groups@;
        if !found {
            t.groups.push(e.groups[i].clone());
            assert(string_views(t.groups@) =~= string_views(before).push(ev.groups[i as int]));
        } else {
            assert(string_views(before).contains(g@));
        }
        i = i + 1;
    }
    assert(ev.groups.take(ev.groups.len() as int) == ev.groups);
    let le = utf8_length_wide(&chars_of(e.excerpt.as_str()));
    let lt = utf8_length_wide(&chars_of(t.excerpt.as_str()));
    if le > lt {
        t.excerpt = e.excerpt;
    }
    let le = utf8_length_wide(&chars_of(e.location.as_str()));
    let lt = utf8_length_wide(&chars_of(t.location.as_str()));
    if le > lt {
        t.location = e.location;
    }
    if e.signups > t.signups {
        t.signups = e.signups;
    }
    if t.end.is_none() {
        t.end = e.end;
    }
    t.online = t.online || e.online;
    t.chat = t.chat && e.chat;
}

/// Searches `merged` back from its end for a twin of `e`.
fn twin_of(merged: &Vec<Event>, e: &Event) -> (r: Option<usize>)
    requires
        all_wf(merged@),
        e@.wf(),
    ensures
        r == match find_twin(models(merged@), e@, merged@.len() as int) {
            Some(j) => Some(j as usize),
            None => None::<usize>,
        },
{
    let ghost ms = models(merged@);
    let mut hi = merged.len();
    while hi > 0
        invariant
            hi <= merged@.len(),
            ms == models(merged@),
            all_wf(merged@),
            e@.wf(),
            find_twin(ms, e@, merged@.len() as int) == find_twin(ms, e@, hi as int),
        decreases hi,
    {
        let m = &merged[hi - 1];
        assert(ms[hi - 1] == m@);
        assert(m@.wf());
        if e.start - m.start > DAY {
            return None;
        }
        if same_event(m, e) {
            return Some(hi - 1);
        }
        hi = hi - 1;
    }
    None
}

/// Folds each event, in order, into an earlier twin if it has one.
pub fn merge_twins(events: Vec<Event>) -> (r: Vec<Event>)
    requires
        all_wf(events@),
    ensures
        models(r@) == merge_all(models(events@)),
        all_wf(r@),
{
    let ghost orig = models(events@);
    let ghost ev = events@;
    let mut merged: Vec<Event> = Vec::new();
    for e in it: events.into_iter()
        invariant
            orig == models(it.seq()),
            ev == it.seq(),
            all_wf(ev),
            models(merged@) == merge_all(orig.take(it.index() as int)),
            all_wf(merged@),
    {
        let ghost k = it.index() as int;
        assert(orig.take(k + 1).drop_last() == orig.take(k));
        assert(orig.take(k + 1).last() == e@);
        assert(ev[k] == e);
        let ghost ms = models(merged@);
        let ghost em = e@;
        assert(merge_all(orig.take(k + 1)) == merge_step(ms, em));
        let tw = twin_of(&merged, &e);
        let mlen = merged.len();
        proof { lemma_find_twin(ms, em, ms.len() as int); }
        assert(ms.len() == mlen);
        assert(tw == match find_twin(ms, em, ms.len() as int) {
            Some(j) => Some(j as usize),
            None => None::<usize>,
        });
        match tw {
            Some(j) => {
                let mut t = merged.remove(j);
                assert(t@ == ms[j as int]);
                let ghost tw = t@;
                absorb_into(&mut t, e);
                assert(t@.wf());
                merged.insert(j, t);
                assert(models(merged@) =~= ms.update(j as int, absorb(ms[j as int], orig.take(k + 1).last())));
                assert(find_twin(ms, em, ms.len() as int) == Some(j as int));
                assert(models(merged@) == merge_step(ms, em));
            },
            None => {
                merged.push(e);
                assert(models(merged@) =~= ms.push(em));
                assert(models(merged@) == merge_step(ms, em));
            },
        }
    }
    assert(orig.take(orig.len() as int) == orig);
    merged
}


pub proof fn lemma_sort_keeps_wf(s: Seq<EventModel>)
    requires
        forall|i: int| 0 <= i < s.len() ==> (#[trigger] s[i]).wf(),
    ensures
        forall|i: int| 0 <= i < sort_by_start(s).len() ==> (#[trigger] sort_by_start(s)[i]).wf(),
    decreases s.len(),
{
    if s.len() > 0 {
        let r = sort_by_start(s.drop_last());
        assert forall|i: int| 0 <= i < s.drop_last().len() implies (#[trigger] s.drop_last()[i]).wf() by {
            assert(s.drop_last()[i] == s[i]);
        }
        lemma_sort_keeps_wf(s.drop_last());
        lemma_insert_pos(r, s.last());
        let p = insert_pos(r, s.last());
        let t = r.insert(p, s.last());
        assert forall|i: int| 0 <= i < t.len() implies (#[trigger] t[i]).wf() by {
            if i < p {
                assert(t[i] == r[i]);
            } else if i > p {
                assert(t[i] == r[i - 1]);
            }
        }
    }
}

/// The words that make a title LW/ACX's.
pub open spec fn acx_words() -> Seq<Seq<char>> {
    seq!["acx"@, "lesswrong"@, "lw"@, "rationalist"@, "rationalists"@, "rationality"@]
}

/// An EA or LW/ACX event whose title names the other community is theirs
/// too: EA Munich posts "ACX Spring Meetups Everywhere" to its own pages.
pub open spec fn tagged(m: EventModel) -> EventModel {
    if !m.in_any(seq!["acx"@, "ea"@]) {
        m
    } else {
        let lower = spec_to_lowercase(m.title);
        let words = alnum_split(lower);
        let acx = exists|i: int| 0 <= i < 6 && words.contains(#[trigger] acx_words()[i]);
        let g1 = if acx && !m.groups.contains("acx"@) { m.groups.push("acx"@) } else { m.groups };
        let ea = words.contains("ea"@) || contains_seq(lower, "effective altruism"@);
        let g2 = if ea && !g1.contains("ea"@) { g1.push("ea"@) } else { g1 };
        EventModel { groups: g2, ..m }
    }
}

fn has_group(gs: &Vec<String>, key: &str) -> (r: bool)
    ensures
        r == string_views(gs@).contains(key@),
{
    let mut i: usize = 0;
    while i < gs.len()
        invariant
            i <= gs@.len(),
            forall|j: int| 0 <= j < i ==> string_views(gs@)[j] != key@,
        decreases gs@.len() - i,
    {
        assert(string_views(gs@)[i as int] == gs@[i as int]@);
        if eq_str(gs[i].as_str(), key) {
            return true;
        }
        i = i + 1;
    }
    false
}

fn has_piece(ws: &Vec<Vec<char>>, w: &str) -> (r: bool)
    ensures
        r == views(ws@).contains(w@),
{
    let c = chars_of(w);
    has_word(ws, &c)
}

pub fn tag_by_title(e: &mut Event)
    ensures
        final(e)@ == tagged(old(e)@),
{
    let keys = vec!["acx", "ea"];
    assert(strs_view(keys@) =~= seq!["acx"@, "ea"@]);
    if !e.in_any(&keys) {
        return;
    }
    let lower = chars_of(&to_lowercase(e.title.as_str()));
    let words = split_alnum(&lower);
    let acx_list = vec!["acx", "lesswrong", "lw", "rationalist", "rationalists", "rationality"];
    assert(strs_view(acx_list@) =~= acx_words());
    let mut acx = false;
    let mut i: usize = 0;
    while i < acx_list.len()
        invariant
            i <= 6,
            acx_list@.len() == 6,
            strs_view(acx_list@) == acx_words(),
            acx == exists|j: int| 0 <= j < i && views(words@).contains(#[trigger] acx_words()[j]),
        decreases 6 - i,
    {
        assert(acx_words()[i as int] == acx_list@[i as int]@);
        if has_piece(&words, acx_list[i]) {
            acx = true;
        }
        i = i + 1;
    }
    let ghost before = e.groups@;
    if acx && !has_group(&e.groups, "acx") {
        e.groups.push("acx".to_owned());
        assert(string_views(e.groups@) =~= string_views(before).push("acx"@));
    }
    let ea = has_piece(&words, "ea") || contains_str(&lower, "effective altruism");
    let ghost before = e.groups@;
    if ea && !has_group(&e.groups, "ea") {
        e.groups.push("ea".to_owned());
        assert(string_views(e.groups@) =~= string_views(before).push("ea"@));
    }
}

/// The groups of `gs` whose key is not in the table, in order.
pub open spec fn unknown_groups(gs: Seq<Seq<char>>) -> Seq<Seq<char>>
    decreases gs.len(),
{
    if gs.len() == 0 {
        seq![]
    } else if key_row(gs.last()) is None {
        unknown_groups(gs.drop_last()).push(gs.last())
    } else {
        unknown_groups(gs.drop_last())
    }
}

/// The groups of `gs` with the key of row `i`, in order.
pub open spec fn groups_of_row(gs: Seq<Seq<char>>, i: int) -> Seq<Seq<char>>
    decreases gs.len(),
{
    if gs.len() == 0 {
        seq![]
    } else if key_row(gs.last()) == Some(i) {
        groups_of_row(gs.drop_last(), i).push(gs.last())
    } else {
        groups_of_row(gs.drop_last(), i)
    }
}

pub open spec fn known_from(gs: Seq<Seq<char>>, i: int) -> Seq<Seq<char>>
    decreases 12 - i,
{
    if i < 0 || i >= 12 {
        seq![]
    } else {
        groups_of_row(gs, i) + known_from(gs, i + 1)
    }
}

/// `sort_by_key` on the table position: groups the table lacks first,
/// then the rest in table order, each in its given order otherwise.
pub open spec fn sort_groups(gs: Seq<Seq<char>>) -> Seq<Seq<char>> {
    unknown_groups(gs) + known_from(gs, 0)
}

/// The rows of the keys `gs` holds.
fn rows_of(gs: &Vec<String>) -> (r: Vec<Option<usize>>)
    ensures
        r@.len() == gs@.len(),
        forall|k: int| 0 <= k < r@.len() ==> #[trigger] r@[k] == match key_row(string_views(gs@)[k]) {
            Some(i) => Some(i as usize),
            None => None::<usize>,
        },
        forall|k: int| 0 <= k < r@.len() ==> (#[trigger] r@[k] matches Some(i) ==> i < 12),
{
    let mut rows: Vec<Option<usize>> = Vec::new();
    let mut j: usize = 0;
    while j < gs.len()
        invariant
            j <= gs@.len(),
            rows@.len() == j,
            forall|k: int| 0 <= k < j ==> #[trigger] rows@[k] == match key_row(string_views(gs@)[k]) {
                Some(i) => Some(i as usize),
                None => None::<usize>,
            },
            forall|k: int| 0 <= k < j ==> (#[trigger] rows@[k] matches Some(i) ==> i < 12),
        decreases gs@.len() - j,
    {
        assert(string_views(gs@)[j as int] == gs@[j as int]@);
        rows.push(key_index(gs[j].as_str()));
        j = j + 1;
    }
    rows
}

pub fn sort_event_groups(e: &mut Event)
    ensures
        final(e)@ == (EventModel { groups: sort_groups(old(e)@.groups), ..old(e)@ }),
{
    let ghost gv = string_views(e.groups@);
    let rows = rows_of(&e.groups);
    let mut out: Vec<String> = Vec::new();
    let mut k: usize = 0;
    while k < rows.len()
        invariant
            k <= rows@.len(),
            rows@.len() == gv.len(),
            gv == string_views(e.groups@),
            forall|k: int| 0 <= k < rows@.len() ==> #[trigger] rows@[k] == match key_row(gv[k]) {
                Some(i) => Some(i as usize),
                None => None::<usize>,
            },
            string_views(out@) == unknown_groups(gv.take(k as int)),
        decreases rows@.len() - k,
    {
        assert(gv.take(k + 1).drop_last() == gv.take(k as int));
        assert(gv.take(k + 1).last() == gv[k as int]);
        assert(gv[k as int] == e.groups@[k as int]@);
        if rows[k].is_none() {
            let ghost before = out@;
            out.push(e.groups[k].clone());
            assert(string_views(out@) =~= string_views(before).push(gv[k as int]));
        }
        k = k + 1;
    }
    assert(gv.take(gv.len() as int) == gv);
    let mut i: usize = 0;
    while i < 12
        invariant
            i <= 12,
            rows@.len() == gv.len(),
            gv == string_views(e.groups@),
            forall|k: int| 0 <= k < rows@.len() ==> #[trigger] rows@[k] == match key_row(gv[k]) {
                Some(i) => Some(i as usize),
                None => None::<usize>,
            },
            forall|k: int| 0 <= k < rows@.len() ==> (#[trigger] rows@[k] matches Some(i) ==> i < 12),
            string_views(out@) + known_from(gv, i as int) == sort_groups(gv),
        decreases 12 - i,
    {
        let ghost start = out@;
        let mut k: usize = 0;
        while k < rows.len()
            invariant
                k <= rows@.len(),
                i < 12,
                rows@.len() == gv.len(),
                gv == string_views(e.groups@),
                forall|k: int| 0 <= k < rows@.len() ==> #[trigger] rows@[k] == match key_row(gv[k]) {
                    Some(i) => Some(i as usize),
                    None => None::<usize>,
                },
                forall|k: int| 0 <= k < rows@.len() ==> (#[trigger] rows@[k] matches Some(i) ==> i < 12),
                string_views(out@) == string_views(start) + groups_of_row(gv.take(k as int), i as int),
            decreases rows@.len() - k,
        {
            assert(gv.take(k + 1).drop_last() == gv.take(k as int));
            assert(gv.take(k + 1).last() == gv[k as int]);
            assert(gv[k as int] == e.groups@[k as int]@);
            proof { lemma_first_row_from(0, gv[k as int], false); }
            if rows[k] == Some(i) {
                let ghost before = out@;
                out.push(e.groups[k].clone());
                assert(string_views(out@) =~= string_views(before).push(gv[k as int]));
            }
            k = k + 1;
        }
        assert(gv.take(gv.len() as int) == gv);
        assert(string_views(out@) + known_from(gv, i + 1) =~= string_views(start) + known_from(gv, i as int));
        i = i + 1;
    }
    assert(string_views(out@) + known_from(gv, 12) =~= string_views(out@));
    e.groups = out;
}

/// An event as merging leaves it: retagged by its title, its groups in
/// table order.
pub open spec fn finished(m: EventModel) -> EventModel {
    EventModel { groups: sort_groups(tagged(m).groups), ..tagged(m) }
}

/// Sorted by start, cross-posts folded into the first of them, retagged
/// by title, groups in table order.
pub open spec fn spec_merge(s: Seq<EventModel>) -> Seq<EventModel> {
    merge_all(sort_by_start(s)).map_values(|m: EventModel| finished(m))
}

/// Events arrive in source order, which decides whose title and canonical
/// link win; the sort is stable, so that order survives among equal start
/// times.
pub fn merge(events: Vec<Event>) -> (r: Vec<Event>)
    requires
        all_wf(events@),
    ensures
        models(r@) == spec_merge(models(events@)),
        all_wf(r@),
{
    let ghost orig = models(events@);
    let sorted = sort_events_by_start(events);
    proof {
        assert forall|i: int| 0 <= i < orig.len() implies (#[trigger] orig[i]).wf() by {
            assert(orig[i] == events@[i]@);
        }
        lemma_sort_keeps_wf(orig);
        assert forall|i: int| 0 <= i < sorted@.len() implies (#[trigger] sorted@[i])@.wf() by {
            assert(models(sorted@)[i] == sorted@[i]@);
        }
    }
    let merged = merge_twins(sorted);
    let ghost mv = models(merged@);
    let mut out: Vec<Event> = Vec::new();
    for e in it: merged.into_iter()
        invariant
            mv == models(it.seq()),
            all_wf(it.seq()),
            models(out@) == mv.take(it.index() as int).map_values(|m: EventModel| finished(m)),
            all_wf(out@),
    {
        let ghost k = it.index() as int;
        let ghost em = e@;
        assert(mv[k] == em);
        assert(it.seq()[k] == e);
        let mut e = e;
        tag_by_title(&mut e);
        sort_event_groups(&mut e);
        assert(e@ == finished(em));
        let ghost before = out@;
        let ghost eo = e@;
        out.push(e);
        assert(models(out@) =~= models(before).push(eo));
        assert(mv.take(k + 1) =~= mv.take(k).push(em));
        assert(models(out@) =~= mv.take(k + 1).map_values(|m: EventModel| finished(m)));
    }
    assert(mv.take(mv.len() as int) == mv);
    out
}


// Permalinks

/// Lowercase title to slug: German umlauts and ß spelled out, ASCII
/// letters and digits kept, anything else one dash.
pub open spec fn slug_raw(s: Seq<char>) -> Seq<char>
    decreases s.len(),
{
    if s.len() == 0 {
        seq![]
    } else {
        let o = slug_raw(s.drop_last());
        let c = s.last();
        if c == 'ä' {
            o + seq!['a', 'e']
        } else if c == 'ö' {
            o + seq!['o', 'e']
        } else if c == 'ü' {
            o + seq!['u', 'e']
        } else if c == 'ß' {
            o + seq!['s', 's']
        } else if is_ascii_alphanumeric(c) {
            o.push(c)
        } else if o.len() > 0 && o.last() == '-' {
            o
        } else {
            o.push('-')
        }
    }
}

/// `s` without leading dashes.
pub open spec fn trim_dash_start(s: Seq<char>) -> Seq<char>
    decreases s.len(),
{
    if s.len() > 0 && s[0] == '-' {
        trim_dash_start(s.drop_first())
    } else {
        s
    }
}

/// `s` without trailing dashes.
pub open spec fn trim_dash_end(s: Seq<char>) -> Seq<char>
    decreases s.len(),
{
    if s.len() > 0 && s.last() == '-' {
        trim_dash_end(s.drop_last())
    } else {
        s
    }
}

/// Words joined by dashes onto `acc` until the next would make it 48
/// bytes or longer, so ids stay readable.
pub open spec fn cut_words(ws: Seq<Seq<char>>, acc: Seq<char>) -> Seq<char>
    decreases ws.len(),
{
    if ws.len() == 0 {
        acc
    } else if acc.len() > 0 && utf8_len(acc) + utf8_len(ws[0]) >= 48 {
        acc
    } else {
        cut_words(ws.drop_first(), if acc.len() > 0 { acc + seq!['-'] + ws[0] } else { acc + ws[0] })
    }
}

pub open spec fn spec_slugify(title: Seq<char>) -> Seq<char> {
    let c = cut_words(split_on(trim_dash_end(trim_dash_start(slug_raw(spec_to_lowercase(title)))), '-'), seq![]);
    if c.len() == 0 {
        "event"@
    } else {
        c
    }
}

pub fn slugify(title: &str) -> (r: Vec<char>)
    ensures
        r@ == spec_slugify(title@),
{
    let lower = chars_of(&to_lowercase(title));
    let mut out: Vec<char> = Vec::new();
    let mut i: usize = 0;
    while i < lower.len()
        invariant
            i <= lower@.len(),
            out@ == slug_raw(lower@.take(i as int)),
        decreases lower@.len() - i,
    {
        assert(lower@.take(i + 1).drop_last() == lower@.take(i as int));
        let c = lower[i];
        if c == 'ä' {
            out.push('a');
            out.push('e');
        } else if c == 'ö' {
            out.push('o');
            out.push('e');
        } else if c == 'ü' {
            out.push('u');
            out.push('e');
        } else if c == 'ß' {
            out.push('s');
            out.push('s');
        } else if ('0' <= c && c <= '9') || ('a' <= c && c <= 'z') || ('A' <= c && c <= 'Z') {
            out.push(c);
        } else if out.len() > 0 && out[out.len() - 1] == '-' {
        } else {
            out.push('-');
        }
        i = i + 1;
    }
    assert(lower@.take(lower@.len() as int) == lower@);
    let mut a: usize = 0;
    assert(out@.skip(0) == out@);
    while a < out.len() && out[a] == '-'
        invariant
            a <= out@.len(),
            trim_dash_start(out@) == trim_dash_start(out@.skip(a as int)),
        decreases out@.len() - a,
    {
        assert(out@.skip(a as int).drop_first() == out@.skip(a + 1));
        a = a + 1;
    }
    let mut b = out.len();
    assert(out@.skip(a as int).take(b - a) == out@.skip(a as int));
    while b > a && out[b - 1] == '-'
        invariant
            a <= b <= out@.len(),
            trim_dash_end(trim_dash_start(out@)) == trim_dash_end(out@.subrange(a as int, b as int)),
        decreases b,
    {
        assert(out@.subrange(a as int, b as int).drop_last() == out@.subrange(a as int, b - 1));
        b = b - 1;
    }
    let trimmed = slice_chars(&out, a, b);
    assert(trim_dash_end(trimmed@) == trimmed@);
    let words = split_char(&trimmed, '-');
    let ghost wv = views(words@);
    let mut cut: Vec<char> = Vec::new();
    let mut k: usize = 0;
    assert(wv.skip(0) == wv);
    while k < words.len()
        invariant
            k <= words@.len(),
            wv == views(words@),
            cut_words(wv, seq![]) == cut_words(wv.skip(k as int), cut@),
        ensures
            cut_words(wv, seq![]) == cut@,
        decreases words@.len() - k,
    {
        let w = &words[k];
        assert(wv[k as int] == w@);
        assert(wv.skip(k as int)[0] == w@);
        assert(wv.skip(k as int).drop_first() == wv.skip(k + 1));
        let lc = utf8_length_wide(&cut);
        let lw = utf8_length_wide(w);
        if cut.len() > 0 && lc + lw >= 48 {
            break;
        }
        let ghost acc = cut@;
        if cut.len() > 0 {
            cut.push('-');
        }
        push_chars(&mut cut, w);
        assert(cut@ == if acc.len() > 0 { acc + seq!['-'] + w@ } else { acc + w@ });
        k = k + 1;
    }
    if cut.len() == 0 {
        chars_of("event")
    } else {
        cut
    }
}


/// The Munich date plus the title: `2026-09-26-petrov-day-ritual-munich`.
pub open spec fn id_base(m: EventModel) -> Seq<char> {
    spec_format_local(munich(m.start as int), "%Y-%m-%d"@) + "-"@ + spec_slugify(m.title)
}

/// A namesake's id: the base, a dash and a number.
pub open spec fn numbered(b: Seq<char>, k: nat) -> Seq<char> {
    b + "-"@ + decimal(k)
}

/// The smallest number from `k` on that no id in `taken` already uses
/// with `b`; one among `2` to `taken.len() + 2` always is free.
pub open spec fn free_number(taken: Seq<Seq<char>>, b: Seq<char>, k: nat) -> nat
    decreases taken.len() + 3 - k,
{
    if k >= taken.len() + 3 {
        k
    } else if !taken.contains(numbered(b, k)) {
        k
    } else {
        free_number(taken, b, k + 1)
    }
}

/// The id an event with base `b` gets after the ids `taken`: the base if
/// no earlier event has it, else the base numbered with the smallest of
/// `-2`, `-3`, … that no earlier event has.
pub open spec fn fresh_id(taken: Seq<Seq<char>>, b: Seq<char>) -> Seq<char> {
    if !taken.contains(b) {
        b
    } else {
        numbered(b, free_number(taken, b, 2))
    }
}

/// The ids of events with bases `bases`, in order.
pub open spec fn ids_of(bases: Seq<Seq<char>>) -> Seq<Seq<char>>
    decreases bases.len(),
{
    if bases.len() == 0 {
        seq![]
    } else {
        let t = ids_of(bases.drop_last());
        t.push(fresh_id(t, bases.last()))
    }
}

pub open spec fn spec_assign_ids(ms: Seq<EventModel>) -> Seq<EventModel> {
    let ids = ids_of(ms.map_values(|m: EventModel| id_base(m)));
    Seq::new(ms.len(), |i: int| EventModel { id: ids[i], ..ms[i] })
}

proof fn lemma_ids_of_len(bases: Seq<Seq<char>>)
    ensures
        ids_of(bases).len() == bases.len(),
    decreases bases.len(),
{
    if bases.len() > 0 {
        lemma_ids_of_len(bases.drop_last());
    }
}

/// Numbers tell namesakes apart.
proof fn lemma_numbered_injective(b: Seq<char>, k1: nat, k2: nat)
    requires
        numbered(b, k1) == numbered(b, k2),
    ensures
        k1 == k2,
{
    reveal_strlit("-");
    assert(numbered(b, k1).skip(b.len() as int + 1) =~= decimal(k1));
    assert(numbered(b, k2).skip(b.len() as int + 1) =~= decimal(k2));
    lemma_decimal_reads_back(k1);
    lemma_decimal_reads_back(k2);
}

/// `taken` cannot hold all of `b-2` to `b-(len + 2)`: they are one more
/// than it has ids.
proof fn lemma_some_number_free(taken: Seq<Seq<char>>, b: Seq<char>)
    ensures
        exists|k: nat| 2 <= k < taken.len() + 3 && !taken.contains(#[trigger] numbered(b, k)),
{
    if forall|k: nat| 2 <= k < taken.len() + 3 ==> taken.contains(#[trigger] numbered(b, k)) {
        let n = taken.len() as int;
        let range = vstd::set_lib::set_int_range(2, n + 3);
        vstd::set_lib::lemma_int_range(2, n + 3);
        let f = |k: int| numbered(b, k as nat);
        let cands = range.map(f);
        assert(vstd::relations::injective_on(f, range)) by {
            assert forall|x: int, y: int| range.contains(x) && range.contains(y) && #[trigger] f(x) == #[trigger] f(y)
                implies x == y by {
                lemma_numbered_injective(b, x as nat, y as nat);
            }
        }
        vstd::set_lib::lemma_map_size(range, cands, f);
        vstd::seq_lib::seq_to_set_is_finite(taken);
        assert(cands.subset_of(taken.to_set())) by {
            assert forall|x: Seq<char>| cands.contains(x) implies taken.to_set().contains(x) by {
                let k = choose|k: int| range.contains(k) && f(k) == x;
                assert(taken.contains(numbered(b, k as nat)));
            }
        }
        vstd::set_lib::lemma_len_subset(cands, taken.to_set());
        taken.lemma_cardinality_of_set();
    }
}

proof fn lemma_free_number(taken: Seq<Seq<char>>, b: Seq<char>, k: nat)
    requires
        2 <= k <= taken.len() + 3,
        forall|j: nat| 2 <= j < k ==> taken.contains(#[trigger] numbered(b, j)),
    ensures
        free_number(taken, b, k) < taken.len() + 3,
        !taken.contains(numbered(b, free_number(taken, b, k))),
    decreases taken.len() + 3 - k,
{
    if k >= taken.len() + 3 {
        lemma_some_number_free(taken, b);
        let f = choose|f: nat| 2 <= f < taken.len() + 3 && !taken.contains(#[trigger] numbered(b, f));
        assert(taken.contains(numbered(b, f)));
    } else if taken.contains(numbered(b, k)) {
        lemma_free_number(taken, b, k + 1);
    }
}

/// A fresh id is not among the ids before it.
proof fn lemma_fresh_id(taken: Seq<Seq<char>>, b: Seq<char>)
    ensures
        !taken.contains(fresh_id(taken, b)),
{
    if taken.contains(b) {
        lemma_free_number(taken, b, 2);
    }
}

/// Where the search for a free number from `j` ends, when `k` is free and
/// everything from `j` up to it is taken.
proof fn lemma_free_number_is(taken: Seq<Seq<char>>, b: Seq<char>, j: nat, k: nat)
    requires
        j <= k < taken.len() + 3,
        !taken.contains(numbered(b, k)),
        forall|i: nat| j <= i < k ==> taken.contains(#[trigger] numbered(b, i)),
    ensures
        free_number(taken, b, j) == k,
    decreases k - j,
{
    if j < k {
        lemma_free_number_is(taken, b, j + 1, k);
    }
}

/// No two events get the same id.
proof fn lemma_ids_distinct(bases: Seq<Seq<char>>)
    ensures
        forall|i: int, j: int| 0 <= i < j < ids_of(bases).len() ==> ids_of(bases)[i] != ids_of(bases)[j],
    decreases bases.len(),
{
    if bases.len() > 0 {
        lemma_ids_distinct(bases.drop_last());
        let t = ids_of(bases.drop_last());
        lemma_fresh_id(t, bases.last());
        let ids = ids_of(bases);
        assert forall|i: int, j: int| 0 <= i < j < ids.len() implies ids[i] != ids[j] by {
            if j == t.len() {
                assert(ids[i] == t[i]);
                assert(t.contains(t[i]));
            } else {
                assert(ids[i] == t[i] && ids[j] == t[j]);
            }
        }
    }
}

fn contains_chars(v: &Vec<Vec<char>>, x: &Vec<char>) -> (r: bool)
    ensures
        r == views(v@).contains(x@),
{
    let mut i: usize = 0;
    while i < v.len()
        invariant
            i <= v@.len(),
            forall|k: int| 0 <= k < i ==> views(v@)[k] != x@,
        decreases v@.len() - i,
    {
        assert(views(v@)[i as int] == v@[i as int]@);
        if eq_chars(&v[i], x) {
            return true;
        }
        i = i + 1;
    }
    false
}

fn numbered_chars(b: &Vec<char>, k: u64) -> (r: Vec<char>)
    ensures
        r@ == numbered(b@, k as nat),
{
    let mut id = slice_chars(b, 0, b.len());
    assert(id@ == b@) by { assert(b@.subrange(0, b@.len() as int) == b@); }
    push_str(&mut id, "-");
    push_decimal(&mut id, k);
    proof { reveal_strlit("-"); }
    assert(id@ =~= numbered(b@, k as nat));
    id
}

/// The id after `taken` for base `b`; see `fresh_id`.
fn fresh(taken: &Vec<Vec<char>>, b: &Vec<char>) -> (r: Vec<char>)
    requires
        taken@.len() < usize::MAX - 3,
    ensures
        r@ == fresh_id(views(taken@), b@),
{
    let ghost t = views(taken@);
    if !contains_chars(taken, b) {
        let id = slice_chars(b, 0, b.len());
        assert(id@ == b@) by { assert(b@.subrange(0, b@.len() as int) == b@); }
        return id;
    }
    let mut k: usize = 2;
    loop
        invariant
            t == views(taken@),
            t.len() == taken@.len(),
            t.contains(b@),
            taken@.len() < usize::MAX - 3,
            2 <= k <= t.len() + 2,
            forall|j: nat| 2 <= j < k ==> t.contains(#[trigger] numbered(b@, j)),
        decreases t.len() + 3 - k,
    {
        let id = numbered_chars(b, k as u64);
        if !contains_chars(taken, &id) {
            proof { lemma_free_number_is(t, b@, 2, k as nat); }
            return id;
        }
        if k == taken.len() + 2 {
            proof {
                assert forall|j: nat| 2 <= j < t.len() + 3 implies t.contains(#[trigger] numbered(b@, j)) by {
                    if j == k {
                        assert(numbered(b@, j) == id@);
                    }
                }
                lemma_some_number_free(t, b@);
                let f = choose|f: nat| 2 <= f < t.len() + 3 && !t.contains(#[trigger] numbered(b@, f));
                assert(t.contains(numbered(b@, f)));
            }
        }
        k = k + 1;
    }
}

/// Sets every event's permalink id: the Munich date plus the title, so a
/// link survives the event moving between feeds; a same-day namesake gets
/// the smallest `-2`, `-3`, … that no earlier event's id has, so no two
/// events share an id.
pub fn assign_ids(events: &mut Vec<Event>)
    requires
        all_wf(old(events)@),
        old(events)@.len() < usize::MAX - 3,
    ensures
        models(final(events)@) == spec_assign_ids(models(old(events)@)),
{
    let ghost ms = models(events@);
    let ghost bases = ms.map_values(|m: EventModel| id_base(m));
    let mut taken: Vec<Vec<char>> = Vec::new();
    let n = events.len();
    let mut i: usize = 0;
    while i < n
        invariant
            n == events@.len(),
            n == ms.len(),
            n < usize::MAX - 3,
            i <= n,
            ms == models(old(events)@),
            bases == ms.map_values(|m: EventModel| id_base(m)),
            all_wf(old(events)@),
            views(taken@) == ids_of(bases.take(i as int)),
            taken@.len() == i,
            forall|j: int| 0 <= j < n ==> (#[trigger] events@[j])@ == if j < i {
                EventModel { id: ids_of(bases.take(i as int))[j], ..ms[j] }
            } else {
                ms[j]
            },
        decreases n - i,
    {
        assert(events@[i as int]@ == ms[i as int]);
        assert(old(events)@[i as int]@ == ms[i as int]);
        let start = events[i].start;
        let mut base = chars_of(&format_local(munich_local(start), "%Y-%m-%d"));
        push_str(&mut base, "-");
        let slug = slugify(events[i].title.as_str());
        push_chars(&mut base, &slug);
        assert(base@ == bases[i as int]);
        let id = fresh(&taken, &base);
        let ghost t = ids_of(bases.take(i as int));
        assert(bases.take(i + 1).drop_last() == bases.take(i as int));
        assert(ids_of(bases.take(i + 1)) == t.push(id@));
        let ghost before = events@;
        events[i].id = string_of(&id);
        assert forall|j: int| 0 <= j < n implies (#[trigger] events@[j])@ == if j < i + 1 {
            EventModel { id: ids_of(bases.take(i + 1))[j], ..ms[j] }
        } else {
            ms[j]
        } by {
            if j != i {
                assert(events@[j] == before[j]);
            }
        }
        let ghost tv = views(taken@);
        taken.push(id);
        assert(views(taken@) =~= tv.push(ids_of(bases.take(i + 1)).last()));
        assert(views(taken@) =~= ids_of(bases.take(i + 1)));
        i = i + 1;
    }
    assert(bases.take(n as int) == bases);
    proof { lemma_ids_of_len(bases); }
    assert(models(events@) =~= spec_assign_ids(ms));
}

/// Permalink ids are unique, for every list of events: a same-day
/// namesake is numbered with a suffix no earlier event's id has.
pub proof fn law_ids_are_unique(ms: Seq<EventModel>, i: int, j: int)
    requires
        0 <= i < j < ms.len(),
    ensures
        spec_assign_ids(ms)[i].id != spec_assign_ids(ms)[j].id,
{
    let bases = ms.map_values(|m: EventModel| id_base(m));
    lemma_ids_of_len(bases);
    lemma_ids_distinct(bases);
}

/// What decides whether two events are cross-posts: title and start.
pub open spec fn face(m: EventModel) -> (Seq<char>, i64) {
    (m.title, m.start)
}

pub open spec fn faces(s: Seq<EventModel>) -> Seq<(Seq<char>, i64)> {
    s.map_values(|m: EventModel| face(m))
}

/// Cross-posts among `s` start at most a day apart.
pub open spec fn twins_within_a_day(s: Seq<EventModel>) -> bool {
    forall|a: int, b: int|
        0 <= a < s.len() && 0 <= b < s.len() && #[trigger] spec_same_event(s[a], s[b])
            ==> -DAY <= s[a].start - s[b].start <= DAY
}

/// With no twin found before `hi`, every event there is either no
/// cross-post of `e` or more than a day older.
proof fn lemma_no_twin(ms: Seq<EventModel>, e: EventModel, hi: int)
    requires
        0 <= hi <= ms.len(),
        sorted_by_start(ms),
        find_twin(ms, e, hi) is None,
    ensures
        forall|k: int| 0 <= k < hi ==> !spec_same_event(#[trigger] ms[k], e) || e.start - ms[k].start > DAY,
    decreases hi,
{
    if hi > 0 {
        if e.start - ms[hi - 1].start > DAY {
            assert forall|k: int| 0 <= k < hi implies !spec_same_event(#[trigger] ms[k], e) || e.start - ms[k].start > DAY by {
                assert(ms[k].start <= ms[hi - 1].start);
            }
        } else {
            lemma_no_twin(ms, e, hi - 1);
        }
    }
}

/// Merging a start-ordered list keeps it ordered, keeps each event's title
/// and start from the input, and leaves no event a cross-post of an
/// earlier one.
proof fn lemma_merge_all_apart(s: Seq<EventModel>)
    requires
        sorted_by_start(s),
        twins_within_a_day(s),
    ensures
        sorted_by_start(merge_all(s)),
        forall|k: int| 0 <= k < merge_all(s).len() ==> faces(s).contains(face(#[trigger] merge_all(s)[k])),
        forall|i: int, j: int| 0 <= i < j < merge_all(s).len()
            ==> !spec_same_event(#[trigger] merge_all(s)[i], #[trigger] merge_all(s)[j]),
    decreases s.len(),
{
    if s.len() > 0 {
        let s0 = s.drop_last();
        let e = s.last();
        assert(sorted_by_start(s0));
        assert forall|a: int, b: int|
            0 <= a < s0.len() && 0 <= b < s0.len() && #[trigger] spec_same_event(s0[a], s0[b])
                implies -DAY <= s0[a].start - s0[b].start <= DAY by {
            assert(s0[a] == s[a] && s0[b] == s[b]);
        }
        lemma_merge_all_apart(s0);
        let ms = merge_all(s0);
        assert(merge_all(s) == merge_step(ms, e));
        // Every merged event comes from an earlier input, so starts no later
        // than `e`.
        assert forall|k: int| 0 <= k < ms.len() implies (#[trigger] ms[k]).start <= e.start
            && (spec_same_event(ms[k], e) ==> e.start - ms[k].start <= DAY) by {
            assert(faces(s0).contains(face(ms[k])));
            let a = choose|a: int| 0 <= a < faces(s0).len() && faces(s0)[a] == face(ms[k]);
            assert(faces(s0)[a] == face(s0[a]));
            assert(s0[a] == s[a]);
            assert(s[a].start <= s[s.len() - 1].start);
            if spec_same_event(ms[k], e) {
                assert(ms[k].title == s[a].title && ms[k].start == s[a].start);
                assert(spec_same_event(s[a], s[s.len() - 1]));
            }
        }
        assert forall|k: int| 0 <= k < ms.len() implies faces(s).contains(face(#[trigger] ms[k])) by {
            assert(faces(s0).contains(face(ms[k])));
            let a = choose|a: int| 0 <= a < faces(s0).len() && faces(s0)[a] == face(ms[k]);
            assert(faces(s)[a] == faces(s0)[a]);
        }
        assert(faces(s)[s.len() - 1] == face(e));
        lemma_find_twin(ms, e, ms.len() as int);
        match find_twin(ms, e, ms.len() as int) {
            Some(j) => {
                let t = absorb(ms[j], e);
                let ms2 = ms.update(j, t);
                assert(face(t) == face(ms[j]));
                assert forall|k: int| 0 <= k < ms2.len() implies faces(s).contains(face(#[trigger] ms2[k])) by {
                    assert(face(ms2[k]) == face(ms[k]));
                }
                assert forall|x: int, y: int| 0 <= x <= y < ms2.len() implies ms2[x].start <= ms2[y].start by {
                    assert(ms2[x].start == ms[x].start && ms2[y].start == ms[y].start);
                }
                assert forall|x: int, y: int| 0 <= x < y < ms2.len()
                    implies !spec_same_event(#[trigger] ms2[x], #[trigger] ms2[y]) by {
                    assert(face(ms2[x]) == face(ms[x]) && face(ms2[y]) == face(ms[y]));
                    assert(!spec_same_event(ms[x], ms[y]));
                }
            },
            None => {
                lemma_no_twin(ms, e, ms.len() as int);
                let ms2 = ms.push(e);
                assert forall|k: int| 0 <= k < ms2.len() implies faces(s).contains(face(#[trigger] ms2[k])) by {
                    if k < ms.len() {
                        assert(ms2[k] == ms[k]);
                    }
                }
                assert forall|x: int, y: int| 0 <= x <= y < ms2.len() implies ms2[x].start <= ms2[y].start by {
                    if y < ms.len() {
                        assert(ms2[x] == ms[x] && ms2[y] == ms[y]);
                    } else if x < ms.len() {
                        assert(ms2[x] == ms[x]);
                    }
                }
                assert forall|x: int, y: int| 0 <= x < y < ms2.len()
                    implies !spec_same_event(#[trigger] ms2[x], #[trigger] ms2[y]) by {
                    assert(ms2[x] == ms[x]);
                    if y < ms.len() {
                        assert(ms2[y] == ms[y]);
                    } else {
                        assert(ms2[y] == e);
                    }
                }
            },
        }
    }
}

/// After merging, no event is a cross-post of an earlier one: each set of
/// cross-posts became one event. Cross-posts are matched among events that
/// start within a day of each other, so this holds where no two twins
/// start further apart than that.
pub proof fn law_merged_events_are_distinct(s: Seq<EventModel>, i: int, j: int)
    requires
        twins_within_a_day(s),
        0 <= i < j < spec_merge(s).len(),
    ensures
        !spec_same_event(spec_merge(s)[i], spec_merge(s)[j]),
{
    let t = sort_by_start(s);
    lemma_sort_by_start(s);
    t.to_multiset_ensures();
    s.to_multiset_ensures();
    assert forall|a: int, b: int|
        0 <= a < t.len() && 0 <= b < t.len() && #[trigger] spec_same_event(t[a], t[b])
            implies -DAY <= t[a].start - t[b].start <= DAY by {
        assert(t.contains(t[a]) && t.contains(t[b]));
        assert(t.to_multiset().count(t[a]) > 0 && t.to_multiset().count(t[b]) > 0);
        assert(s.to_multiset().count(t[a]) > 0 && s.to_multiset().count(t[b]) > 0);
        assert(s.contains(t[a]) && s.contains(t[b]));
        let x = choose|x: int| 0 <= x < s.len() && s[x] == t[a];
        let y = choose|y: int| 0 <= y < s.len() && s[y] == t[b];
        assert(spec_same_event(s[x], s[y]));
    }
    lemma_merge_all_apart(t);
    let ms = merge_all(t);
    assert(!spec_same_event(ms[i], ms[j]));
    assert(face(finished(ms[i])) == face(ms[i]));
    assert(face(finished(ms[j])) == face(ms[j]));
    assert(spec_merge(s)[i] == finished(ms[i]));
    assert(spec_merge(s)[j] == finished(ms[j]));
}

/// No control character anywhere in `s`.
pub open spec fn no_controls(s: Seq<char>) -> bool {
    forall|i: int| 0 <= i < s.len() ==> !is_control(#[trigger] s[i])
}

proof fn lemma_without_controls(s: Seq<char>)
    ensures
        no_controls(without_controls(s)),
    decreases s.len(),
{
    if s.len() > 0 {
        lemma_without_controls(s.drop_last());
        let w = without_controls(s.drop_last());
        if !is_control(s.last()) {
            assert forall|i: int| 0 <= i < w.push(s.last()).len() implies !is_control(#[trigger] w.push(s.last())[i]) by {
                if i < w.len() {
                    assert(w.push(s.last())[i] == w[i]);
                }
            }
        }
    }
}

proof fn lemma_trim_no_controls(s: Seq<char>)
    requires
        no_controls(s),
    ensures
        no_controls(trim(s)),
{
    lemma_trim_start_no_controls(s);
    lemma_trim_end_no_controls(trim_start(s));
}

proof fn lemma_trim_start_no_controls(s: Seq<char>)
    requires
        no_controls(s),
    ensures
        no_controls(trim_start(s)),
    decreases s.len(),
{
    if s.len() > 0 && is_whitespace(s[0]) {
        let t = s.drop_first();
        assert forall|i: int| 0 <= i < t.len() implies !is_control(#[trigger] t[i]) by {
            assert(t[i] == s[i + 1]);
        }
        lemma_trim_start_no_controls(t);
    }
}

proof fn lemma_trim_end_no_controls(s: Seq<char>)
    requires
        no_controls(s),
    ensures
        no_controls(trim_end(s)),
    decreases s.len(),
{
    if s.len() > 0 && is_whitespace(s.last()) {
        let t = s.drop_last();
        assert forall|i: int| 0 <= i < t.len() implies !is_control(#[trigger] t[i]) by {
            assert(t[i] == s[i]);
        }
        lemma_trim_end_no_controls(t);
    }
}

proof fn lemma_web_links(ls: Seq<(Seq<char>, Seq<char>)>)
    ensures
        forall|j: int| 0 <= j < web_links(ls).len() ==> is_web_url(#[trigger] web_links(ls)[j].1),
    decreases ls.len(),
{
    if ls.len() > 0 {
        lemma_web_links(ls.drop_last());
        let w = web_links(ls.drop_last());
        if is_web_url(ls.last().1) {
            assert forall|j: int| 0 <= j < w.push(ls.last()).len() implies is_web_url(#[trigger] w.push(ls.last())[j].1) by {
                if j < w.len() {
                    assert(w.push(ls.last())[j] == w[j]);
                }
            }
        }
    }
}

proof fn lemma_keys_from_known(gs: Seq<Seq<char>>, i: int)
    ensures
        forall|j: int| 0 <= j < keys_from(gs, i).len() ==> (#[trigger] key_row(keys_from(gs, i)[j])) is Some,
    decreases 12 - i,
{
    if 0 <= i < 12 {
        lemma_keys_from_known(gs, i + 1);
        let rest = keys_from(gs, i + 1);
        if exists|j: int| 0 <= j < gs.len() && group_row(#[trigger] gs[j]) == Some(i) {
            let k = group_table()[i].0;
            lemma_first_row_from(0, k, false);
            assert(row_hit(i, k, false));
            assert(key_row(k) is Some);
            assert forall|j: int| 0 <= j < (seq![k] + rest).len() implies (#[trigger] key_row((seq![k] + rest)[j])) is Some by {
                if j == 0 {
                    assert((seq![k] + rest)[0] == k);
                } else {
                    assert((seq![k] + rest)[j] == rest[j - 1]);
                }
            }
        }
    }
}

/// What sanitising leaves: every event has a title, a group and, unless it
/// was organised in a chat, a link; titles and places hold no control
/// characters; every link is a web link; every group is a key of the table.
pub proof fn law_sanitized_events_are_clean(ms: Seq<EventModel>)
    ensures
        forall|k: int| 0 <= k < spec_sanitize(ms).len() ==> {
            let e = #[trigger] spec_sanitize(ms)[k];
            &&& e.title.len() > 0 && e.groups.len() > 0 && (e.chat || e.links.len() > 0)
            &&& no_controls(e.title) && no_controls(e.location)
            &&& forall|j: int| 0 <= j < e.links.len() ==> is_web_url(#[trigger] e.links[j].1)
            &&& forall|j: int| 0 <= j < e.groups.len() ==> (#[trigger] key_row(e.groups[j])) is Some
        },
    decreases ms.len(),
{
    if ms.len() > 0 {
        law_sanitized_events_are_clean(ms.drop_last());
        let m = ms.last();
        let e = sanitized(m);
        lemma_without_controls(m.title);
        lemma_trim_no_controls(without_controls(m.title));
        let loc = strip_all(strip_all(m.location, ", Germany"@), ", Deutschland"@);
        lemma_without_controls(loc);
        lemma_trim_no_controls(without_controls(loc));
        lemma_web_links(m.links);
        lemma_keys_from_known(m.groups, 0);
        let rest = spec_sanitize(ms.drop_last());
        if keeps(e) {
            assert forall|k: int| 0 <= k < rest.push(e).len() implies {
                let x = #[trigger] rest.push(e)[k];
                &&& x.title.len() > 0 && x.groups.len() > 0 && (x.chat || x.links.len() > 0)
                &&& no_controls(x.title) && no_controls(x.location)
                &&& forall|j: int| 0 <= j < x.links.len() ==> is_web_url(#[trigger] x.links[j].1)
                &&& forall|j: int| 0 <= j < x.groups.len() ==> (#[trigger] key_row(x.groups[j])) is Some
            } by {
                if k < rest.len() {
                    assert(rest.push(e)[k] == rest[k]);
                }
            }
        }
    }
}

/// Some link of `ls` has the URL `u`.
pub open spec fn has_url(ls: Seq<(Seq<char>, Seq<char>)>, u: Seq<char>) -> bool {
    exists|i: int| 0 <= i < ls.len() && (#[trigger] ls[i]).1 == u
}

/// Some event of `ms` links to `u`.
pub open spec fn url_kept(ms: Seq<EventModel>, u: Seq<char>) -> bool {
    exists|m: int| 0 <= m < ms.len() && has_url((#[trigger] ms[m]).links, u)
}

/// Some event of `ms` is in group `g`.
pub open spec fn group_kept(ms: Seq<EventModel>, g: Seq<char>) -> bool {
    exists|m: int| 0 <= m < ms.len() && (#[trigger] ms[m]).groups.contains(g)
}

proof fn lemma_add_links(t: Seq<(Seq<char>, Seq<char>)>, add: Seq<(Seq<char>, Seq<char>)>)
    ensures
        add_links(t, add).len() >= t.len(),
        forall|i: int| 0 <= i < t.len() ==> #[trigger] add_links(t, add)[i] == t[i],
        forall|j: int| 0 <= j < add.len() ==> has_url(add_links(t, add), (#[trigger] add[j]).1),
    decreases add.len(),
{
    if add.len() > 0 {
        lemma_add_links(t, add.drop_last());
        let r = add_links(t, add.drop_last());
        let x = add.last();
        let out = add_links(t, add);
        assert forall|j: int| 0 <= j < add.len() implies has_url(out, (#[trigger] add[j]).1) by {
            if j < add.len() - 1 {
                assert(add.drop_last()[j] == add[j]);
                let i = choose|i: int| 0 <= i < r.len() && (#[trigger] r[i]).1 == add[j].1;
                assert(out[i] == r[i]);
            } else if exists|i: int| 0 <= i < r.len() && (#[trigger] r[i]).1 == x.1 {
                assert(out == r);
            } else {
                assert(out[r.len() as int] == x);
            }
        }
        assert forall|i: int| 0 <= i < t.len() implies #[trigger] out[i] == t[i] by {
            assert(out[i] == r[i]);
        }
    }
}

proof fn lemma_add_groups(t: Seq<Seq<char>>, add: Seq<Seq<char>>)
    ensures
        forall|g: Seq<char>| t.contains(g) || add.contains(g) ==> #[trigger] add_groups(t, add).contains(g),
    decreases add.len(),
{
    if add.len() > 0 {
        lemma_add_groups(t, add.drop_last());
        let r = add_groups(t, add.drop_last());
        let out = add_groups(t, add);
        assert forall|g: Seq<char>| t.contains(g) || add.contains(g) implies #[trigger] out.contains(g) by {
            if t.contains(g) || add.drop_last().contains(g) {
                assert(r.contains(g));
                let i = choose|i: int| 0 <= i < r.len() && r[i] == g;
                if !r.contains(add.last()) {
                    assert(out[i] == r[i]);
                }
            } else {
                let j = choose|j: int| 0 <= j < add.len() && add[j] == g;
                if j < add.len() - 1 {
                    assert(add.drop_last()[j] == g);
                }
                assert(g == add.last());
                if !r.contains(add.last()) {
                    assert(out[r.len() as int] == g);
                }
            }
        }
    }
}

/// Folding `e` into `t` keeps every link and group of both.
proof fn lemma_absorb_keeps(t: EventModel, e: EventModel)
    ensures
        forall|u: Seq<char>| has_url(t.links, u) || has_url(e.links, u) ==> #[trigger] has_url(absorb(t, e).links, u),
        forall|g: Seq<char>| t.groups.contains(g) || e.groups.contains(g) ==> #[trigger] absorb(t, e).groups.contains(g),
{
    lemma_add_links(t.links, e.links);
    lemma_add_groups(t.groups, e.groups);
    let out = absorb(t, e).links;
    assert forall|u: Seq<char>| has_url(t.links, u) || has_url(e.links, u) implies #[trigger] has_url(out, u) by {
        if has_url(t.links, u) {
            let i = choose|i: int| 0 <= i < t.links.len() && (#[trigger] t.links[i]).1 == u;
            assert(out[i] == t.links[i]);
        } else {
            let j = choose|j: int| 0 <= j < e.links.len() && (#[trigger] e.links[j]).1 == u;
            assert(has_url(out, e.links[j].1));
        }
    }
}

proof fn lemma_merge_all_keeps(s: Seq<EventModel>)
    ensures
        forall|k: int, j: int| 0 <= k < s.len() && 0 <= j < s[k].links.len()
            ==> url_kept(merge_all(s), (#[trigger] s[k].links[j]).1),
        forall|k: int, j: int| 0 <= k < s.len() && 0 <= j < s[k].groups.len()
            ==> group_kept(merge_all(s), #[trigger] s[k].groups[j]),
    decreases s.len(),
{
    if s.len() > 0 {
        let s0 = s.drop_last();
        let e = s.last();
        lemma_merge_all_keeps(s0);
        let ms = merge_all(s0);
        let out = merge_all(s);
        assert(out == merge_step(ms, e));
        lemma_find_twin(ms, e, ms.len() as int);
        let tw = find_twin(ms, e, ms.len() as int);
        // What `ms` keeps, `out` keeps.
        assert forall|u: Seq<char>| url_kept(ms, u) implies #[trigger] url_kept(out, u) by {
            let m = choose|m: int| 0 <= m < ms.len() && has_url((#[trigger] ms[m]).links, u);
            match tw {
                Some(j) => {
                    if m == j {
                        lemma_absorb_keeps(ms[j], e);
                        assert(has_url(out[j].links, u));
                    } else {
                        assert(out[m] == ms[m]);
                    }
                },
                None => {
                    assert(out[m] == ms[m]);
                },
            }
        }
        assert forall|g: Seq<char>| group_kept(ms, g) implies #[trigger] group_kept(out, g) by {
            let m = choose|m: int| 0 <= m < ms.len() && (#[trigger] ms[m]).groups.contains(g);
            match tw {
                Some(j) => {
                    if m == j {
                        lemma_absorb_keeps(ms[j], e);
                        assert(out[j].groups.contains(g));
                    } else {
                        assert(out[m] == ms[m]);
                    }
                },
                None => {
                    assert(out[m] == ms[m]);
                },
            }
        }
        // And `e`'s own links and groups are in `out`.
        let at = match tw { Some(j) => j, None => ms.len() as int };
        assert(0 <= at < out.len());
        assert forall|u: Seq<char>| has_url(e.links, u) implies #[trigger] has_url(out[at].links, u) by {
            if let Some(j) = tw {
                lemma_absorb_keeps(ms[j], e);
            }
        }
        assert forall|g: Seq<char>| e.groups.contains(g) implies #[trigger] out[at].groups.contains(g) by {
            if let Some(j) = tw {
                lemma_absorb_keeps(ms[j], e);
            }
        }
        assert forall|k: int, j: int| 0 <= k < s.len() && 0 <= j < s[k].links.len()
            implies url_kept(out, (#[trigger] s[k].links[j]).1) by {
            if k < s.len() - 1 {
                assert(s0[k] == s[k]);
                assert(url_kept(ms, s0[k].links[j].1));
            } else {
                assert(has_url(e.links, s[k].links[j].1));
                assert(has_url(out[at].links, s[k].links[j].1));
            }
        }
        assert forall|k: int, j: int| 0 <= k < s.len() && 0 <= j < s[k].groups.len()
            implies group_kept(out, #[trigger] s[k].groups[j]) by {
            if k < s.len() - 1 {
                assert(s0[k] == s[k]);
                assert(group_kept(ms, s0[k].groups[j]));
            } else {
                assert(e.groups.contains(s[k].groups[j]));
                assert(out[at].groups.contains(s[k].groups[j]));
            }
        }
    }
}

proof fn lemma_unknown_groups_keep(gs: Seq<Seq<char>>, g: Seq<char>)
    requires
        gs.contains(g),
        key_row(g) is None,
    ensures
        unknown_groups(gs).contains(g),
    decreases gs.len(),
{
    let u = unknown_groups(gs);
    if gs.last() == g {
        assert(u[u.len() - 1] == g);
    } else {
        let i = choose|i: int| 0 <= i < gs.len() && gs[i] == g;
        assert(gs.drop_last()[i] == g);
        lemma_unknown_groups_keep(gs.drop_last(), g);
        let v = unknown_groups(gs.drop_last());
        let k = choose|k: int| 0 <= k < v.len() && v[k] == g;
        if key_row(gs.last()) is None {
            assert(u[k] == g);
        }
    }
}

proof fn lemma_groups_of_row_keep(gs: Seq<Seq<char>>, g: Seq<char>, r: int)
    requires
        gs.contains(g),
        key_row(g) == Some(r),
    ensures
        groups_of_row(gs, r).contains(g),
    decreases gs.len(),
{
    let u = groups_of_row(gs, r);
    if gs.last() == g {
        assert(u[u.len() - 1] == g);
    } else {
        let i = choose|i: int| 0 <= i < gs.len() && gs[i] == g;
        assert(gs.drop_last()[i] == g);
        lemma_groups_of_row_keep(gs.drop_last(), g, r);
        let v = groups_of_row(gs.drop_last(), r);
        let k = choose|k: int| 0 <= k < v.len() && v[k] == g;
        if key_row(gs.last()) == Some(r) {
            assert(u[k] == g);
        }
    }
}

proof fn lemma_known_from_keep(gs: Seq<Seq<char>>, g: Seq<char>, i: int, r: int)
    requires
        0 <= i <= r < 12,
        groups_of_row(gs, r).contains(g),
    ensures
        known_from(gs, i).contains(g),
    decreases r - i,
{
    let a = groups_of_row(gs, i);
    let b = known_from(gs, i + 1);
    assert(known_from(gs, i) == a + b);
    if i == r {
        let k = choose|k: int| 0 <= k < a.len() && a[k] == g;
        assert((a + b)[k] == g);
    } else {
        lemma_known_from_keep(gs, g, i + 1, r);
        let k = choose|k: int| 0 <= k < b.len() && b[k] == g;
        assert((a + b)[a.len() + k] == g);
    }
}

/// Putting groups in table order loses none.
proof fn lemma_sort_groups_keep(gs: Seq<Seq<char>>, g: Seq<char>)
    requires
        gs.contains(g),
    ensures
        sort_groups(gs).contains(g),
{
    let u = unknown_groups(gs);
    let k = known_from(gs, 0);
    lemma_first_row_from(0, g, false);
    match key_row(g) {
        None => {
            lemma_unknown_groups_keep(gs, g);
            let i = choose|i: int| 0 <= i < u.len() && u[i] == g;
            assert((u + k)[i] == g);
        },
        Some(r) => {
            lemma_groups_of_row_keep(gs, g, r);
            lemma_known_from_keep(gs, g, 0, r);
            let i = choose|i: int| 0 <= i < k.len() && k[i] == g;
            assert((u + k)[u.len() + i] == g);
        },
    }
}

/// Finishing an event keeps its links and every group it had.
proof fn lemma_finished_keeps(m: EventModel, g: Seq<char>)
    requires
        m.groups.contains(g),
    ensures
        finished(m).links == m.links,
        finished(m).groups.contains(g),
{
    let t = tagged(m);
    assert(t.groups.contains(g)) by {
        let i = choose|i: int| 0 <= i < m.groups.len() && m.groups[i] == g;
        if m.in_any(seq!["acx"@, "ea"@]) {
            let lower = spec_to_lowercase(m.title);
            let words = alnum_split(lower);
            let acx = exists|k: int| 0 <= k < 6 && words.contains(#[trigger] acx_words()[k]);
            let g1 = if acx && !m.groups.contains("acx"@) { m.groups.push("acx"@) } else { m.groups };
            assert(g1[i] == g);
            let ea = words.contains("ea"@) || contains_seq(lower, "effective altruism"@);
            let g2 = if ea && !g1.contains("ea"@) { g1.push("ea"@) } else { g1 };
            assert(g2[i] == g);
            assert(t.groups == g2);
        }
    }
    lemma_sort_groups_keep(t.groups, g);
}

/// Merging loses nothing: every link of every event (by its URL) and every
/// group of every event is on some merged event.
pub proof fn law_merge_keeps_every_link_and_group(s: Seq<EventModel>, k: int)
    requires
        0 <= k < s.len(),
    ensures
        forall|j: int| 0 <= j < s[k].links.len() ==> url_kept(spec_merge(s), (#[trigger] s[k].links[j]).1),
        forall|j: int| 0 <= j < s[k].groups.len() ==> group_kept(spec_merge(s), #[trigger] s[k].groups[j]),
{
    let t = sort_by_start(s);
    lemma_sort_by_start(s);
    t.to_multiset_ensures();
    s.to_multiset_ensures();
    assert(s.contains(s[k]));
    assert(s.to_multiset().count(s[k]) > 0);
    assert(t.to_multiset().count(s[k]) > 0);
    assert(t.contains(s[k]));
    let kk = choose|kk: int| 0 <= kk < t.len() && t[kk] == s[k];
    lemma_merge_all_keeps(t);
    let ms = merge_all(t);
    let out = spec_merge(s);
    assert(out.len() == ms.len());
    assert forall|j: int| 0 <= j < s[k].links.len() implies url_kept(out, (#[trigger] s[k].links[j]).1) by {
        assert(t[kk].links[j] == s[k].links[j]);
        assert(url_kept(ms, t[kk].links[j].1));
        let m = choose|m: int| 0 <= m < ms.len() && has_url((#[trigger] ms[m]).links, t[kk].links[j].1);
        assert(out[m] == finished(ms[m]));
        assert(finished(ms[m]).links == ms[m].links);
    }
    assert forall|j: int| 0 <= j < s[k].groups.len() implies group_kept(out, #[trigger] s[k].groups[j]) by {
        assert(t[kk].groups[j] == s[k].groups[j]);
        assert(group_kept(ms, t[kk].groups[j]));
        let m = choose|m: int| 0 <= m < ms.len() && (#[trigger] ms[m]).groups.contains(t[kk].groups[j]);
        lemma_finished_keeps(ms[m], s[k].groups[j]);
        assert(out[m] == finished(ms[m]));
    }
}

/// Event `m` carries everything of `e` a reader counts on: each of its
/// links and at least its sign-ups.
#[verifier::opaque]
pub open spec fn carries(m: EventModel, e: EventModel) -> bool {
    m.signups >= e.signups && forall|j: int| 0 <= j < e.links.len() ==> has_url(m.links, (#[trigger] e.links[j]).1)
}

proof fn lemma_absorb_carries(t: EventModel, e: EventModel, x: EventModel)
    ensures
        carries(absorb(t, e), e),
        carries(t, x) ==> carries(absorb(t, e), x),
        absorb(t, e).signups == t.signups || absorb(t, e).signups == e.signups,
{
    reveal(carries);
    lemma_absorb_keeps(t, e);
    assert forall|j: int| 0 <= j < e.links.len() implies has_url(absorb(t, e).links, (#[trigger] e.links[j]).1) by {
        assert(has_url(e.links, e.links[j].1));
    }
    if carries(t, x) {
        assert forall|j: int| 0 <= j < x.links.len() implies has_url(absorb(t, e).links, (#[trigger] x.links[j]).1) by {
            assert(has_url(t.links, x.links[j].1));
        }
    }
}

proof fn lemma_carries_itself(e: EventModel, m: EventModel)
    requires
        m.links == e.links,
        m.signups == e.signups,
    ensures
        carries(m, e),
{
    reveal(carries);
    assert forall|j: int| 0 <= j < e.links.len() implies has_url(m.links, (#[trigger] e.links[j]).1) by {
        assert(m.links[j] == e.links[j]);
    }
}

proof fn lemma_carries_same(a: EventModel, b: EventModel, e: EventModel)
    requires
        carries(a, e),
        a.links == b.links,
        a.signups == b.signups,
    ensures
        carries(b, e),
{
    reveal(carries);
}

proof fn lemma_merge_all_carries(s: Seq<EventModel>)
    ensures
        forall|k: int| #![trigger s[k]] 0 <= k < s.len() ==> exists|m: int| 0 <= m < merge_all(s).len()
            && carries(#[trigger] merge_all(s)[m], s[k]),
    decreases s.len(),
{
    if s.len() > 0 {
        let s0 = s.drop_last();
        let e = s.last();
        lemma_merge_all_carries(s0);
        let ms = merge_all(s0);
        let out = merge_all(s);
        assert(out == merge_step(ms, e));
        lemma_find_twin(ms, e, ms.len() as int);
        let tw = find_twin(ms, e, ms.len() as int);
        let at = match tw { Some(j) => j, None => ms.len() as int };
        match tw {
            Some(j) => { lemma_absorb_carries(ms[j], e, e); },
            None => { lemma_carries_itself(e, out[at]); },
        }
        assert forall|k: int| #![trigger s[k]] 0 <= k < s.len() implies exists|m: int| 0 <= m < out.len()
            && carries(#[trigger] out[m], s[k]) by {
            if k == s.len() - 1 {
                assert(carries(out[at], s[k]));
            } else {
                assert(s0[k] == s[k]);
                let m = choose|m: int| 0 <= m < ms.len() && carries(#[trigger] ms[m], s0[k]);
                match tw {
                    Some(j) => {
                        if m == j {
                            lemma_absorb_carries(ms[j], e, s[k]);
                        } else {
                            assert(out[m] == ms[m]);
                        }
                    },
                    None => { assert(out[m] == ms[m]); },
                }
                assert(carries(out[m], s[k]));
            }
        }
    }
}

proof fn lemma_merge_all_signups(s: Seq<EventModel>)
    ensures
        forall|m: int| 0 <= m < merge_all(s).len() ==> exists|k: int| 0 <= k < s.len()
            && (#[trigger] merge_all(s)[m]).signups == s[k].signups,
    decreases s.len(),
{
    if s.len() > 0 {
        let s0 = s.drop_last();
        let e = s.last();
        lemma_merge_all_signups(s0);
        let ms = merge_all(s0);
        let out = merge_all(s);
        assert(out == merge_step(ms, e));
        lemma_find_twin(ms, e, ms.len() as int);
        let tw = find_twin(ms, e, ms.len() as int);
        let at = match tw { Some(j) => j, None => ms.len() as int };
        assert forall|m: int| 0 <= m < out.len() implies exists|k: int| 0 <= k < s.len()
            && (#[trigger] out[m]).signups == s[k].signups by {
            if m == at {
                match tw {
                    Some(j) => {
                        let t = ms[j];
                        assert(out[m] == absorb(t, e));
                        if out[m].signups == e.signups {
                            assert(s[s.len() - 1] == e);
                        } else {
                            assert(out[m].signups == t.signups);
                            let k = choose|k: int| 0 <= k < s0.len() && (#[trigger] ms[j]).signups == s0[k].signups;
                            assert(s[k] == s0[k]);
                        }
                    },
                    None => { assert(s[s.len() - 1] == e); },
                }
            } else {
                assert(out[m] == ms[m]);
                let k = choose|k: int| 0 <= k < s0.len() && (#[trigger] ms[m]).signups == s0[k].signups;
                assert(s[k] == s0[k]);
            }
        }
    }
}

proof fn lemma_sorted_same_events(s: Seq<EventModel>, x: EventModel)
    ensures
        sort_by_start(s).contains(x) <==> s.contains(x),
        sort_by_start(s).len() == s.len(),
{
    lemma_sort_by_start(s);
    sort_by_start(s).to_multiset_ensures();
    s.to_multiset_ensures();
    assert(sort_by_start(s).contains(x) <==> sort_by_start(s).to_multiset().count(x) > 0);
    assert(s.contains(x) <==> s.to_multiset().count(x) > 0);
}

proof fn lemma_finished_fields(m: EventModel)
    ensures
        finished(m).links == m.links,
        finished(m).signups == m.signups,
{
}

/// Merging keeps the most sign-ups: every event's links end up on one
/// merged event that has at least that event's sign-ups, and a merged
/// event's sign-ups are those of one of the events folded together. So
/// cross-posts keep the largest count.
#[verifier::spinoff_prover]
pub proof fn law_merge_keeps_the_most_signups(s: Seq<EventModel>, k: int, m: int)
    requires
        0 <= k < s.len(),
    ensures
        exists|x: int| 0 <= x < spec_merge(s).len() && carries(#[trigger] spec_merge(s)[x], s[k]),
        0 <= m < spec_merge(s).len() ==> exists|i: int| 0 <= i < s.len() && spec_merge(s)[m].signups == (#[trigger] s[i]).signups,
{
    let t = sort_by_start(s);
    lemma_sorted_same_events(s, s[k]);
    assert(s.contains(s[k]));
    let kk = choose|kk: int| 0 <= kk < t.len() && t[kk] == s[k];
    lemma_merge_all_carries(t);
    lemma_merge_all_signups(t);
    let ms = merge_all(t);
    let out = spec_merge(s);
    assert(out == ms.map_values(|m: EventModel| finished(m)));
    assert(out.len() == ms.len());
    assert(0 <= kk < t.len());
    let x = choose|x: int| 0 <= x < ms.len() && carries(#[trigger] ms[x], t[kk]);
    assert(out[x] == finished(ms[x]));
    lemma_finished_fields(ms[x]);
    lemma_carries_same(ms[x], out[x], s[k]);
    if 0 <= m < out.len() {
        let i = choose|i: int| 0 <= i < t.len() && (#[trigger] ms[m]).signups == t[i].signups;
        assert(out[m] == finished(ms[m]));
        lemma_finished_fields(ms[m]);
        assert(t.contains(t[i]));
        lemma_sorted_same_events(s, t[i]);
        let j = choose|j: int| 0 <= j < s.len() && s[j] == t[i];
        assert(out[m].signups == s[j].signups);
    }
}

} // verus!
