//! Where events come from, and what is read out of what the sources send.
//! Each source gives everything it knows, past and upcoming; the caller
//! decides what goes where. Fetching is the caller's; everything read out
//! of a page, a feed or a reply is here.

use vstd::prelude::*;
use crate::text::{
    chars_of, string_of, push_str, push_chars, slice_chars, replace, replaced, collapse_ws, collapse_whitespace,
    first_occurrence, find_str, occurs_at, starts_with, ws_words, split_ws, split_on, split_char, split_on2,
    split_char2, lemma_split_on_nonempty, lemma_split_on2_nonempty, trim, trim_chars, parse_unsigned, parse_signed,
    parse_uint, parse_int, views, eq_str, split_str, split_string,
};
use crate::event::{Event, EventModel, Raw, spec_new, Came, all_wf, string_views, spec_title_words, title_words, all_in, is_subset};
use crate::time::{munich_day_of, munich_day};
use crate::text::{alnum_split, split_alnum, spec_to_lowercase, to_lowercase, contains_seq, contains, contains_str, join, join_from};
use crate::time::{valid_time, spec_parse_rfc3339, parse_rfc3339};
use crate::ics::{first_index_of, find_char, from_local, local_to_utc, IcsEvent, IcsModel, ics_views, ics_prop, prop_time,
    spec_value, value, prop, time, spec_occurrences, occurrences};
use crate::time::DAY;
use crate::time::{spec_local_from_fields, local_from_fields, berlin};
use crate::stats::month_abbr;
use crate::text::{str_less, less_str, lemma_str_less_order};
use crate::event::strs_view;

verus! {

// HTML

/// `s` with every tag, from `<` to the `>` that closes it, taken out.
pub open spec fn drop_tags(s: Seq<char>, in_tag: bool) -> Seq<char>
    decreases s.len(),
{
    if s.len() == 0 {
        seq![]
    } else if s[0] == '<' {
        drop_tags(s.drop_first(), true)
    } else if s[0] == '>' && in_tag {
        drop_tags(s.drop_first(), false)
    } else if !in_tag {
        seq![s[0]] + drop_tags(s.drop_first(), false)
    } else {
        drop_tags(s.drop_first(), true)
    }
}

/// Plain text from HTML as Google writes descriptions: line breaks for
/// `<br>`, no tags, and the common entities read.
pub open spec fn spec_strip_html(s: Seq<char>) -> Seq<char> {
    let a = replaced(replaced(replaced(s, "<br>"@, "\n"@), "<br/>"@, "\n"@), "<br />"@, "\n"@);
    let b = drop_tags(a, false);
    replaced(replaced(replaced(replaced(replaced(replaced(b, "&nbsp;"@, " "@), "&lt;"@, "<"@), "&gt;"@, ">"@),
        "&quot;"@, "\""@), "&#39;"@, "'"@), "&amp;"@, "&"@)
}

fn without_tags(s: &Vec<char>) -> (r: Vec<char>)
    ensures
        r@ == drop_tags(s@, false),
{
    let mut out: Vec<char> = Vec::new();
    let mut in_tag = false;
    let mut i: usize = 0;
    assert(s@.skip(0) == s@);
    while i < s.len()
        invariant
            i <= s@.len(),
            out@ + drop_tags(s@.skip(i as int), in_tag) == drop_tags(s@, false),
        decreases s@.len() - i,
    {
        let c = s[i];
        let ghost o = out@;
        let ghost t0 = in_tag;
        assert(s@.skip(i as int)[0] == c);
        assert(s@.skip(i as int).drop_first() == s@.skip(i + 1));
        if c == '<' {
            in_tag = true;
        } else if c == '>' && in_tag {
            in_tag = false;
        } else if !in_tag {
            out.push(c);
        }
        assert(out@ + drop_tags(s@.skip(i + 1), in_tag) =~= o + drop_tags(s@.skip(i as int), t0));
        i = i + 1;
    }
    assert(s@.skip(i as int) =~= Seq::<char>::empty());
    out
}

/// Google puts HTML in descriptions.
pub fn strip_html(s: &str) -> (r: String)
    ensures
        r@ == spec_strip_html(s@),
{
    proof {
        reveal_strlit("<br>");
        reveal_strlit("<br/>");
        reveal_strlit("<br />");
        reveal_strlit("&nbsp;");
        reveal_strlit("&lt;");
        reveal_strlit("&gt;");
        reveal_strlit("&quot;");
        reveal_strlit("&#39;");
        reveal_strlit("&amp;");
    }
    let a = replace(&replace(&replace(&chars_of(s), "<br>", "\n"), "<br/>", "\n"), "<br />", "\n");
    let b = without_tags(&a);
    let c = replace(&replace(&replace(&b, "&nbsp;", " "), "&lt;", "<"), "&gt;", ">");
    let d = replace(&replace(&replace(&c, "&quot;", "\""), "&#39;", "'"), "&amp;", "&");
    string_of(&d)
}

/// `split_whitespace().join(" ")`.
pub fn collapse(s: &str) -> (r: String)
    ensures
        r@ == collapse_ws(s@),
{
    string_of(&collapse_whitespace(&chars_of(s)))
}

/// The cells from the first `<td` of `rest` on: each one's inner text as
/// plain text on one line.
pub open spec fn cells_from(rest: Seq<char>) -> Seq<Seq<char>>
    decreases rest.len(),
{
    match first_occurrence(rest, "<td"@, 0) {
        None => seq![],
        Some(i) => if i < 0 || i > rest.len() {
            seq![]
        } else {
            let r = rest.skip(i);
            match (first_occurrence(r, ">"@, 0), first_occurrence(r, "</td>"@, 0)) {
                (Some(open), Some(close)) => {
                    let end = if close > open + 1 { close } else { open + 1 };
                    if open < 0 || end > r.len() {
                        seq![]
                    } else {
                        seq![collapse_ws(spec_strip_html(r.subrange(open + 1, end)))] + cells_from(r.skip(end))
                    }
                },
                _ => seq![],
            }
        },
    }
}

pub open spec fn string_seq_views(v: Seq<String>) -> Seq<Seq<char>> {
    v.map_values(|s: String| s@)
}

/// Inner text of every `<td>`, in order; tags dropped.
pub fn table_cells(html: &str) -> (r: Vec<String>)
    ensures
        string_seq_views(r@) == cells_from(html@),
{
    let h = chars_of(html);
    let mut cells: Vec<String> = Vec::new();
    let mut rest = h;
    loop
        invariant
            string_seq_views(cells@) + cells_from(rest@) == cells_from(html@),
        decreases rest@.len(),
    {
        let ghost r0 = rest@;
        let ghost c0 = string_seq_views(cells@);
        proof {
            crate::text::lemma_first_occurrence(rest@, "<td"@, 0);
        }
        let i = match find_str(&rest, "<td", 0) {
            Some(i) => i,
            None => {
                assert(cells_from(r0) == Seq::<Seq<char>>::empty());
                assert(string_seq_views(cells@) =~= cells_from(html@));
                return cells;
            },
        };
        let r = slice_chars(&rest, i, rest.len());
        assert(r@ == r0.skip(i as int));
        proof {
            reveal_strlit(">");
            reveal_strlit("</td>");
            crate::text::lemma_first_occurrence(r@, ">"@, 0);
            crate::text::lemma_first_occurrence(r@, "</td>"@, 0);
        }
        let open = match find_str(&r, ">", 0) {
            Some(o) => o,
            None => {
                assert(string_seq_views(cells@) =~= cells_from(html@));
                return cells;
            },
        };
        let close = match find_str(&r, "</td>", 0) {
            Some(c) => c,
            None => {
                assert(string_seq_views(cells@) =~= cells_from(html@));
                return cells;
            },
        };
        assert(occurs_at(r@, ">"@, open as int) && occurs_at(r@, "</td>"@, close as int));
        let end = if close > open + 1 { close } else { open + 1 };
        let inner = slice_chars(&r, open + 1, end);
        let cell = collapse(strip_html(string_of(&inner).as_str()).as_str());
        cells.push(cell);
        rest = slice_chars(&r, end, r.len());
        assert(string_seq_views(cells@) =~= c0.push(collapse_ws(spec_strip_html(r@.subrange(open + 1, end as int)))));
        assert(rest@ == r@.skip(end as int));
        assert(string_seq_views(cells@) + cells_from(rest@) =~= c0 + cells_from(r0));
    }
}

// Luma

/// Characters a Luma slug is made of.
pub open spec fn slug_char(c: char) -> bool {
    ('a' <= c && c <= 'z') || ('A' <= c && c <= 'Z') || ('0' <= c && c <= '9') || c == '-' || c == '_'
}

/// How many characters from the start of `s` are slug characters.
pub open spec fn slug_len(s: Seq<char>) -> nat
    decreases s.len(),
{
    if s.len() > 0 && slug_char(s[0]) { 1 + slug_len(s.drop_first()) } else { 0 }
}

/// The event page `text` links to after `prefix`, if it names one.
pub open spec fn luma_link_after(text: Seq<char>, prefix: Seq<char>) -> Option<Seq<char>> {
    match first_occurrence(text, prefix, 0) {
        None => None,
        Some(i) => {
            let rest = text.skip(i + prefix.len());
            let n = slug_len(rest);
            if n == 0 { None } else { Some(prefix + rest.take(n as int)) }
        },
    }
}

/// The first Luma event page a description links to.
pub open spec fn spec_find_luma_link(text: Seq<char>) -> Option<Seq<char>> {
    match luma_link_after(text, "https://luma.com/"@) {
        Some(l) => Some(l),
        None => luma_link_after(text, "https://lu.ma/"@),
    }
}

fn link_after(text: &Vec<char>, prefix: &str) -> (r: Option<Vec<char>>)
    ensures
        match r {
            Some(v) => luma_link_after(text@, prefix@) == Some(v@),
            None => luma_link_after(text@, prefix@) is None,
        },
{
    proof {
        crate::text::lemma_first_occurrence(text@, prefix@, 0);
    }
    let i = match find_str(text, prefix, 0) {
        Some(i) => i,
        None => return None,
    };
    let p = chars_of(prefix);
    let tl = text.len();
    assert(occurs_at(text@, prefix@, i as int));
    assert(i + p@.len() <= tl);
    let start = i + p.len();
    let ghost rest = text@.skip(start as int);
    let mut k = start;
    assert(rest.skip(0) == rest);
    while k < text.len() && (('a' <= text[k] && text[k] <= 'z') || ('A' <= text[k] && text[k] <= 'Z')
        || ('0' <= text[k] && text[k] <= '9') || text[k] == '-' || text[k] == '_')
        invariant
            start <= k <= text@.len(),
            rest == text@.skip(start as int),
            slug_len(rest) == (k - start) + slug_len(rest.skip(k - start)),
        decreases text@.len() - k,
    {
        assert(rest.skip(k - start)[0] == text@[k as int]);
        assert(rest.skip(k - start).drop_first() == rest.skip(k + 1 - start));
        k = k + 1;
    }
    assert(slug_len(rest.skip(k - start)) == 0);
    if k == start {
        return None;
    }
    let mut out = p;
    push_chars(&mut out, &slice_chars(text, start, k));
    assert(rest.take(k - start) =~= text@.subrange(start as int, k as int));
    Some(out)
}

pub fn find_luma_link(text: &str) -> (r: Option<String>)
    ensures
        match r {
            Some(v) => spec_find_luma_link(text@) == Some(v@),
            None => spec_find_luma_link(text@) is None,
        },
{
    let t = chars_of(text);
    match link_after(&t, "https://luma.com/") {
        Some(l) => Some(string_of(&l)),
        None => match link_after(&t, "https://lu.ma/") {
            Some(l) => Some(string_of(&l)),
            None => None,
        },
    }
}

/// The slug of a Luma event page, if `url` is one with a sound slug.
pub open spec fn spec_luma_slug(url: Seq<char>) -> Option<Seq<char>> {
    let slug = if "https://luma.com/"@.is_prefix_of(url) {
        Some(url.skip("https://luma.com/"@.len() as int))
    } else if "https://lu.ma/"@.is_prefix_of(url) {
        Some(url.skip("https://lu.ma/"@.len() as int))
    } else {
        None
    };
    match slug {
        Some(s) => if s.len() > 0 && slug_len(s) == s.len() { Some(s) } else { None },
        None => None,
    }
}

proof fn lemma_slug_len_all(s: Seq<char>)
    ensures
        slug_len(s) == s.len() <==> forall|i: int| 0 <= i < s.len() ==> slug_char(#[trigger] s[i]),
        slug_len(s) <= s.len(),
    decreases s.len(),
{
    if s.len() > 0 {
        lemma_slug_len_all(s.drop_first());
        if slug_char(s[0]) {
            assert forall|i: int| 0 <= i < s.len() && (forall|j: int| 0 <= j < s.drop_first().len() ==> slug_char(#[trigger] s.drop_first()[j])) implies slug_char(#[trigger] s[i]) by {
                if i > 0 {
                    assert(s[i] == s.drop_first()[i - 1]);
                }
            }
            assert((forall|i: int| 0 <= i < s.len() ==> slug_char(#[trigger] s[i])) ==> (forall|j: int| 0 <= j < s.drop_first().len() ==> slug_char(#[trigger] s.drop_first()[j]))) by {
                assert forall|j: int| (forall|i: int| 0 <= i < s.len() ==> slug_char(#[trigger] s[i])) && 0 <= j < s.drop_first().len() implies slug_char(#[trigger] s.drop_first()[j]) by {
                    assert(s.drop_first()[j] == s[j + 1]);
                }
            }
        }
    }
}

/// The slug of a Luma event page, for asking Luma how many registered.
pub fn luma_slug(url: &str) -> (r: Option<String>)
    ensures
        match r {
            Some(v) => spec_luma_slug(url@) == Some(v@),
            None => spec_luma_slug(url@) is None,
        },
{
    let u = chars_of(url);
    let a = chars_of("https://luma.com/");
    let b = chars_of("https://lu.ma/");
    let slug = if starts_with(&u, "https://luma.com/") {
        let s = slice_chars(&u, a.len(), u.len());
        assert(s@ == url@.skip("https://luma.com/"@.len() as int));
        s
    } else if starts_with(&u, "https://lu.ma/") {
        let s = slice_chars(&u, b.len(), u.len());
        assert(s@ == url@.skip("https://lu.ma/"@.len() as int));
        s
    } else {
        return None;
    };
    assert(spec_luma_slug(url@) == if slug@.len() > 0 && slug_len(slug@) == slug@.len() { Some(slug@) } else { None::<Seq<char>> });
    if slug.len() == 0 {
        return None;
    }
    let mut i: usize = 0;
    while i < slug.len()
        invariant
            i <= slug@.len(),
            slug@.len() > 0,
            spec_luma_slug(url@) == if slug_len(slug@) == slug@.len() { Some(slug@) } else { None::<Seq<char>> },
            forall|j: int| 0 <= j < i ==> slug_char(#[trigger] slug@[j]),
        decreases slug@.len() - i,
    {
        let c = slug[i];
        if !(('a' <= c && c <= 'z') || ('A' <= c && c <= 'Z') || ('0' <= c && c <= '9') || c == '-' || c == '_') {
            proof {
                lemma_slug_len_all(slug@);
            }
            assert(!slug_char(slug@[i as int]));
            return None;
        }
        i = i + 1;
    }
    proof {
        lemma_slug_len_all(slug@);
    }
    Some(string_of(&slug))
}

// The MCMP's reading group

/// The month a word names by its first three letters, from `m` on; 1 is
/// January.
pub open spec fn month_from(word: Seq<char>, m: int) -> Option<u32>
    decreases 12 - m,
{
    if m < 0 || m >= 12 {
        None
    } else if month_abbr(m).is_prefix_of(word) {
        Some((m + 1) as u32)
    } else {
        month_from(word, m + 1)
    }
}

/// `H`, `H.MM` or `H:MM`, as hours and minutes.
pub open spec fn spec_clock(t: Seq<char>) -> Option<(u32, u32)> {
    let p = split_on2(trim(t), '.', ':');
    match parse_unsigned(p[0], u32::MAX as nat) {
        None => None,
        Some(h) => if p.len() >= 2 {
            match parse_unsigned(p[1], u32::MAX as nat) {
                Some(m) => Some((h as u32, m as u32)),
                None => None,
            }
        } else {
            Some((h as u32, 0))
        },
    }
}

/// Munich's wall-clock time on a date, as a time, if there is one.
pub open spec fn berlin_at(y: i32, mo: u32, d: u32, h: u32, mi: u32) -> Option<i64> {
    match spec_local_from_fields(y, mo, d, h, mi, 0) {
        Some(n) => from_local(n as int, "Europe/Berlin"@),
        None => None,
    }
}

/// The year a semester heading starts in: `Summer 2026`, `Winter 2025/26`.
pub open spec fn semester_year(heading: Seq<char>) -> Option<int> {
    let ws = ws_words(heading);
    if ws.len() < 2 {
        None
    } else {
        parse_signed(split_on(ws[1], '/')[0], i32::MAX as nat)
    }
}

/// The first position of `a` or `b` in `s`.
pub open spec fn first_index_of2(s: Seq<char>, a: char, b: char) -> Option<int>
    decreases s.len(),
{
    if s.len() == 0 {
        None
    } else {
        match first_index_of2(s.drop_last(), a, b) {
            Some(i) => Some(i),
            None => if s.last() == a || s.last() == b { Some(s.len() - 1) } else { None },
        }
    }
}

/// "Fri 17 Jul, 16-17" under a semester heading, as Munich times: winter
/// months from September on belong to the semester's first year.
pub open spec fn spec_mlphil_time(cell: Seq<char>, heading: Seq<char>) -> Option<(i64, i64)> {
    match first_index_of(cell, ',') {
        None => None,
        Some(c) => {
            let ws = ws_words(cell.take(c));
            let hours = cell.skip(c + 1);
            if ws.len() < 3 {
                None
            } else {
                match (parse_unsigned(ws[1], u32::MAX as nat), month_from(ws[2], 0), semester_year(heading)) {
                    (Some(day), Some(month), Some(first)) => {
                        let year = if "Winter"@.is_prefix_of(heading) && month < 9 { first + 1 } else { first };
                        if year > i32::MAX {
                            None
                        } else {
                            match first_index_of2(hours, '-', '–') {
                                None => None,
                                Some(k) => match (spec_clock(hours.take(k)), spec_clock(hours.skip(k + 1))) {
                                    (Some(f), Some(t)) => match (
                                        berlin_at(year as i32, month, day as u32, f.0, f.1),
                                        berlin_at(year as i32, month, day as u32, t.0, t.1),
                                    ) {
                                        (Some(s), Some(e)) => Some((s, e)),
                                        _ => None,
                                    },
                                    _ => None,
                                },
                            }
                        }
                    },
                    _ => None,
                }
            }
        },
    }
}

fn month_of_word(word: &Vec<char>) -> (r: Option<u32>)
    ensures
        r == month_from(word@, 0),
{
    let mut m: usize = 0;
    while m < 12
        invariant
            m <= 12,
            month_from(word@, 0) == month_from(word@, m as int),
        decreases 12 - m,
    {
        if starts_with(word, crate::stats::month_name(m)) {
            return Some((m + 1) as u32);
        }
        m = m + 1;
    }
    None
}

fn clock(t: &Vec<char>) -> (r: Option<(u32, u32)>)
    ensures
        r == spec_clock(t@),
{
    let p = split_char2(&trim_chars(t), '.', ':');
    proof {
        lemma_split_on2_nonempty(trim(t@), '.', ':');
    }
    assert(views(p@)[0] == p@[0]@);
    let h = match parse_uint(&p[0], u32::MAX as u64) {
        Some(h) => h,
        None => return None,
    };
    if p.len() >= 2 {
        assert(views(p@)[1] == p@[1]@);
        match parse_uint(&p[1], u32::MAX as u64) {
            Some(m) => Some((h as u32, m as u32)),
            None => None,
        }
    } else {
        Some((h as u32, 0))
    }
}

fn at_berlin(y: i32, mo: u32, d: u32, h: u32, mi: u32) -> (r: Option<i64>)
    ensures
        r == berlin_at(y, mo, d, h, mi),
{
    match local_from_fields(y, mo, d, h, mi, 0) {
        Some(n) => local_to_utc(n, berlin()),
        None => None,
    }
}

fn find_char2(s: &Vec<char>, a: char, b: char) -> (r: Option<usize>)
    ensures
        match r {
            Some(i) => first_index_of2(s@, a, b) == Some(i as int) && i < s@.len(),
            None => first_index_of2(s@, a, b) is None,
        },
{
    let mut i: usize = 0;
    while i < s.len()
        invariant
            i <= s@.len(),
            first_index_of2(s@.take(i as int), a, b) is None,
        decreases s@.len() - i,
    {
        assert(s@.take(i + 1).drop_last() == s@.take(i as int));
        if s[i] == a || s[i] == b {
            assert(first_index_of2(s@.take(i + 1), a, b) == Some(i as int));
            proof { lemma_first_index2_prefix(s@, i as int + 1, a, b); }
            return Some(i);
        }
        i = i + 1;
    }
    assert(s@.take(s@.len() as int) == s@);
    None
}

proof fn lemma_first_index2_prefix(s: Seq<char>, k: int, a: char, b: char)
    requires
        0 <= k <= s.len(),
        first_index_of2(s.take(k), a, b) is Some,
    ensures
        first_index_of2(s, a, b) == first_index_of2(s.take(k), a, b),
    decreases s.len() - k,
{
    if k < s.len() {
        assert(s.drop_last().take(k) == s.take(k));
        lemma_first_index2_prefix(s.drop_last(), k, a, b);
    } else {
        assert(s.take(k) == s);
    }
}

fn semester(heading: &Vec<char>) -> (r: Option<i64>)
    ensures
        match r {
            Some(y) => semester_year(heading@) == Some(y as int),
            None => semester_year(heading@) is None,
        },
{
    let ws = split_ws(heading);
    if ws.len() < 2 {
        return None;
    }
    assert(views(ws@)[1] == ws@[1]@);
    let parts = split_char(&ws[1], '/');
    proof {
        lemma_split_on_nonempty(ws@[1]@, '/');
    }
    assert(views(parts@)[0] == parts@[0]@);
    parse_int(&parts[0], i32::MAX as u64)
}

/// "Fri 17 Jul, 16-17" under a semester heading, as Munich times.
pub fn mlphil_time(cell: &str, heading: &str) -> (r: Option<(i64, i64)>)
    ensures
        r == spec_mlphil_time(cell@, heading@),
{
    let c = chars_of(cell);
    let h = chars_of(heading);
    let clen = c.len();
    let comma = match find_char(&c, ',') {
        Some(i) => i,
        None => return None,
    };
    assert(comma < clen);
    let ws = split_ws(&slice_chars(&c, 0, comma));
    let hours = slice_chars(&c, comma + 1, clen);
    if ws.len() < 3 {
        return None;
    }
    assert(views(ws@)[1] == ws@[1]@ && views(ws@)[2] == ws@[2]@);
    let day = parse_uint(&ws[1], u32::MAX as u64);
    let month = month_of_word(&ws[2]);
    let first = semester(&h);
    let (day, month, first) = match (day, month, first) {
        (Some(d), Some(m), Some(f)) => (d, m, f),
        _ => return None,
    };
    let year: i64 = if starts_with(&h, "Winter") && month < 9 { first + 1 } else { first };
    if year > i32::MAX as i64 {
        return None;
    }
    let k = match find_char2(&hours, '-', '–') {
        Some(k) => k,
        None => return None,
    };
    let from = clock(&slice_chars(&hours, 0, k));
    let to = clock(&slice_chars(&hours, k + 1, hours.len()));
    let (f, t) = match (from, to) {
        (Some(f), Some(t)) => (f, t),
        _ => return None,
    };
    let s = at_berlin(year as i32, month, day as u32, f.0, f.1);
    let e = at_berlin(year as i32, month, day as u32, t.0, t.1);
    match (s, e) {
        (Some(s), Some(e)) => Some((s, e)),
        _ => None,
    }
}

pub open spec fn mlphil_page() -> Seq<char> {
    "https://tomster.userweb.mwn.de/mlregr/"@
}

/// Where the MCMP's philosophy of machine learning reading group keeps its
/// schedule, back to 2022, as one table per semester.
pub fn mlphil_url() -> (r: &'static str)
    ensures
        r@ == mlphil_page(),
{
    "https://tomster.userweb.mwn.de/mlregr/"
}

/// The readings of a table, by (date, reading) pairs of cells; a last
/// unpaired cell is left.
pub open spec fn reading_events(cells: Seq<Seq<char>>, heading: Seq<char>) -> Seq<EventModel>
    decreases cells.len(),
{
    if cells.len() < 2 {
        seq![]
    } else {
        (match spec_mlphil_time(cells[0], heading) {
            Some(t) => seq![spec_new(cells[1], t.0, Some(t.1), "Ludwigstraße 31, room 028"@, false, ""@,
                "mlphil"@, "Reading group"@, mlphil_page())],
            None => seq![],
        }) + reading_events(cells.skip(2), heading)
    }
}

/// The heading of a section of the page: from after the `<h4` tag's `>`
/// to `</h4>`, as plain text.
pub open spec fn section_heading(section: Seq<char>) -> Option<Seq<char>> {
    match first_index_of(section, '>') {
        None => None,
        Some(j) => {
            let r = section.skip(j + 1);
            match first_occurrence(r, "</h4>"@, 0) {
                None => None,
                Some(k) => if k < 0 || k > r.len() { None } else { Some(collapse_ws(spec_strip_html(r.take(k)))) },
            }
        },
    }
}

/// The readings of one semester's section.
pub open spec fn section_events(section: Seq<char>) -> Seq<EventModel> {
    match section_heading(section) {
        Some(h) => if "Summer"@.is_prefix_of(h) || "Winter"@.is_prefix_of(h) {
            reading_events(cells_from(section), h)
        } else {
            seq![]
        },
        None => seq![],
    }
}

pub open spec fn sections_events(ss: Seq<Seq<char>>) -> Seq<EventModel>
    decreases ss.len(),
{
    if ss.len() == 0 {
        seq![]
    } else {
        sections_events(ss.drop_last()) + section_events(ss.last())
    }
}

/// Each semester: an `<h4>` heading, then its table.
pub open spec fn spec_mlphil_events(page: Seq<char>) -> Seq<EventModel> {
    sections_events(split_str(page, "<h4"@).skip(1))
}

pub open spec fn event_views(v: Seq<Event>) -> Seq<EventModel> {
    v.map_values(|e: Event| e@)
}

fn readings(cells: &Vec<String>, heading: &str) -> (r: Vec<Event>)
    ensures
        event_views(r@) == reading_events(string_seq_views(cells@), heading@),
{
    let ghost cs = string_seq_views(cells@);
    let mut out: Vec<Event> = Vec::new();
    let mut i: usize = 0;
    assert(cs.skip(0) == cs);
    while cells.len() - i >= 2
        invariant
            i <= cells@.len(),
            cs == string_seq_views(cells@),
            event_views(out@) + reading_events(cs.skip(i as int), heading@) == reading_events(cs, heading@),
        decreases cells@.len() - i,
    {
        let ghost o = event_views(out@);
        let ghost rest = cs.skip(i as int);
        assert(rest[0] == cells@[i as int]@ && rest[1] == cells@[i + 1]@);
        assert(rest.skip(2) == cs.skip(i + 2));
        match mlphil_time(cells[i].as_str(), heading) {
            Some((s, e)) => {
                let ev = Event::new(Raw {
                    title: cells[i + 1].as_str(),
                    start: s,
                    end: Some(e),
                    location: "Ludwigstraße 31, room 028",
                    online: false,
                    text: "",
                    group: "mlphil",
                    label: "Reading group",
                    url: mlphil_url(),
                });
                out.push(ev);
            },
            None => {},
        }
        assert(event_views(out@) + reading_events(cs.skip(i + 2), heading@) =~= o + reading_events(rest, heading@));
        i = i + 2;
    }
    assert(reading_events(cs.skip(i as int), heading@) == Seq::<EventModel>::empty());
    assert(event_views(out@) =~= reading_events(cs, heading@));
    out
}

fn section(sec: &Vec<char>) -> (r: Vec<Event>)
    ensures
        event_views(r@) == section_events(sec@),
{
    let slen = sec.len();
    let j = match find_char(sec, '>') {
        Some(j) => j,
        None => return Vec::new(),
    };
    let r = slice_chars(sec, j + 1, slen);
    proof {
        crate::text::lemma_first_occurrence(r@, "</h4>"@, 0);
    }
    let k = match find_str(&r, "</h4>", 0) {
        Some(k) => k,
        None => return Vec::new(),
    };
    assert(occurs_at(r@, "</h4>"@, k as int));
    let head = slice_chars(&r, 0, k);
    let heading = collapse(strip_html(string_of(&head).as_str()).as_str());
    let h = chars_of(heading.as_str());
    if !(starts_with(&h, "Summer") || starts_with(&h, "Winter")) {
        return Vec::new();
    }
    let cells = table_cells(string_of(sec).as_str());
    readings(&cells, heading.as_str())
}

/// The readings the reading group's page lists, each semester's under its
/// heading.
pub fn mlphil_events(page: &str) -> (r: Vec<Event>)
    ensures
        event_views(r@) == spec_mlphil_events(page@),
{
    proof {
        reveal_strlit("<h4");
    }
    let parts = split_string(&chars_of(page), "<h4");
    let ghost ps = views(parts@).skip(1);
    let mut out: Vec<Event> = Vec::new();
    let mut i: usize = 1;
    while i < parts.len()
        invariant
            1 <= i,
            i <= parts@.len() || parts@.len() == 0,
            ps == views(parts@).skip(1),
            event_views(out@) == sections_events(ps.take(i - 1)),
        decreases parts@.len() - i,
    {
        assert(ps.take(i as int).drop_last() == ps.take(i - 1));
        assert(ps[i - 1] == parts@[i as int]@);
        let mut more = section(&parts[i]);
        let ghost o = event_views(out@);
        let ghost m = event_views(more@);
        out.append(&mut more);
        assert(event_views(out@) =~= o + m);
        i = i + 1;
    }
    assert(parts@.len() > 0 ==> ps.take(parts@.len() - 1) == ps);
    assert(parts@.len() == 0 ==> ps.len() == 0);
    out
}

// LessWrong and the EA Forum

/// The text of an optional string, empty if there is none.
pub open spec fn or_empty(o: Option<String>) -> Seq<char> {
    match o {
        Some(s) => s@,
        None => seq![],
    }
}

fn str_or_empty(o: &Option<String>) -> (r: &str)
    ensures
        r@ == or_empty(*o),
{
    match o {
        Some(s) => s.as_str(),
        None => {
            proof {
                reveal_strlit("");
            }
            ""
        },
    }
}

/// One RSVP of a forum post: its answer and its name, where the reply has
/// them as strings.
pub struct Rsvp {
    pub response: Option<String>,
    pub name: Option<String>,
}

/// The names on the "yes" RSVPs, in order.
pub open spec fn spec_forum_yes(rsvps: Seq<Rsvp>) -> Seq<Seq<char>>
    decreases rsvps.len(),
{
    if rsvps.len() == 0 {
        seq![]
    } else {
        spec_forum_yes(rsvps.drop_last()) + match (rsvps.last().response, rsvps.last().name) {
            (Some(r), Some(n)) => if r@ == "yes"@ { seq![n@] } else { seq![] },
            _ => seq![],
        }
    }
}

/// The names on a post's "yes" RSVPs; none if the reply has no list.
pub fn forum_yes(rsvps: &Option<Vec<Rsvp>>) -> (r: Vec<&str>)
    ensures
        r@.map_values(|s: &str| s@) == match rsvps {
            Some(list) => spec_forum_yes(list@),
            None => seq![],
        },
{
    let mut out: Vec<&str> = Vec::new();
    let list = match rsvps {
        Some(list) => list,
        None => {
            assert(out@.map_values(|s: &str| s@) =~= Seq::<Seq<char>>::empty());
            return out;
        },
    };
    let mut i: usize = 0;
    while i < list.len()
        invariant
            i <= list@.len(),
            out@.map_values(|s: &str| s@) == spec_forum_yes(list@.take(i as int)),
        decreases list@.len() - i,
    {
        assert(list@.take(i + 1).drop_last() == list@.take(i as int));
        let ghost before = out@.map_values(|s: &str| s@);
        match (&list[i].response, &list[i].name) {
            (Some(r), Some(n)) => {
                if eq_str(r.as_str(), "yes") {
                    out.push(n.as_str());
                    assert(out@.map_values(|s: &str| s@) =~= before.push(n@));
                }
            },
            _ => {},
        }
        i = i + 1;
    }
    assert(list@.take(list@.len() as int) == list@);
    out
}

/// An RFC 3339 time, if the reply has one the calendar works with.
pub open spec fn spec_forum_time(v: Option<String>) -> Option<i64> {
    match v {
        Some(s) => match spec_parse_rfc3339(s@) {
            Some(t) => if valid_time(t as int) { Some(t) } else { None },
            None => None,
        },
        None => None,
    }
}

pub fn forum_time(v: &Option<String>) -> (r: Option<i64>)
    ensures
        r == spec_forum_time(*v),
{
    match v {
        Some(s) => match parse_rfc3339(s.as_str()) {
            Some(t) => if crate::time::TIME_LIMIT >= t && t >= -crate::time::TIME_LIMIT { Some(t) } else { None },
            None => None,
        },
        None => None,
    }
}

/// One post of a forum's events, with the fields read as the reply has
/// them: strings, a flag, and the RSVPs.
pub struct ForumPost {
    pub title: Option<String>,
    pub start_time: Option<String>,
    pub end_time: Option<String>,
    pub location: Option<String>,
    pub online: Option<bool>,
    pub text: Option<String>,
    pub url: Option<String>,
    pub rsvps: Option<Vec<Rsvp>>,
}

/// The event a post announces, if it has a start; its sign-ups are its
/// "yes" RSVPs.
pub open spec fn spec_forum_event(p: ForumPost, group: Seq<char>, label: Seq<char>) -> Option<EventModel> {
    match spec_forum_time(p.start_time) {
        None => None,
        Some(start) => {
            let e = spec_new(or_empty(p.title), start, spec_forum_time(p.end_time), or_empty(p.location),
                match p.online { Some(b) => b, None => false }, or_empty(p.text), group, label, or_empty(p.url));
            let yes = match p.rsvps { Some(l) => spec_forum_yes(l@), None => seq![] };
            Some(EventModel { signups: yes.len() as u32, ..e })
        },
    }
}

pub fn forum_event(p: &ForumPost, group: &str, label: &str) -> (r: Option<Event>)
    ensures
        match r {
            Some(e) => spec_forum_event(*p, group@, label@) == Some(e@),
            None => spec_forum_event(*p, group@, label@) is None,
        },
{
    let start = match forum_time(&p.start_time) {
        Some(t) => t,
        None => return None,
    };
    let mut e = Event::new(Raw {
        title: str_or_empty(&p.title),
        start,
        end: forum_time(&p.end_time),
        location: str_or_empty(&p.location),
        online: match p.online { Some(b) => b, None => false },
        text: str_or_empty(&p.text),
        group,
        label,
        url: str_or_empty(&p.url),
    });
    let yes = forum_yes(&p.rsvps);
    e.signups = yes.len() as u32;
    Some(e)
}

/// The events of a forum's posts, in order; posts without a start are
/// left out.
pub open spec fn spec_forum_events(posts: Seq<ForumPost>, group: Seq<char>, label: Seq<char>) -> Seq<EventModel>
    decreases posts.len(),
{
    if posts.len() == 0 {
        seq![]
    } else {
        spec_forum_events(posts.drop_last(), group, label) + match spec_forum_event(posts.last(), group, label) {
            Some(e) => seq![e],
            None => seq![],
        }
    }
}

pub fn forum_events(posts: &Vec<ForumPost>, group: &str, label: &str) -> (r: Vec<Event>)
    ensures
        event_views(r@) == spec_forum_events(posts@, group@, label@),
{
    let mut out: Vec<Event> = Vec::new();
    let mut i: usize = 0;
    while i < posts.len()
        invariant
            i <= posts@.len(),
            event_views(out@) == spec_forum_events(posts@.take(i as int), group@, label@),
        decreases posts@.len() - i,
    {
        assert(posts@.take(i + 1).drop_last() == posts@.take(i as int));
        let ghost before = event_views(out@);
        match forum_event(&posts[i], group, label) {
            Some(e) => {
                out.push(e);
                assert(event_views(out@) =~= before.push(e@));
            },
            None => {},
        }
        i = i + 1;
    }
    assert(posts@.take(posts@.len() as int) == posts@);
    out
}

// Meetup

/// Which of a Meetup group's events are taken: all, or (for the GEB
/// reading group, which posts in a general Munich activities group) only
/// those whose titles name GEB, Gödel or Escher.
#[derive(Clone, Copy, Debug, PartialEq, Eq, Structural)]
pub enum Keep {
    All,
    Geb,
}

pub open spec fn spec_keeps(k: Keep, title: Seq<char>) -> bool {
    match k {
        Keep::All => true,
        Keep::Geb => {
            let t = spec_to_lowercase(title);
            alnum_split(t).contains("geb"@) || contains_seq(t, "gödel"@) || contains_seq(t, "escher"@)
        },
    }
}

pub fn keeps(k: Keep, title: &str) -> (r: bool)
    ensures
        r == spec_keeps(k, title@),
{
    match k {
        Keep::All => true,
        Keep::Geb => {
            let t = chars_of(to_lowercase(title).as_str());
            let ws = split_alnum(&t);
            let g = chars_of("geb");
            let mut i: usize = 0;
            while i < ws.len()
                invariant
                    i <= ws@.len(),
                    g@ == "geb"@,
                    k == Keep::Geb,
                    t@ == spec_to_lowercase(title@),
                    views(ws@) == alnum_split(t@),
                    forall|j: int| 0 <= j < i ==> views(ws@)[j] != "geb"@,
                decreases ws@.len() - i,
            {
                assert(views(ws@)[i as int] == ws@[i as int]@);
                if crate::text::eq_chars(&ws[i], &g) {
                    assert(views(ws@)[i as int] == "geb"@);
                    return true;
                }
                i = i + 1;
            }
            assert(!views(ws@).contains("geb"@));
            contains_str(&t, "gödel") || contains_str(&t, "escher")
        },
    }
}

/// The place parts a venue adds up to: each part once, an empty one or
/// Meetup's placeholder for online events left out, and a part another
/// contains dropped for the longer one.
pub open spec fn add_place(place: Seq<Seq<char>>, x: Seq<char>) -> Seq<Seq<char>> {
    if x.len() == 0 || x == "Online event"@ || (exists|i: int| 0 <= i < place.len() && contains_seq(#[trigger] place[i], x)) {
        place
    } else {
        not_within(place, x).push(x)
    }
}

/// The parts not contained in `x`.
pub open spec fn not_within(place: Seq<Seq<char>>, x: Seq<char>) -> Seq<Seq<char>>
    decreases place.len(),
{
    if place.len() == 0 {
        seq![]
    } else {
        not_within(place.drop_last(), x) + if contains_seq(x, place.last()) { seq![] } else { seq![place.last()] }
    }
}

/// Where a Meetup event is, from its venue's name and address.
pub open spec fn venue_place(name: Option<String>, address: Option<String>) -> Seq<char> {
    let p1 = match name {
        Some(n) => add_place(seq![], n@),
        None => seq![],
    };
    let p2 = match address {
        Some(a) => add_place(p1, a@),
        None => p1,
    };
    join(p2, ", "@)
}

/// Markdown's emphasis and heading marks taken out.
pub open spec fn without_marks(s: Seq<char>) -> Seq<char>
    decreases s.len(),
{
    if s.len() == 0 {
        seq![]
    } else {
        without_marks(s.drop_last()) + if s.last() == '*' || s.last() == '#' || s.last() == '_' {
            seq![]
        } else {
            seq![s.last()]
        }
    }
}

/// One event as Meetup's API describes it, with the fields read as the
/// reply has them.
pub struct MeetupNode {
    pub title: Option<String>,
    pub url: Option<String>,
    pub date_time: Option<String>,
    pub end_time: Option<String>,
    pub venue_name: Option<String>,
    pub venue_address: Option<String>,
    pub online: Option<bool>,
    pub description: Option<String>,
    pub going: Option<u64>,
}

/// The event a Meetup node describes, if it has a title, an event page on
/// meetup.com and a start, and the group takes it.
pub open spec fn spec_meetup_event(e: MeetupNode, group: Seq<char>, keep: Keep) -> Option<EventModel> {
    match (e.title, e.url, spec_forum_time(e.date_time)) {
        (Some(title), Some(url), Some(start)) => if !spec_keeps(keep, title@)
            || !"https://www.meetup.com/"@.is_prefix_of(url@) {
            None
        } else {
            let ev = spec_new(title@, start, spec_forum_time(e.end_time), venue_place(e.venue_name, e.venue_address),
                match e.online { Some(b) => b, None => false }, without_marks(or_empty(e.description)), group,
                "Meetup"@, url@);
            Some(EventModel { signups: (match e.going { Some(g) => g, None => 0 }) as u32, ..ev })
        },
        _ => None,
    }
}

fn place_with(place: &Vec<Vec<char>>, x: &Vec<char>) -> (r: Vec<Vec<char>>)
    ensures
        views(r@) == add_place(views(place@), x@),
{
    let ghost pv = views(place@);
    proof {
        reveal_strlit("Online event");
    }
    if x.len() == 0 || crate::text::eq_str(string_of(x).as_str(), "Online event") {
        return place_copy(place);
    }
    let mut i: usize = 0;
    while i < place.len()
        invariant
            i <= place@.len(),
            pv == views(place@),
            forall|j: int| 0 <= j < i ==> !contains_seq(#[trigger] pv[j], x@),
        decreases place@.len() - i,
    {
        assert(pv[i as int] == place@[i as int]@);
        if contains(&place[i], x) {
            return place_copy(place);
        }
        i = i + 1;
    }
    let mut out: Vec<Vec<char>> = Vec::new();
    let mut k: usize = 0;
    while k < place.len()
        invariant
            k <= place@.len(),
            pv == views(place@),
            views(out@) == not_within(pv.take(k as int), x@),
        decreases place@.len() - k,
    {
        assert(pv.take(k + 1).drop_last() == pv.take(k as int));
        assert(pv[k as int] == place@[k as int]@);
        let ghost before = views(out@);
        if !contains(x, &place[k]) {
            let c = slice_chars(&place[k], 0, place[k].len());
            assert(c@ =~= pv[k as int]);
            out.push(c);
            assert(views(out@) =~= before.push(pv[k as int]));
        }
        k = k + 1;
    }
    assert(pv.take(place@.len() as int) == pv);
    let ghost before = views(out@);
    let c = slice_chars(x, 0, x.len());
    assert(c@ =~= x@);
    out.push(c);
    assert(views(out@) =~= before.push(x@));
    out
}

fn place_copy(place: &Vec<Vec<char>>) -> (r: Vec<Vec<char>>)
    ensures
        views(r@) == views(place@),
{
    let mut out: Vec<Vec<char>> = Vec::new();
    let mut k: usize = 0;
    while k < place.len()
        invariant
            k <= place@.len(),
            views(out@) == views(place@).take(k as int),
        decreases place@.len() - k,
    {
        let ghost before = views(out@);
        let c = slice_chars(&place[k], 0, place[k].len());
        assert(c@ =~= place@[k as int]@);
        out.push(c);
        assert(views(place@)[k as int] == place@[k as int]@);
        assert(views(place@).take(k + 1) =~= views(place@).take(k as int).push(views(place@)[k as int]));
        assert(views(out@) =~= before.push(c@));
        assert(views(out@) =~= views(place@).take(k + 1));
        k = k + 1;
    }
    assert(views(place@).take(place@.len() as int) == views(place@));
    out
}

fn venue(name: &Option<String>, address: &Option<String>) -> (r: Vec<char>)
    ensures
        r@ == venue_place(*name, *address),
{
    let empty: Vec<Vec<char>> = Vec::new();
    assert(views(empty@) =~= Seq::<Seq<char>>::empty());
    let p1 = match name {
        Some(n) => place_with(&empty, &chars_of(n.as_str())),
        None => empty,
    };
    let p2 = match address {
        Some(a) => place_with(&p1, &chars_of(a.as_str())),
        None => p1,
    };
    assert(views(p2@).skip(0) == views(p2@));
    join_from(&p2, 0, ", ")
}

fn strip_marks(s: &str) -> (r: String)
    ensures
        r@ == without_marks(s@),
{
    let cs = chars_of(s);
    let mut out: Vec<char> = Vec::new();
    let mut i: usize = 0;
    while i < cs.len()
        invariant
            i <= cs@.len(),
            out@ == without_marks(cs@.take(i as int)),
        decreases cs@.len() - i,
    {
        assert(cs@.take(i + 1).drop_last() == cs@.take(i as int));
        let c = cs[i];
        if !(c == '*' || c == '#' || c == '_') {
            out.push(c);
        }
        i = i + 1;
    }
    assert(cs@.take(cs@.len() as int) == cs@);
    string_of(&out)
}

pub fn meetup_event(e: &MeetupNode, group: &str, keep: Keep) -> (r: Option<Event>)
    ensures
        match r {
            Some(ev) => spec_meetup_event(*e, group@, keep) == Some(ev@),
            None => spec_meetup_event(*e, group@, keep) is None,
        },
{
    let (title, url, start) = match (&e.title, &e.url, forum_time(&e.date_time)) {
        (Some(t), Some(u), Some(s)) => (t, u, s),
        _ => return None,
    };
    if !keeps(keep, title.as_str()) || !starts_with(&chars_of(url.as_str()), "https://www.meetup.com/") {
        return None;
    }
    let location = string_of(&venue(&e.venue_name, &e.venue_address));
    let text = strip_marks(str_or_empty(&e.description));
    let mut ev = Event::new(Raw {
        title: title.as_str(),
        start,
        end: forum_time(&e.end_time),
        location: location.as_str(),
        online: match e.online { Some(b) => b, None => false },
        text: text.as_str(),
        group,
        label: "Meetup",
        url: url.as_str(),
    });
    ev.signups = (match e.going { Some(g) => g, None => 0 }) as u32;
    Some(ev)
}

/// The events of a page of Meetup nodes that the group takes, in order.
pub open spec fn spec_meetup_events(nodes: Seq<MeetupNode>, group: Seq<char>, keep: Keep) -> Seq<EventModel>
    decreases nodes.len(),
{
    if nodes.len() == 0 {
        seq![]
    } else {
        spec_meetup_events(nodes.drop_last(), group, keep) + match spec_meetup_event(nodes.last(), group, keep) {
            Some(e) => seq![e],
            None => seq![],
        }
    }
}

pub fn meetup_events(nodes: &Vec<MeetupNode>, group: &str, keep: Keep) -> (r: Vec<Event>)
    ensures
        event_views(r@) == spec_meetup_events(nodes@, group@, keep),
{
    let mut out: Vec<Event> = Vec::new();
    let mut i: usize = 0;
    while i < nodes.len()
        invariant
            i <= nodes@.len(),
            event_views(out@) == spec_meetup_events(nodes@.take(i as int), group@, keep),
        decreases nodes@.len() - i,
    {
        assert(nodes@.take(i + 1).drop_last() == nodes@.take(i as int));
        let ghost before = event_views(out@);
        match meetup_event(&nodes[i], group, keep) {
            Some(e) => {
                out.push(e);
                assert(event_views(out@) =~= before.push(e@));
            },
            None => {},
        }
        i = i + 1;
    }
    assert(nodes@.take(nodes@.len() as int) == nodes@);
    out
}

// Luma

/// When property `name` of an event says, if it says a time.
pub open spec fn time_of(e: IcsModel, name: Seq<char>) -> Option<i64> {
    match ics_prop(e, name) {
        Some(p) => prop_time(p),
        None => None,
    }
}

fn time_prop(e: &IcsEvent, name: &str) -> (r: Option<i64>)
    ensures
        r == time_of(e@, name@),
{
    time(prop(e, name))
}

/// The event a Luma calendar entry is, if it has a start. Luma's
/// description is only boilerplate (link, address, host), so no excerpt;
/// the link is the entry's URL, else the first event page the description
/// links to, else the calendar's page.
pub open spec fn spec_luma_event(e: IcsModel) -> Option<EventModel> {
    match time_of(e, "DTSTART"@) {
        None => None,
        Some(start) => {
            let u = spec_value(e, "URL"@);
            let url = if u.len() > 0 {
                u
            } else {
                match spec_find_luma_link(spec_value(e, "DESCRIPTION"@)) {
                    Some(l) => l,
                    None => "https://luma.com/eamunich"@,
                }
            };
            let location = spec_value(e, "LOCATION"@);
            let online = "http"@.is_prefix_of(location);
            Some(spec_new(spec_value(e, "SUMMARY"@), start, time_of(e, "DTEND"@),
                if online { seq![] } else { location }, online, seq![], "ea"@, "Luma"@, url))
        },
    }
}

pub open spec fn luma_events_of(es: Seq<IcsModel>) -> Seq<EventModel>
    decreases es.len(),
{
    if es.len() == 0 {
        seq![]
    } else {
        luma_events_of(es.drop_last()) + match spec_luma_event(es.last()) {
            Some(e) => seq![e],
            None => seq![],
        }
    }
}

fn luma_event(e: &IcsEvent) -> (r: Option<Event>)
    ensures
        match r {
            Some(ev) => spec_luma_event(e@) == Some(ev@),
            None => spec_luma_event(e@) is None,
        },
{
    let start = match time_prop(e, "DTSTART") {
        Some(t) => t,
        None => return None,
    };
    let text = value(e, "DESCRIPTION");
    let u = value(e, "URL");
    let ghost uv = u@;
    let url: String = if !u.as_str().is_empty() {
        u
    } else {
        match find_luma_link(text.as_str()) {
            Some(l) => l,
            None => text_of("https://luma.com/eamunich"),
        }
    };
    let location = value(e, "LOCATION");
    let online = starts_with(&chars_of(location.as_str()), "http");
    proof {
        reveal_strlit("");
    }
    let summary = value(e, "SUMMARY");
    let end = time_prop(e, "DTEND");
    let loc: &str = if online { "" } else { location.as_str() };
    assert(loc@ == if online { Seq::<char>::empty() } else { location@ });
    let ghost want_url = if uv.len() > 0 {
        u@
    } else {
        match spec_find_luma_link(spec_value(e@, "DESCRIPTION"@)) {
            Some(l) => l,
            None => "https://luma.com/eamunich"@,
        }
    };
    assert(url@ == want_url);
    let ev = Event::new(Raw {
        title: summary.as_str(),
        start,
        end,
        location: loc,
        online,
        text: "",
        group: "ea",
        label: "Luma",
        url: url.as_str(),
    });
    Some(ev)
}

fn text_of(s: &str) -> (r: String)
    ensures
        r@ == s@,
{
    string_of(&chars_of(s))
}

/// The events of Luma's calendar feed. How many registered for each comes
/// from Luma's API, one request per event (see `luma_slug`).
pub fn luma_events(text: &str) -> (r: Vec<Event>)
    ensures
        event_views(r@) == luma_events_of(crate::ics::spec_parse(text@)),
{
    let es = crate::ics::parse(text);
    let ghost ev = ics_views(es@);
    let mut out: Vec<Event> = Vec::new();
    let mut i: usize = 0;
    while i < es.len()
        invariant
            i <= es@.len(),
            ev == ics_views(es@),
            event_views(out@) == luma_events_of(ev.take(i as int)),
        decreases es@.len() - i,
    {
        assert(ev.take(i + 1).drop_last() == ev.take(i as int));
        assert(ev[i as int] == es@[i as int]@);
        let ghost before = event_views(out@);
        match luma_event(&es[i]) {
            Some(e) => {
                out.push(e);
                assert(event_views(out@) =~= before.push(e@));
            },
            None => {},
        }
        i = i + 1;
    }
    assert(ev.take(es@.len() as int) == ev);
    out
}

// Philosophia

pub open spec fn philosophia_page() -> Seq<char> {
    "https://www.philosophiamunich.org/schedule"@
}

/// Philosophia's schedule page, which every event links to.
pub fn philosophia_url() -> (r: &'static str)
    ensures
        r@ == philosophia_page(),
{
    "https://www.philosophiamunich.org/schedule"
}

/// The occurrences moved or edited on their own: a `VEVENT` with a
/// `RECURRENCE-ID` replaces the occurrence of its series it names.
pub open spec fn overrides_of(es: Seq<IcsModel>) -> Seq<(Seq<char>, i64)>
    decreases es.len(),
{
    if es.len() == 0 {
        seq![]
    } else {
        overrides_of(es.drop_last()) + match time_of(es.last(), "RECURRENCE-ID"@) {
            Some(t) => seq![(spec_value(es.last(), "UID"@), t)],
            None => seq![],
        }
    }
}

/// An occurrence's end: as long after it as the series' first one lasts.
pub open spec fn shifted_end(t: i64, start: i64, end: Option<i64>) -> Option<i64> {
    match end {
        Some(e) => {
            let x = t + (e - start);
            if valid_time(x) { Some(x as i64) } else { None }
        },
        None => None,
    }
}

/// The events one entry of the calendar yields from its occurrences `ts`.
pub open spec fn occurrence_events(e: IcsModel, ts: Seq<i64>, ov: Seq<(Seq<char>, i64)>, start: i64) -> Seq<EventModel>
    decreases ts.len(),
{
    if ts.len() == 0 {
        seq![]
    } else {
        let t = ts.last();
        occurrence_events(e, ts.drop_last(), ov, start) + if ics_prop(e, "RECURRENCE-ID"@) is None
            && ov.contains((spec_value(e, "UID"@), t)) {
            seq![]
        } else {
            seq![spec_new(spec_value(e, "SUMMARY"@), t, shifted_end(t, start, time_of(e, "DTEND"@)),
                spec_value(e, "LOCATION"@), false, spec_strip_html(spec_value(e, "DESCRIPTION"@)),
                "philosophia"@, "Philosophia"@, philosophia_page())]
        }
    }
}

/// The events one entry yields: none if it is cancelled or has no start,
/// else one per occurrence up to `horizon` that no override replaces.
pub open spec fn entry_events(e: IcsModel, ov: Seq<(Seq<char>, i64)>, horizon: i64) -> Seq<EventModel> {
    if spec_value(e, "STATUS"@) == "CANCELLED"@ {
        seq![]
    } else {
        match time_of(e, "DTSTART"@) {
            None => seq![],
            Some(start) => occurrence_events(e, spec_occurrences(e, horizon), ov, start),
        }
    }
}

pub open spec fn entries_events(es: Seq<IcsModel>, ov: Seq<(Seq<char>, i64)>, horizon: i64) -> Seq<EventModel>
    decreases es.len(),
{
    if es.len() == 0 {
        seq![]
    } else {
        entries_events(es.drop_last(), ov, horizon) + entry_events(es.last(), ov, horizon)
    }
}

/// Philosophia's public calendar, with its weekly series expanded up to a
/// year and a day from `now`.
pub open spec fn spec_philosophia_events(text: Seq<char>, now: i64) -> Seq<EventModel> {
    let es = crate::ics::spec_parse(text);
    entries_events(es, overrides_of(es), (now + 366 * DAY) as i64)
}

pub open spec fn override_views(v: Seq<(String, i64)>) -> Seq<(Seq<char>, i64)> {
    v.map_values(|o: (String, i64)| (o.0@, o.1))
}

fn overrides(es: &Vec<IcsEvent>) -> (r: Vec<(String, i64)>)
    ensures
        override_views(r@) == overrides_of(ics_views(es@)),
{
    let ghost ev = ics_views(es@);
    let mut out: Vec<(String, i64)> = Vec::new();
    let mut i: usize = 0;
    while i < es.len()
        invariant
            i <= es@.len(),
            ev == ics_views(es@),
            override_views(out@) == overrides_of(ev.take(i as int)),
        decreases es@.len() - i,
    {
        assert(ev.take(i + 1).drop_last() == ev.take(i as int));
        assert(ev[i as int] == es@[i as int]@);
        let ghost before = override_views(out@);
        match time_prop(&es[i], "RECURRENCE-ID") {
            Some(t) => {
                let uid = value(&es[i], "UID");
                out.push((uid, t));
                assert(override_views(out@) =~= before.push((spec_value(ev[i as int], "UID"@), t)));
            },
            None => {},
        }
        i = i + 1;
    }
    assert(ev.take(es@.len() as int) == ev);
    out
}

fn overridden(ov: &Vec<(String, i64)>, uid: &str, t: i64) -> (r: bool)
    ensures
        r == override_views(ov@).contains((uid@, t)),
{
    let mut i: usize = 0;
    while i < ov.len()
        invariant
            i <= ov@.len(),
            forall|k: int| 0 <= k < i ==> override_views(ov@)[k] != (uid@, t),
        decreases ov@.len() - i,
    {
        assert(override_views(ov@)[i as int] == (ov@[i as int].0@, ov@[i as int].1));
        if ov[i].1 == t && eq_str(ov[i].0.as_str(), uid) {
            return true;
        }
        i = i + 1;
    }
    false
}

fn end_after(t: i64, start: i64, end: Option<i64>) -> (r: Option<i64>)
    ensures
        r == shifted_end(t, start, end),
{
    match end {
        Some(e) => {
            let x: i128 = t as i128 + (e as i128 - start as i128);
            if -(crate::time::TIME_LIMIT as i128) <= x && x <= crate::time::TIME_LIMIT as i128 {
                Some(x as i64)
            } else {
                None
            }
        },
        None => None,
    }
}

fn entry(e: &IcsEvent, ov: &Vec<(String, i64)>, horizon: i64) -> (r: Vec<Event>)
    ensures
        event_views(r@) == entry_events(e@, override_views(ov@), horizon),
{
    proof {
        reveal_strlit("CANCELLED");
    }
    if eq_str(value(e, "STATUS").as_str(), "CANCELLED") {
        return Vec::new();
    }
    let start = match time_prop(e, "DTSTART") {
        Some(t) => t,
        None => return Vec::new(),
    };
    let end = time_prop(e, "DTEND");
    let uid = value(e, "UID");
    let is_override = match prop(e, "RECURRENCE-ID") {
        Some(_) => true,
        None => false,
    };
    let text = strip_html(value(e, "DESCRIPTION").as_str());
    let title = value(e, "SUMMARY");
    let location = value(e, "LOCATION");
    let ts = occurrences(e, horizon);
    let ghost tv = ts@;
    let mut out: Vec<Event> = Vec::new();
    let mut i: usize = 0;
    while i < ts.len()
        invariant
            i <= ts@.len(),
            tv == ts@,
            tv == spec_occurrences(e@, horizon),
            time_of(e@, "DTSTART"@) == Some(start),
            end == time_of(e@, "DTEND"@),
            uid@ == spec_value(e@, "UID"@),
            is_override == (ics_prop(e@, "RECURRENCE-ID"@) is Some),
            text@ == spec_strip_html(spec_value(e@, "DESCRIPTION"@)),
            title@ == spec_value(e@, "SUMMARY"@),
            location@ == spec_value(e@, "LOCATION"@),
            event_views(out@) == occurrence_events(e@, tv.take(i as int), override_views(ov@), start),
        decreases ts@.len() - i,
    {
        let t = ts[i];
        assert(tv.take(i + 1).drop_last() == tv.take(i as int));
        assert(tv.take(i + 1).last() == t);
        let ghost before = event_views(out@);
        if !(!is_override && overridden(ov, uid.as_str(), t)) {
            let ev = Event::new(Raw {
                title: title.as_str(),
                start: t,
                end: end_after(t, start, end),
                location: location.as_str(),
                online: false,
                text: text.as_str(),
                group: "philosophia",
                label: "Philosophia",
                url: philosophia_url(),
            });
            out.push(ev);
            assert(event_views(out@) =~= before.push(ev@));
        }
        i = i + 1;
    }
    assert(tv.take(ts@.len() as int) == tv);
    out
}

/// Philosophia's public calendar, going back to 2020, with weekly series
/// in the older years expanded up to a year and a day from `now`.
pub fn philosophia_events(text: &str, now: i64) -> (r: Vec<Event>)
    requires
        valid_time(now as int),
    ensures
        event_views(r@) == spec_philosophia_events(text@, now),
{
    let es = crate::ics::parse(text);
    let ghost ev = ics_views(es@);
    let ov = overrides(&es);
    let horizon = now + 366 * DAY;
    let mut out: Vec<Event> = Vec::new();
    let mut i: usize = 0;
    while i < es.len()
        invariant
            i <= es@.len(),
            ev == ics_views(es@),
            override_views(ov@) == overrides_of(ev),
            horizon == (now + 366 * DAY) as i64,
            event_views(out@) == entries_events(ev.take(i as int), overrides_of(ev), horizon),
        decreases es@.len() - i,
    {
        assert(ev.take(i + 1).drop_last() == ev.take(i as int));
        assert(ev[i as int] == es@[i as int]@);
        let mut more = entry(&es[i], &ov, horizon);
        let ghost o = event_views(out@);
        let ghost m = event_views(more@);
        out.append(&mut more);
        assert(event_views(out@) =~= o + m);
        i = i + 1;
    }
    assert(ev.take(es@.len() as int) == ev);
    out
}

// Transcribed history and chat-only events

/// A past event transcribed by hand, as the data file has it.
pub struct Past {
    pub title: String,
    pub start: i64,
    pub end: Option<i64>,
    pub location: String,
    pub excerpt: String,
    pub groups: Vec<String>,
    pub label: String,
    pub url: String,
}

fn copy_strings(v: &Vec<String>) -> (r: Vec<String>)
    ensures
        string_views(r@) == string_views(v@),
{
    let mut out: Vec<String> = Vec::new();
    let mut i: usize = 0;
    while i < v.len()
        invariant
            i <= v@.len(),
            string_views(out@) == string_views(v@).take(i as int),
        decreases v@.len() - i,
    {
        let ghost before = string_views(out@);
        let c = string_of(&chars_of(v[i].as_str()));
        assert(c@ == v@[i as int]@);
        out.push(c);
        assert(string_views(v@)[i as int] == v@[i as int]@);
        assert(string_views(v@).take(i + 1) =~= string_views(v@).take(i as int).push(string_views(v@)[i as int]));
        assert(string_views(out@) =~= before.push(c@));
        assert(string_views(out@) =~= string_views(v@).take(i + 1));
        i = i + 1;
    }
    assert(string_views(v@).take(v@.len() as int) == string_views(v@));
    out
}

pub open spec fn past_event(p: Past) -> EventModel {
    EventModel {
        groups: string_views(p.groups@),
        ..spec_new(p.title@, p.start, p.end, p.location@, false, p.excerpt@, p.groups@[0]@, p.label@, p.url@)
    }
}

pub open spec fn past_events(ps: Seq<Past>) -> Seq<EventModel>
    decreases ps.len(),
{
    if ps.len() == 0 {
        seq![]
    } else {
        past_events(ps.drop_last()).push(past_event(ps.last()))
    }
}

/// History nobody publishes in a machine-readable form any more,
/// transcribed once: each event with all its groups.
pub fn history(past: &Vec<Past>) -> (r: Vec<Event>)
    requires
        forall|i: int| 0 <= i < past@.len() ==> (#[trigger] past@[i]).groups@.len() > 0,
    ensures
        event_views(r@) == past_events(past@),
{
    let mut out: Vec<Event> = Vec::new();
    let mut i: usize = 0;
    while i < past.len()
        invariant
            i <= past@.len(),
            forall|k: int| 0 <= k < past@.len() ==> (#[trigger] past@[k]).groups@.len() > 0,
            event_views(out@) == past_events(past@.take(i as int)),
        decreases past@.len() - i,
    {
        assert(past@.take(i + 1).drop_last() == past@.take(i as int));
        let p = &past[i];
        assert(p.groups@.len() > 0);
        let mut e = Event::new(Raw {
            title: p.title.as_str(),
            start: p.start,
            end: p.end,
            location: p.location.as_str(),
            online: false,
            text: p.excerpt.as_str(),
            group: p.groups[0].as_str(),
            label: p.label.as_str(),
            url: p.url.as_str(),
        });
        e.groups = copy_strings(&p.groups);
        let ghost before = event_views(out@);
        out.push(e);
        assert(event_views(out@) =~= before.push(past_event(*p)));
        i = i + 1;
    }
    assert(past@.take(past@.len() as int) == past@);
    out
}

/// An event organised only in a group chat, as the data file has it.
pub struct Unlisted {
    pub title: String,
    pub start: i64,
    pub groups: Vec<String>,
}

pub open spec fn unlisted_event(u: Unlisted) -> EventModel {
    EventModel {
        groups: string_views(u.groups@),
        links: seq![],
        chat: true,
        ..spec_new(u.title@, u.start, None, ""@, false, ""@, u.groups@[0]@, ""@, ""@)
    }
}

pub open spec fn unlisted_events(us: Seq<Unlisted>, now: i64) -> Seq<EventModel>
    decreases us.len(),
{
    if us.len() == 0 {
        seq![]
    } else {
        unlisted_events(us.drop_last(), now) + if us.last().start < now {
            seq![unlisted_event(us.last())]
        } else {
            seq![]
        }
    }
}

/// The events of `es` that start before `t`, in order.
pub open spec fn starting_before(es: Seq<EventModel>, t: i64) -> Seq<EventModel>
    decreases es.len(),
{
    if es.len() == 0 {
        seq![]
    } else {
        starting_before(es.drop_last(), t) + if es.last().start < t { seq![es.last()] } else { seq![] }
    }
}

/// Looked at later, the chat-only events are the same ones and maybe some
/// more: the list at `t1` is the list at a later `t2` cut at `t1`.
pub proof fn law_unannounced_only_grows(us: Seq<Unlisted>, t1: i64, t2: i64)
    requires
        t1 <= t2,
    ensures
        unlisted_events(us, t1) == starting_before(unlisted_events(us, t2), t1),
    decreases us.len(),
{
    if us.len() > 0 {
        law_unannounced_only_grows(us.drop_last(), t1, t2);
        let prev = unlisted_events(us.drop_last(), t2);
        let u = us.last();
        if u.start < t2 {
            let x = unlisted_event(u);
            assert(x.start == u.start);
            assert((prev + seq![x]).drop_last() == prev);
            assert((prev + seq![x]).last() == x);
        } else {
            assert(prev + Seq::<EventModel>::empty() == prev);
        }
    }
}

/// Events that happened but were never announced anywhere the calendar
/// reads: listed and counted like the rest, marked as chat-only since
/// there is nothing to link to.
pub fn unannounced(listed: &Vec<Unlisted>, now: i64) -> (r: Vec<Event>)
    requires
        forall|i: int| 0 <= i < listed@.len() ==> (#[trigger] listed@[i]).groups@.len() > 0,
    ensures
        event_views(r@) == unlisted_events(listed@, now),
{
    proof {
        reveal_strlit("");
    }
    let mut out: Vec<Event> = Vec::new();
    let mut i: usize = 0;
    while i < listed.len()
        invariant
            i <= listed@.len(),
            forall|k: int| 0 <= k < listed@.len() ==> (#[trigger] listed@[k]).groups@.len() > 0,
            event_views(out@) == unlisted_events(listed@.take(i as int), now),
        decreases listed@.len() - i,
    {
        assert(listed@.take(i + 1).drop_last() == listed@.take(i as int));
        let u = &listed[i];
        if u.start < now {
            assert(u.groups@.len() > 0);
            let mut e = Event::new(Raw {
                title: u.title.as_str(),
                start: u.start,
                end: None,
                location: "",
                online: false,
                text: "",
                group: u.groups[0].as_str(),
                label: "",
                url: "",
            });
            let ghost m0 = e@;
            assert(m0 == spec_new(u.title@, u.start, None, ""@, false, ""@, u.groups@[0]@, ""@, ""@));
            e.groups = copy_strings(&u.groups);
            e.links = Vec::new();
            e.chat = true;
            assert(e@.links =~= Seq::<(Seq<char>, Seq<char>)>::empty());
            assert(e@ == unlisted_event(*u));
            let ghost before = event_views(out@);
            out.push(e);
            assert(event_views(out@) =~= before.push(unlisted_event(*u)));
        }
        i = i + 1;
    }
    assert(listed@.take(listed@.len() as int) == listed@);
    out
}

// Hand-kept data about events: polls, headcounts, ranges

/// A group's event on the Munich day of `start`.
pub open spec fn on_day_of(e: EventModel, start: i64, group: Seq<char>) -> bool {
    e.groups.contains(group) && munich_day_of(e.start as int) == munich_day_of(start as int)
}

pub open spec fn dist(a: i64, b: i64) -> int {
    if a >= b { a - b } else { b - a }
}

/// The nearest such event from index `i` on, the earliest of equally near
/// ones winning, given the best before `i`.
pub open spec fn nearest_from(es: Seq<EventModel>, start: i64, group: Seq<char>, i: int, best: Option<int>) -> Option<int>
    decreases es.len() - i,
{
    if i < 0 || i >= es.len() {
        best
    } else {
        let nb = if on_day_of(es[i], start, group) && (match best {
            Some(b) => dist(es[i].start, start) < dist(es[b].start, start),
            None => true,
        }) {
            Some(i)
        } else {
            best
        };
        nearest_from(es, start, group, i + 1, nb)
    }
}

/// The group's event that day starting nearest `start`: hand-kept data
/// names an event by its group and time rather than by its title, which
/// feeds change.
pub open spec fn spec_nearest_on_day(es: Seq<EventModel>, start: i64, group: Seq<char>) -> Option<int> {
    nearest_from(es, start, group, 0, None)
}

fn has_group(e: &Event, group: &str) -> (r: bool)
    ensures
        r == e@.groups.contains(group@),
{
    let mut i: usize = 0;
    while i < e.groups.len()
        invariant
            i <= e.groups@.len(),
            forall|k: int| 0 <= k < i ==> e@.groups[k] != group@,
        decreases e.groups@.len() - i,
    {
        assert(e@.groups[i as int] == e.groups@[i as int]@);
        if eq_str(e.groups[i].as_str(), group) {
            return true;
        }
        i = i + 1;
    }
    false
}

proof fn lemma_nearest_from_bound(es: Seq<EventModel>, start: i64, group: Seq<char>, i: int, best: Option<int>)
    requires
        best matches Some(b) ==> 0 <= b < es.len(),
    ensures
        nearest_from(es, start, group, i, best) matches Some(k) ==> 0 <= k < es.len(),
    decreases es.len() - i,
{
    if 0 <= i < es.len() {
        let nb = if on_day_of(es[i], start, group) && (match best {
            Some(b) => dist(es[i].start, start) < dist(es[b].start, start),
            None => true,
        }) {
            Some(i)
        } else {
            best
        };
        lemma_nearest_from_bound(es, start, group, i + 1, nb);
    }
}

/// The event `spec_nearest_on_day` picks is one of `es`.
pub proof fn lemma_nearest_on_day_bound(es: Seq<EventModel>, start: i64, group: Seq<char>)
    ensures
        spec_nearest_on_day(es, start, group) matches Some(k) ==> 0 <= k < es.len(),
{
    lemma_nearest_from_bound(es, start, group, 0, None);
}

pub fn nearest_on_day(events: &Vec<Event>, start: i64, group: &str) -> (r: Option<usize>)
    requires
        all_wf(events@),
        valid_time(start as int),
    ensures
        match r {
            Some(i) => spec_nearest_on_day(event_views(events@), start, group@) == Some(i as int) && i < events@.len(),
            None => spec_nearest_on_day(event_views(events@), start, group@) is None,
        },
{
    let ghost es = event_views(events@);
    let day = munich_day(start);
    let mut best: Option<usize> = None;
    let mut best_dist: i64 = 0;
    let mut i: usize = 0;
    while i < events.len()
        invariant
            i <= events@.len(),
            es == event_views(events@),
            all_wf(events@),
            valid_time(start as int),
            day == munich_day_of(start as int),
            nearest_from(es, start, group@, i as int, match best { Some(b) => Some(b as int), None => None })
                == spec_nearest_on_day(es, start, group@),
            best matches Some(b) ==> b < i && best_dist == dist(es[b as int].start, start),
        decreases events@.len() - i,
    {
        let e = &events[i];
        assert(es[i as int] == e@);
        assert(e@.wf());
        let d: i64 = if e.start >= start { e.start - start } else { start - e.start };
        if has_group(e, group) && munich_day(e.start) == day {
            let closer = match best {
                Some(_) => d < best_dist,
                None => true,
            };
            if closer {
                best = Some(i);
                best_dist = d;
            }
        }
        i = i + 1;
    }
    best
}

/// A "who's coming?" poll from a group chat, for an event whose page had
/// no RSVPs, with the turnout its votes make likely.
pub struct Poll {
    pub start: i64,
    pub group: String,
    pub expected: u32,
}

pub open spec fn poll_applied(es: Seq<EventModel>, p: Poll) -> Seq<EventModel> {
    match spec_nearest_on_day(es, p.start, p.group@) {
        Some(i) => es.update(i, EventModel {
            signups: if es[i].signups >= p.expected { es[i].signups } else { p.expected },
            ..es[i]
        }),
        None => es,
    }
}

pub open spec fn polls_applied(es: Seq<EventModel>, ps: Seq<Poll>) -> Seq<EventModel>
    decreases ps.len(),
{
    if ps.len() == 0 {
        es
    } else {
        poll_applied(polls_applied(es, ps.drop_last()), ps.last())
    }
}

/// Gives each poll's expected turnout to the group's event that day
/// starting nearest the time the poll named, unless it has more sign-ups
/// already.
pub fn apply_polls(events: &mut Vec<Event>, polls: &Vec<Poll>)
    requires
        all_wf(old(events)@),
        forall|i: int| 0 <= i < polls@.len() ==> valid_time((#[trigger] polls@[i]).start as int),
    ensures
        all_wf(final(events)@),
        event_views(final(events)@) == polls_applied(event_views(old(events)@), polls@),
{
    let ghost e0 = event_views(events@);
    let mut k: usize = 0;
    while k < polls.len()
        invariant
            k <= polls@.len(),
            all_wf(events@),
            forall|i: int| 0 <= i < polls@.len() ==> valid_time((#[trigger] polls@[i]).start as int),
            event_views(events@) == polls_applied(e0, polls@.take(k as int)),
        decreases polls@.len() - k,
    {
        assert(polls@.take(k + 1).drop_last() == polls@.take(k as int));
        let p = &polls[k];
        assert(valid_time(p.start as int));
        let ghost before = event_views(events@);
        match nearest_on_day(events, p.start, p.group.as_str()) {
            Some(i) => {
                let s = events[i].signups;
                let n = if s >= p.expected { s } else { p.expected };
                events[i].signups = n;
                assert(event_views(events@) =~= poll_applied(before, *p));
            },
            None => {},
        }
        k = k + 1;
    }
    assert(polls@.take(polls@.len() as int) == polls@);
}

/// The organisers' own count of an event, or a floor ("at least 10").
pub struct Headcount {
    pub start: i64,
    pub group: String,
    pub came: u32,
    pub at_least: bool,
}

pub open spec fn headcount_applied(es: Seq<EventModel>, h: Headcount) -> Seq<EventModel> {
    match spec_nearest_on_day(es, h.start, h.group@) {
        Some(i) => {
            let reported_more = es[i].attended matches Some(c) && c.n >= h.came;
            if !(h.at_least && reported_more) {
                es.update(i, EventModel { attended: Some(Came { n: h.came, at_least: h.at_least }), ..es[i] })
            } else {
                es
            }
        },
        None => es,
    }
}

pub open spec fn headcounts_applied(es: Seq<EventModel>, hs: Seq<Headcount>) -> Seq<EventModel>
    decreases hs.len(),
{
    if hs.len() == 0 {
        es
    } else {
        headcount_applied(headcounts_applied(es, hs.drop_last()), hs.last())
    }
}

/// Organisers counted, so their number beats visitors' reports; a floor
/// gives way to a report above it.
pub fn apply_headcounts(events: &mut Vec<Event>, counts: &Vec<Headcount>)
    requires
        all_wf(old(events)@),
        forall|i: int| 0 <= i < counts@.len() ==> valid_time((#[trigger] counts@[i]).start as int),
    ensures
        all_wf(final(events)@),
        event_views(final(events)@) == headcounts_applied(event_views(old(events)@), counts@),
{
    let ghost e0 = event_views(events@);
    let mut k: usize = 0;
    while k < counts.len()
        invariant
            k <= counts@.len(),
            all_wf(events@),
            forall|i: int| 0 <= i < counts@.len() ==> valid_time((#[trigger] counts@[i]).start as int),
            event_views(events@) == headcounts_applied(e0, counts@.take(k as int)),
        decreases counts@.len() - k,
    {
        assert(counts@.take(k + 1).drop_last() == counts@.take(k as int));
        let h = &counts[k];
        assert(valid_time(h.start as int));
        let ghost before = event_views(events@);
        match nearest_on_day(events, h.start, h.group.as_str()) {
            Some(i) => {
                let reported_more = match events[i].attended {
                    Some(c) => c.n >= h.came,
                    None => false,
                };
                if !(h.at_least && reported_more) {
                    events[i].attended = Some(Came { n: h.came, at_least: h.at_least });
                }
                assert(event_views(events@) =~= headcount_applied(before, *h));
            },
            None => {},
        }
        k = k + 1;
    }
    assert(counts@.take(counts@.len() as int) == counts@);
}

/// Polls only ever raise sign-ups: every event keeps all else, and at
/// least the sign-ups it had.
pub proof fn law_polls_never_lower_signups(es: Seq<EventModel>, ps: Seq<Poll>)
    ensures
        polls_applied(es, ps).len() == es.len(),
        forall|i: int| 0 <= i < es.len() ==> {
            let e = #[trigger] polls_applied(es, ps)[i];
            e.signups >= es[i].signups && e == EventModel { signups: e.signups, ..es[i] }
        },
    decreases ps.len(),
{
    if ps.len() > 0 {
        law_polls_never_lower_signups(es, ps.drop_last());
        let mid = polls_applied(es, ps.drop_last());
        lemma_nearest_on_day_bound(mid, ps.last().start, ps.last().group@);
        assert forall|i: int| 0 <= i < es.len() implies {
            let e = #[trigger] polls_applied(es, ps)[i];
            e.signups >= es[i].signups && e == EventModel { signups: e.signups, ..es[i] }
        } by {
            assert(mid[i].signups >= es[i].signups);
        }
    }
}

/// What the organisers know about a whole series: how many usually came.
pub struct Range {
    pub groups: Vec<String>,
    /// Words every event of the series has in its title.
    pub title: String,
    /// Events after this are not covered: the series may have grown.
    pub until: i64,
    pub low: u32,
    pub high: u32,
}

/// Whether an event belongs to a series nobody counted.
pub open spec fn in_range_series(e: EventModel, r: Range) -> bool {
    e.attended is None && e.start < r.until && e.groups == string_views(r.groups@)
        && all_in(spec_title_words(r.title@), spec_title_words(e.title))
}

/// The headcount a range gives an event: its sign-ups kept inside the
/// range, or the middle of it.
pub open spec fn range_count(e: EventModel, r: Range) -> u32 {
    if e.signups > 0 {
        if e.signups < r.low { r.low } else if e.signups > r.high { r.high } else { e.signups }
    } else {
        ((r.low + r.high + 1) / 2) as u32
    }
}

pub open spec fn range_applied(es: Seq<EventModel>, r: Range) -> Seq<EventModel>
    decreases es.len(),
{
    if es.len() == 0 {
        seq![]
    } else {
        range_applied(es.drop_last(), r).push(if in_range_series(es.last(), r) {
            EventModel { attended: Some(Came { n: range_count(es.last(), r), at_least: false }), ..es.last() }
        } else {
            es.last()
        })
    }
}

pub open spec fn ranges_applied(es: Seq<EventModel>, rs: Seq<Range>) -> Seq<EventModel>
    decreases rs.len(),
{
    if rs.len() == 0 {
        es
    } else {
        range_applied(ranges_applied(es, rs.drop_last()), rs.last())
    }
}

/// A range never touches an event that has a headcount, and every headcount
/// it gives lies within the range.
proof fn lemma_range_applied(es: Seq<EventModel>, r: Range)
    requires
        r.low <= r.high,
        r.low + r.high <= u32::MAX,
    ensures
        range_applied(es, r).len() == es.len(),
        forall|i: int| 0 <= i < es.len() ==> {
            let e = #[trigger] range_applied(es, r)[i];
            &&& es[i].attended is Some ==> e == es[i]
            &&& e == EventModel { attended: e.attended, ..es[i] }
            &&& (es[i].attended is None && e.attended is Some) ==> r.low <= e.attended->0.n <= r.high && !e.attended->0.at_least
        },
    decreases es.len(),
{
    if es.len() > 0 {
        lemma_range_applied(es.drop_last(), r);
        let out = range_applied(es, r);
        assert forall|i: int| 0 <= i < es.len() implies {
            let e = #[trigger] range_applied(es, r)[i];
            &&& es[i].attended is Some ==> e == es[i]
            &&& e == EventModel { attended: e.attended, ..es[i] }
            &&& (es[i].attended is None && e.attended is Some) ==> r.low <= e.attended->0.n <= r.high && !e.attended->0.at_least
        } by {
            if i < es.len() - 1 {
                assert(out[i] == range_applied(es.drop_last(), r)[i]);
                assert(es.drop_last()[i] == es[i]);
            }
        }
    }
}

/// The organisers' ranges never replace a headcount, and each headcount
/// they give lies within the range of one of them.
pub proof fn law_ranges_fill_in_within_bounds(es: Seq<EventModel>, rs: Seq<Range>)
    requires
        forall|k: int| 0 <= k < rs.len() ==> (#[trigger] rs[k]).low <= rs[k].high && rs[k].low + rs[k].high <= u32::MAX,
    ensures
        ranges_applied(es, rs).len() == es.len(),
        forall|i: int| 0 <= i < es.len() ==> {
            let e = #[trigger] ranges_applied(es, rs)[i];
            &&& es[i].attended is Some ==> e == es[i]
            &&& e == EventModel { attended: e.attended, ..es[i] }
            &&& (es[i].attended is None && e.attended is Some)
                ==> exists|k: int| 0 <= k < rs.len() && (#[trigger] rs[k]).low <= e.attended->0.n <= rs[k].high
        },
    decreases rs.len(),
{
    if rs.len() > 0 {
        let rs0 = rs.drop_last();
        assert forall|k: int| 0 <= k < rs0.len() implies (#[trigger] rs0[k]).low <= rs0[k].high
            && rs0[k].low + rs0[k].high <= u32::MAX by {
            assert(rs0[k] == rs[k]);
        }
        law_ranges_fill_in_within_bounds(es, rs0);
        let mid = ranges_applied(es, rs0);
        let last = rs[rs.len() - 1];
        lemma_range_applied(mid, last);
        assert forall|i: int| 0 <= i < es.len() implies {
            let e = #[trigger] ranges_applied(es, rs)[i];
            &&& es[i].attended is Some ==> e == es[i]
            &&& e == EventModel { attended: e.attended, ..es[i] }
            &&& (es[i].attended is None && e.attended is Some)
                ==> exists|k: int| 0 <= k < rs.len() && (#[trigger] rs[k]).low <= e.attended->0.n <= rs[k].high
        } by {
            let e = ranges_applied(es, rs)[i];
            assert(e == range_applied(mid, last)[i]);
            if es[i].attended is None {
                if let Some(c) = e.attended {
                    if mid[i].attended is Some {
                        let c0 = mid[i].attended->0;
                        let k = choose|k: int| 0 <= k < rs0.len() && (#[trigger] rs0[k]).low <= c0.n <= rs0[k].high;
                        assert(rs[k] == rs0[k]);
                        assert(e == mid[i]);
                    } else {
                        assert(rs[rs.len() - 1] == last);
                    }
                }
            }
        }
    }
}

fn same_groups(a: &Vec<String>, b: &Vec<String>) -> (r: bool)
    ensures
        r == (string_views(a@) == string_views(b@)),
{
    if a.len() != b.len() {
        assert(string_views(a@).len() != string_views(b@).len());
        return false;
    }
    let mut i: usize = 0;
    while i < a.len()
        invariant
            i <= a@.len(),
            a@.len() == b@.len(),
            forall|k: int| 0 <= k < i ==> string_views(a@)[k] == string_views(b@)[k],
        decreases a@.len() - i,
    {
        if !eq_str(a[i].as_str(), b[i].as_str()) {
            assert(string_views(a@)[i as int] != string_views(b@)[i as int]);
            return false;
        }
        i = i + 1;
    }
    assert(string_views(a@) =~= string_views(b@));
    true
}

/// Gives each event of a series that nobody counted a headcount within
/// the range the organisers gave: its sign-ups kept inside that range, or
/// the middle of it.
pub fn apply_ranges(events: &mut Vec<Event>, ranges: &Vec<Range>)
    requires
        forall|i: int| 0 <= i < ranges@.len() ==> (#[trigger] ranges@[i]).low <= ranges@[i].high
            && ranges@[i].low + ranges@[i].high <= u32::MAX,
    ensures
        event_views(final(events)@) == ranges_applied(event_views(old(events)@), ranges@),
        all_wf(old(events)@) ==> all_wf(final(events)@),
{
    let ghost e0 = event_views(events@);
    let ghost w0 = all_wf(events@);
    let mut k: usize = 0;
    while k < ranges.len()
        invariant
            k <= ranges@.len(),
            forall|i: int| 0 <= i < ranges@.len() ==> (#[trigger] ranges@[i]).low <= ranges@[i].high
                && ranges@[i].low + ranges@[i].high <= u32::MAX,
            event_views(events@) == ranges_applied(e0, ranges@.take(k as int)),
            w0 ==> all_wf(events@),
        decreases ranges@.len() - k,
    {
        assert(ranges@.take(k + 1).drop_last() == ranges@.take(k as int));
        let r = &ranges[k];
        assert(r.low <= r.high && r.low + r.high <= u32::MAX);
        let words = title_words(r.title.as_str());
        let ghost before = event_views(events@);
        assert(before.take(0) =~= Seq::<EventModel>::empty());
        assert(before.skip(0) == before);
        assert(range_applied(Seq::<EventModel>::empty(), *r) =~= Seq::<EventModel>::empty());
        let mut i: usize = 0;
        while i < events.len()
            invariant
                i <= events@.len(),
                events@.len() == before.len(),
                r.low <= r.high,
                r.low + r.high <= u32::MAX,
                views_of_words(words@) == spec_title_words(r.title@),
                event_views(events@) == range_applied(before.take(i as int), *r) + before.skip(i as int),
                w0 ==> all_wf(events@),
            decreases events@.len() - i,
        {
            let ghost cur = event_views(events@);
            proof {
                lemma_range_applied_len(before.take(i as int), *r);
            }
            assert(cur[i as int] == before[i as int]);
            assert(cur[i as int] == events@[i as int]@);
            assert(before.take(i + 1).drop_last() == before.take(i as int));
            let fits = match events[i].attended {
                Some(_) => false,
                None => events[i].start < r.until && same_groups(&events[i].groups, &r.groups)
                    && is_subset(&words, &title_words(events[i].title.as_str())),
            };
            let ghost b = before[i as int];
            let ghost want = if in_range_series(b, *r) {
                EventModel { attended: Some(Came { n: range_count(b, *r), at_least: false }), ..b }
            } else {
                b
            };
            assert(fits == in_range_series(b, *r));
            assert(range_applied(before.take(i + 1), *r) == range_applied(before.take(i as int), *r).push(want));
            if fits {
                let s = events[i].signed_up();
                let n: u32 = if s > 0 {
                    if s < r.low { r.low } else if s > r.high { r.high } else { s }
                } else {
                    ((r.low as u64 + r.high as u64 + 1) / 2) as u32
                };
                events[i].attended = Some(Came { n, at_least: false });
            }
            assert(event_views(events@) =~= cur.update(i as int, want));
            assert(event_views(events@) =~= range_applied(before.take(i + 1), *r) + before.skip(i + 1));
            i = i + 1;
        }
        assert(before.take(before.len() as int) == before);
        assert(before.skip(before.len() as int) =~= Seq::<EventModel>::empty());
        assert(event_views(events@) =~= range_applied(before, *r));
        k = k + 1;
    }
    assert(ranges@.take(ranges@.len() as int) == ranges@);
}

pub proof fn lemma_range_applied_len(es: Seq<EventModel>, r: Range)
    ensures
        range_applied(es, r).len() == es.len(),
    decreases es.len(),
{
    if es.len() > 0 {
        lemma_range_applied_len(es.drop_last(), r);
    }
}

pub open spec fn views_of_words(v: Seq<Vec<char>>) -> Seq<Seq<char>> {
    views(v)
}

// The sources

/// How a source is fetched and read.
#[derive(Clone, Copy, Debug, PartialEq, Eq)]
pub enum Fetch {
    /// LessWrong and the EA Forum run the same software and the same
    /// GraphQL API: a group's upcoming and past events.
    Forum { endpoint: &'static str, group_id: &'static str, group: &'static str },
    /// A Meetup group's events, through the GraphQL endpoint its own
    /// website uses; `keep` picks the events that are the group's when it
    /// posts through a broader one.
    Meetup { slug: &'static str, group: &'static str, keep: Keep },
    /// Luma's iCalendar feed, and Luma's API for how many registered.
    Luma,
    /// Philosophia's public Google Calendar.
    Philosophia,
    /// The MCMP reading group's schedule page.
    Mlphil,
}

pub enum FetchModel {
    Forum { endpoint: Seq<char>, group_id: Seq<char>, group: Seq<char> },
    Meetup { slug: Seq<char>, group: Seq<char>, keep: Keep },
    Luma,
    Philosophia,
    Mlphil,
}

/// A source of events: the name of its cache file, what the page says
/// when it cannot be reached, and how it is fetched.
pub struct Source {
    pub key: &'static str,
    pub label: &'static str,
    pub fetch: Fetch,
}

pub open spec fn fetch_view(f: Fetch) -> FetchModel {
    match f {
        Fetch::Forum { endpoint, group_id, group } => FetchModel::Forum { endpoint: endpoint@, group_id: group_id@, group: group@ },
        Fetch::Meetup { slug, group, keep } => FetchModel::Meetup { slug: slug@, group: group@, keep },
        Fetch::Luma => FetchModel::Luma,
        Fetch::Philosophia => FetchModel::Philosophia,
        Fetch::Mlphil => FetchModel::Mlphil,
    }
}

pub open spec fn source_views(v: Seq<Source>) -> Seq<(Seq<char>, Seq<char>, FetchModel)> {
    v.map_values(|s: Source| (s.key@, s.label@, fetch_view(s.fetch)))
}

pub open spec fn lesswrong() -> Seq<char> {
    "https://www.lesswrong.com/graphql"@
}

pub open spec fn ea_forum() -> Seq<char> {
    "https://forum.effectivealtruism.org/graphql"@
}

pub open spec fn forum_source(key: Seq<char>, label: Seq<char>, endpoint: Seq<char>, id: Seq<char>, group: Seq<char>) -> (Seq<char>, Seq<char>, FetchModel) {
    (key, label, FetchModel::Forum { endpoint, group_id: id, group })
}

pub open spec fn meetup_source(key: Seq<char>, slug: Seq<char>, group: Seq<char>, keep: Keep) -> (Seq<char>, Seq<char>, FetchModel) {
    (key, "Meetup"@, FetchModel::Meetup { slug, group, keep })
}

/// Every source, in the order they are fetched.
pub open spec fn source_table() -> Seq<(Seq<char>, Seq<char>, FetchModel)> {
    seq![
        forum_source("lw-acx"@, "LessWrong"@, lesswrong(), "EBvaNj4oAn5nkkzbJ"@, "acx"@),
        forum_source("lw-acx-old"@, "LessWrong"@, lesswrong(), "QGxgyBgHCcKiE8p6p"@, "acx"@),
        forum_source("lw-ea"@, "LessWrong"@, lesswrong(), "cavvnnKLnWeqHPAsR"@, "ea"@),
        forum_source("eaforum"@, "EA Forum"@, ea_forum(), "E8ruG2KzaNpynpGXK"@, "ea"@),
        meetup_source("meetup"@, "effective-altruism-munich"@, "ea"@, Keep::All),
        ("luma"@, "Luma"@, FetchModel::Luma),
        ("philosophia"@, "Philosophia"@, FetchModel::Philosophia),
        ("mlphil"@, "MCMP"@, FetchModel::Mlphil),
        meetup_source("geb"@, "munich-weekly-activities"@, "geb"@, Keep::Geb),
        meetup_source("agi"@, "munchen-artificial-general-intelligence-meetup-group"@, "agi"@, Keep::All),
        meetup_source("skeptics"@, "skeptics-in-the-pub-munchen"@, "skeptics"@, Keep::All),
        meetup_source("science"@, "science-club-munich"@, "science"@, Keep::All),
        meetup_source("minds"@, "minds-in-motion-munich"@, "minds"@, Keep::All),
        meetup_source("curious"@, "lifelong__curious"@, "curious"@, Keep::All),
        meetup_source("silentbooks"@, "silent-book-club"@, "silentbooks"@, Keep::All),
        meetup_source("culture"@, "culture-club-munich"@, "culture"@, Keep::All),
    ]
}

fn forum(key: &'static str, label: &'static str, endpoint: &'static str, group_id: &'static str, group: &'static str) -> (r: Source)
    ensures
        (r.key@, r.label@, fetch_view(r.fetch)) == forum_source(key@, label@, endpoint@, group_id@, group@),
{
    Source { key, label, fetch: Fetch::Forum { endpoint, group_id, group } }
}

fn meetup_group(key: &'static str, slug: &'static str, group: &'static str, keep: Keep) -> (r: Source)
    ensures
        (r.key@, r.label@, fetch_view(r.fetch)) == meetup_source(key@, slug@, group@, keep),
{
    Source { key, label: "Meetup", fetch: Fetch::Meetup { slug, group, keep } }
}

/// Every source, in the order they are fetched. The old ACX group on
/// LessWrong has been inactive since 2021 and gives history only.
pub fn all() -> (r: Vec<Source>)
    ensures
        source_views(r@) == source_table(),
{
    let lw = "https://www.lesswrong.com/graphql";
    let eaf = "https://forum.effectivealtruism.org/graphql";
    let r = vec![
        forum("lw-acx", "LessWrong", lw, "EBvaNj4oAn5nkkzbJ", "acx"),
        forum("lw-acx-old", "LessWrong", lw, "QGxgyBgHCcKiE8p6p", "acx"),
        forum("lw-ea", "LessWrong", lw, "cavvnnKLnWeqHPAsR", "ea"),
        forum("eaforum", "EA Forum", eaf, "E8ruG2KzaNpynpGXK", "ea"),
        meetup_group("meetup", "effective-altruism-munich", "ea", Keep::All),
        Source { key: "luma", label: "Luma", fetch: Fetch::Luma },
        Source { key: "philosophia", label: "Philosophia", fetch: Fetch::Philosophia },
        Source { key: "mlphil", label: "MCMP", fetch: Fetch::Mlphil },
        meetup_group("geb", "munich-weekly-activities", "geb", Keep::Geb),
        meetup_group("agi", "munchen-artificial-general-intelligence-meetup-group", "agi", Keep::All),
        meetup_group("skeptics", "skeptics-in-the-pub-munchen", "skeptics", Keep::All),
        meetup_group("science", "science-club-munich", "science", Keep::All),
        meetup_group("minds", "minds-in-motion-munich", "minds", Keep::All),
        meetup_group("curious", "lifelong__curious", "curious", Keep::All),
        meetup_group("silentbooks", "silent-book-club", "silentbooks", Keep::All),
        meetup_group("culture", "culture-club-munich", "culture", Keep::All),
    ];
    assert(source_views(r@) =~= source_table());
    r
}

/// Strictly ascending the way `str` orders: sorted, each once.
pub open spec fn strictly_sorted(v: Seq<Seq<char>>) -> bool {
    forall|i: int, j: int| 0 <= i < j < v.len() ==> str_less(#[trigger] v[i], #[trigger] v[j])
}

/// Inserting `x`, which `v` lacks, where it sorts keeps `v` strictly sorted.
proof fn lemma_insert_sorted(v: Seq<Seq<char>>, p: int, x: Seq<char>)
    requires
        strictly_sorted(v),
        0 <= p <= v.len(),
        !v.contains(x),
        forall|k: int| 0 <= k < p ==> !str_less(x, #[trigger] v[k]),
        p < v.len() ==> str_less(x, v[p]),
    ensures
        strictly_sorted(v.insert(p, x)),
{
    let w = v.insert(p, x);
    assert forall|k: int| 0 <= k < p implies str_less(#[trigger] v[k], x) by {
        lemma_str_less_order(v[k], x, x);
        assert(v[k] != x);
    }
    assert forall|k: int| p <= k < v.len() implies str_less(x, #[trigger] v[k]) by {
        if k > p {
            lemma_str_less_order(x, v[p], v[k]);
        }
    }
    assert forall|i: int, j: int| 0 <= i < j < w.len() implies str_less(#[trigger] w[i], #[trigger] w[j]) by {
        if j < p {
            assert(w[i] == v[i] && w[j] == v[j]);
        } else if j == p {
            assert(w[i] == v[i] && w[j] == x);
        } else if i < p {
            assert(w[i] == v[i] && w[j] == v[j - 1]);
            lemma_str_less_order(v[i], x, v[j - 1]);
        } else if i == p {
            assert(w[i] == x && w[j] == v[j - 1]);
        } else {
            assert(w[i] == v[i - 1] && w[j] == v[j - 1]);
        }
    }
}

/// The labels of the sources that could not be reached, each once, in
/// `str` order, for the page's note.
pub fn stale_labels(failed: &Vec<&str>) -> (r: Vec<String>)
    ensures
        strictly_sorted(string_views(r@)),
        forall|s: Seq<char>| string_views(r@).contains(s) <==> strs_view(failed@).contains(s),
{
    let mut out: Vec<String> = Vec::new();
    let mut i: usize = 0;
    while i < failed.len()
        invariant
            i <= failed@.len(),
            strictly_sorted(string_views(out@)),
            forall|s: Seq<char>| string_views(out@).contains(s) <==> strs_view(failed@).take(i as int).contains(s),
        decreases failed@.len() - i,
    {
        let x = failed[i];
        let ghost v = string_views(out@);
        let ghost f = strs_view(failed@);
        assert(f[i as int] == x@);
        assert(f.take(i + 1) == f.take(i as int).push(x@));
        let mut found = false;
        let mut p: usize = 0;
        while p < out.len()
            invariant_except_break
                !found,
                forall|k: int| 0 <= k < p ==> !str_less(x@, #[trigger] v[k]) && v[k] != x@,
            invariant
                p <= out@.len(),
                v == string_views(out@),
                strictly_sorted(v),
            ensures
                found ==> p < out@.len() && v[p as int] == x@,
                !found ==> forall|k: int| 0 <= k < p ==> !str_less(x@, #[trigger] v[k]) && v[k] != x@,
                !found ==> (p < out@.len() ==> str_less(x@, v[p as int])),
            decreases out@.len() - p,
        {
            assert(v[p as int] == out@[p as int]@);
            if crate::text::eq_str(out[p].as_str(), x) {
                found = true;
                break;
            }
            if less_str(x, out[p].as_str()) {
                break;
            }
            p = p + 1;
        }
        if !found {
            proof {
                if v.contains(x@) {
                    let k = choose|k: int| 0 <= k < v.len() && v[k] == x@;
                    lemma_str_less_order(x@, x@, x@);
                    if k > p {
                        assert(str_less(v[p as int], v[k]));
                        lemma_str_less_order(x@, v[p as int], v[k]);
                    }
                    assert(false);
                }
                lemma_insert_sorted(v, p as int, x@);
            }
            out.insert(p, crate::text::string_of(&crate::text::chars_of(x)));
            assert(string_views(out@) =~= v.insert(p as int, x@));
        }
        proof {
            let w = string_views(out@);
            let ft = f.take(i + 1);
            let f0 = f.take(i as int);
            assert(ft == f0.push(x@));
            assert forall|s: Seq<char>| w.contains(s) <==> ft.contains(s) by {
                if w.contains(s) {
                    let k = choose|k: int| 0 <= k < w.len() && w[k] == s;
                    if !found && k == p {
                        assert(ft[i as int] == s);
                    } else {
                        if !found && k > p {
                            assert(w[k] == v[k - 1]);
                        } else {
                            assert(w[k] == v[k]);
                        }
                        assert(v.contains(s));
                        assert(f0.contains(s));
                        let m = choose|m: int| 0 <= m < f0.len() && f0[m] == s;
                        assert(ft[m] == s);
                    }
                }
                if ft.contains(s) {
                    let m = choose|m: int| 0 <= m < ft.len() && ft[m] == s;
                    if m == i {
                        assert(w[p as int] == s);
                    } else {
                        assert(f0[m] == s);
                        assert(f0.contains(s));
                        assert(v.contains(s));
                        let k = choose|k: int| 0 <= k < v.len() && v[k] == s;
                        if !found && k >= p {
                            assert(w[k + 1] == s);
                        } else {
                            assert(w[k] == s);
                        }
                    }
                }
            }
        }
        i = i + 1;
    }
    assert(strs_view(failed@).take(failed@.len() as int) == strs_view(failed@));
    out
}

/// The GraphQL query for a forum group's events.
pub open spec fn forum_query_template() -> Seq<char> {
    "\n{ posts(input: {terms: {view: \"VIEW\", groupId: \"GROUP\", limit: 500}}) {\n    results { title startTime endTime location onlineEvent pageUrl\n              contents { plaintextDescription } rsvps } } }\n"@
}

/// The query for one view (`upcomingEvents` or `pastEvents`) of a group's
/// events.
pub open spec fn spec_forum_query(view: Seq<char>, group_id: Seq<char>) -> Seq<char> {
    replaced(replaced(forum_query_template(), "VIEW"@, view), "GROUP"@, group_id)
}

pub fn forum_query(view: &str, group_id: &str) -> (r: String)
    ensures
        r@ == spec_forum_query(view@, group_id@),
{
    proof {
        reveal_strlit("VIEW");
        reveal_strlit("GROUP");
    }
    let q = chars_of("\n{ posts(input: {terms: {view: \"VIEW\", groupId: \"GROUP\", limit: 500}}) {\n    results { title startTime endTime location onlineEvent pageUrl\n              contents { plaintextDescription } rsvps } } }\n");
    string_of(&replace(&replace(&q, "VIEW", view), "GROUP", group_id))
}

// Times the calendar works with

/// The events whose times the calendar works with, in order.
pub open spec fn valid_events(es: Seq<EventModel>) -> Seq<EventModel>
    decreases es.len(),
{
    if es.len() == 0 {
        seq![]
    } else {
        valid_events(es.drop_last()) + if es.last().wf() { seq![es.last()] } else { seq![] }
    }
}

/// Leaves out the events with a time beyond some 250,000 years of 1970,
/// which no source has any business sending.
pub fn keep_valid(events: Vec<Event>) -> (r: Vec<Event>)
    ensures
        all_wf(r@),
        event_views(r@) == valid_events(event_views(events@)),
{
    let ghost es = event_views(events@);
    let mut events = events;
    let mut kept: Vec<Event> = Vec::new();
    let mut rev: Vec<Event> = Vec::new();
    while events.len() > 0
        invariant
            es == event_views(events@) + event_views(rev@).reverse(),
            es.len() == events@.len() + rev@.len(),
        decreases events@.len(),
    {
        let ghost before = events@;
        let e = events.pop().unwrap();
        assert(before == events@.push(e));
        let ghost r0 = rev@;
        rev.push(e);
        assert(event_views(before) =~= event_views(events@).push(e@));
        assert(event_views(rev@) =~= event_views(r0).push(e@));
        assert(event_views(rev@).reverse() =~= seq![e@] + event_views(r0).reverse());
        assert(es =~= event_views(events@) + event_views(rev@).reverse());
    }
    assert(es =~= event_views(rev@).reverse());
    let total = rev.len();
    let ghost rv = event_views(rev@);
    let mut i: usize = 0;
    while rev.len() > 0
        invariant
            rv.len() == total,
            rv.reverse() == es,
            rev@.len() + i == rv.len(),
            event_views(rev@) == rv.take(rev@.len() as int),
            all_wf(kept@),
            event_views(kept@) == valid_events(es.take(i as int)),
        decreases rev@.len(),
    {
        let ghost before = rev@;
        let e = rev.pop().unwrap();
        assert(rv[rev@.len() as int] == e@) by {
            assert(event_views(before)[rev@.len() as int] == e@);
        }
        assert(es[i as int] == e@) by {
            assert(rv.reverse()[i as int] == rv[rv.len() - 1 - i]);
        }
        assert(es.take(i + 1).drop_last() == es.take(i as int));
        let ghost k0 = event_views(kept@);
        let ok = e.start >= -crate::time::TIME_LIMIT && e.start <= crate::time::TIME_LIMIT && match e.end {
            Some(t) => t >= -crate::time::TIME_LIMIT && t <= crate::time::TIME_LIMIT,
            None => true,
        };
        if ok {
            kept.push(e);
            assert(event_views(kept@) =~= k0.push(es[i as int]));
        }
        assert(event_views(rev@) =~= rv.take(rev@.len() as int));
        i = i + 1;
    }
    assert(es.take(i as int) == es);
    kept
}

} // verus!
