//! The HTML pages: upcoming events, past events and statistics.

use vstd::prelude::*;
use crate::text::{chars_of, string_of, push_str, push_chars, is_ascii_alphanumeric, digit_char, digit};
use crate::time::{in_range, valid_time, munich, munich_local, day_of, day_number, format_local, spec_format_local};
use crate::event::{Event, EventModel, Came, spec_group_name, group_name, default_keys, default_groups, strs_view,
    combo_keys, combo_groups, group_table, groups, table_view};
use crate::ics::ref_models;
use crate::text::{join, join_from, views, decimal, push_decimal, eq_chars, eq_str, replaced, replace};
use crate::event::string_views;
use crate::stats::{spec_stats, spec_json_rows, stat_rows};
use crate::ics::{utc, spec_utc, description, spec_description};

verus! {

/// How `html_escape` writes one character.
pub open spec fn html_escape_char(c: char) -> Seq<char> {
    if c == '&' {
        seq!['&', 'a', 'm', 'p', ';']
    } else if c == '<' {
        seq!['&', 'l', 't', ';']
    } else if c == '>' {
        seq!['&', 'g', 't', ';']
    } else if c == '"' {
        seq!['&', 'q', 'u', 'o', 't', ';']
    } else if c == '\'' {
        seq!['&', '#', 'x', '2', '7', ';']
    } else {
        seq![c]
    }
}

/// `s` with every character written as `html_escape_char` writes it.
pub open spec fn html_escaped(s: Seq<char>) -> Seq<char>
    decreases s.len(),
{
    if s.len() == 0 {
        seq![]
    } else {
        html_escaped(s.drop_last()) + html_escape_char(s.last())
    }
}

/// Nothing `html_escape` writes can open or close a tag or an attribute:
/// no `<`, `>`, `"` or `'` is left.
pub proof fn law_escaped_text_has_no_markup(s: Seq<char>)
    ensures
        forall|i: int| 0 <= i < html_escaped(s).len() ==> {
            let c = #[trigger] html_escaped(s)[i];
            c != '<' && c != '>' && c != '"' && c != '\''
        },
    decreases s.len(),
{
    if s.len() > 0 {
        law_escaped_text_has_no_markup(s.drop_last());
        let a = html_escaped(s.drop_last());
        let b = html_escape_char(s.last());
        assert(html_escaped(s) == a + b);
        assert forall|i: int| 0 <= i < html_escaped(s).len() implies {
            let c = #[trigger] html_escaped(s)[i];
            c != '<' && c != '>' && c != '"' && c != '\''
        } by {
            if i < a.len() {
                assert(html_escaped(s)[i] == a[i]);
            } else {
                assert(html_escaped(s)[i] == b[i - a.len()]);
            }
        }
    }
}

/// Escaping works character by character: the escape of two texts one
/// after the other is their escapes one after the other.
pub proof fn law_escape_splits_over_concatenation(a: Seq<char>, b: Seq<char>)
    ensures
        html_escaped(a + b) == html_escaped(a) + html_escaped(b),
    decreases b.len(),
{
    if b.len() == 0 {
        assert(a + b =~= a);
        assert(html_escaped(a) + html_escaped(b) =~= html_escaped(a));
    } else {
        law_escape_splits_over_concatenation(a, b.drop_last());
        assert((a + b).drop_last() =~= a + b.drop_last());
        assert((a + b).last() == b.last());
        assert(html_escaped(a) + html_escaped(b) =~= html_escaped(a) + html_escaped(b.drop_last()) + html_escape_char(b.last()));
    }
}

/// The characters `html_escape` rewrites.
pub open spec fn markup_char(c: char) -> bool {
    c == '&' || c == '<' || c == '>' || c == '"' || c == '\''
}

proof fn lemma_escaped_len(s: Seq<char>)
    ensures
        html_escaped(s).len() >= s.len(),
        (exists|i: int| 0 <= i < s.len() && markup_char(#[trigger] s[i])) ==> html_escaped(s).len() > s.len(),
    decreases s.len(),
{
    if s.len() > 0 {
        lemma_escaped_len(s.drop_last());
        if exists|i: int| 0 <= i < s.len() && markup_char(#[trigger] s[i]) {
            let i = choose|i: int| 0 <= i < s.len() && markup_char(#[trigger] s[i]);
            if i < s.len() - 1 {
                assert(markup_char(s.drop_last()[i]));
            }
        }
    }
}

/// Escaping leaves a text as it is exactly when it has none of `&`, `<`,
/// `>`, `"` and `'`.
pub proof fn law_escape_leaves_plain_text_alone(s: Seq<char>)
    ensures
        html_escaped(s) == s <==> forall|i: int| 0 <= i < s.len() ==> !markup_char(#[trigger] s[i]),
    decreases s.len(),
{
    lemma_escaped_len(s);
    if s.len() > 0 {
        law_escape_leaves_plain_text_alone(s.drop_last());
        if forall|i: int| 0 <= i < s.len() ==> !markup_char(#[trigger] s[i]) {
            assert forall|i: int| 0 <= i < s.drop_last().len() implies !markup_char(#[trigger] s.drop_last()[i]) by {
                assert(s.drop_last()[i] == s[i]);
            }
            assert(!markup_char(s[s.len() - 1]));
            assert(html_escape_char(s.last()) =~= seq![s.last()]);
            assert(s =~= s.drop_last().push(s.last()));
            assert(html_escaped(s) =~= html_escaped(s.drop_last()) + seq![s.last()]);
            assert(html_escaped(s.drop_last()) == s.drop_last());
            assert(html_escaped(s) == s);
        } else {
            let i = choose|i: int| 0 <= i < s.len() && markup_char(#[trigger] s[i]);
            assert(exists|i: int| 0 <= i < s.len() && markup_char(#[trigger] s[i]));
            assert(html_escaped(s).len() > s.len());
            assert(html_escaped(s) != s);
        }
    } else {
        assert(html_escaped(s) =~= s);
    }
}

pub fn html_escape(s: &str) -> (r: String)
    ensures
        r@ == html_escaped(s@),
{
    let cs = chars_of(s);
    let mut out: Vec<char> = Vec::new();
    let mut i: usize = 0;
    while i < cs.len()
        invariant
            i <= cs@.len(),
            out@ == html_escaped(cs@.take(i as int)),
        decreases cs@.len() - i,
    {
        let c = cs[i];
        assert(cs@.take(i + 1).drop_last() == cs@.take(i as int));
        if c == '&' {
            out.push('&'); out.push('a'); out.push('m'); out.push('p'); out.push(';');
        } else if c == '<' {
            out.push('&'); out.push('l'); out.push('t'); out.push(';');
        } else if c == '>' {
            out.push('&'); out.push('g'); out.push('t'); out.push(';');
        } else if c == '"' {
            out.push('&'); out.push('q'); out.push('u'); out.push('o'); out.push('t'); out.push(';');
        } else if c == '\'' {
            out.push('&'); out.push('#'); out.push('x'); out.push('2'); out.push('7'); out.push(';');
        } else {
            out.push(c);
        }
        i = i + 1;
    }
    assert(cs@.take(cs@.len() as int) == cs@);
    string_of(&out)
}

/// Where the pages are served.
pub open spec fn base_url() -> Seq<char> {
    "https://rationality-munich.com/calendar"@
}

/// `BASE`: where the pages are served.
pub fn base() -> (r: &'static str)
    ensures
        r@ == base_url(),
{
    "https://rationality-munich.com/calendar"
}

// Percent-encoding

/// Characters a URL carries as they are.
pub open spec fn unreserved(c: char) -> bool {
    is_ascii_alphanumeric(c) || c == '-' || c == '_' || c == '.' || c == '~'
}

/// The UTF-8 encoding of a character.
pub open spec fn utf8_bytes(c: char) -> Seq<nat> {
    let u = (c as u32) as nat;
    if u < 0x80 {
        seq![u]
    } else if u < 0x800 {
        seq![0xC0 + u / 64, 0x80 + u % 64]
    } else if u < 0x10000 {
        seq![0xE0 + u / 4096, 0x80 + (u / 64) % 64, 0x80 + u % 64]
    } else {
        seq![0xF0 + u / 262144, 0x80 + (u / 4096) % 64, 0x80 + (u / 64) % 64, 0x80 + u % 64]
    }
}

/// An upper-case hexadecimal digit.
pub open spec fn hex_digit(d: nat) -> char {
    if d < 10 {
        digit_char(d)
    } else if d == 10 {
        'A'
    } else if d == 11 {
        'B'
    } else if d == 12 {
        'C'
    } else if d == 13 {
        'D'
    } else if d == 14 {
        'E'
    } else {
        'F'
    }
}

/// Bytes as `%XX` each.
pub open spec fn pct_bytes(bs: Seq<nat>) -> Seq<char>
    decreases bs.len(),
{
    if bs.len() == 0 {
        seq![]
    } else {
        seq!['%', hex_digit(bs[0] / 16), hex_digit(bs[0] % 16)] + pct_bytes(bs.drop_first())
    }
}

/// How a character goes into a URL component.
pub open spec fn pct_char(c: char) -> Seq<char> {
    if unreserved(c) {
        seq![c]
    } else {
        pct_bytes(utf8_bytes(c))
    }
}

/// A URL component: every byte but the unreserved ones as `%XX`.
pub open spec fn percent_encoded(s: Seq<char>) -> Seq<char>
    decreases s.len(),
{
    if s.len() == 0 {
        seq![]
    } else {
        percent_encoded(s.drop_last()) + pct_char(s.last())
    }
}

fn hex(d: u32) -> (c: char)
    requires
        d < 16,
    ensures
        c == hex_digit(d as nat),
{
    if d < 10 {
        digit(d as u64)
    } else if d == 10 {
        'A'
    } else if d == 11 {
        'B'
    } else if d == 12 {
        'C'
    } else if d == 13 {
        'D'
    } else if d == 14 {
        'E'
    } else {
        'F'
    }
}

fn push_pct(out: &mut Vec<char>, b: u32)
    requires
        b < 256,
    ensures
        final(out)@ == old(out)@ + seq!['%', hex_digit(b as nat / 16), hex_digit(b as nat % 16)],
{
    out.push('%');
    out.push(hex(b / 16));
    out.push(hex(b % 16));
}

fn push_pct_char(out: &mut Vec<char>, c: char)
    ensures
        final(out)@ == old(out)@ + pct_char(c),
{
    let ghost before = out@;
    let u = c as u32;
    if ('a' <= c && c <= 'z') || ('A' <= c && c <= 'Z') || ('0' <= c && c <= '9') || c == '-'
        || c == '_' || c == '.' || c == '~' {
        out.push(c);
        return;
    }
    let ghost bs = utf8_bytes(c);
    if u < 0x80 {
        push_pct(out, u);
        assert(bs =~= seq![u as nat]);
    } else if u < 0x800 {
        push_pct(out, 0xC0 + u / 64);
        push_pct(out, 0x80 + u % 64);
        assert(bs =~= seq![(0xC0 + u / 64) as nat, (0x80 + u % 64) as nat]);
    } else if u < 0x10000 {
        push_pct(out, 0xE0 + u / 4096);
        push_pct(out, 0x80 + (u / 64) % 64);
        push_pct(out, 0x80 + u % 64);
        assert(bs =~= seq![(0xE0 + u / 4096) as nat, (0x80 + (u / 64) % 64) as nat, (0x80 + u % 64) as nat]);
    } else {
        assert(u < 0x110000);
        push_pct(out, 0xF0 + u / 262144);
        push_pct(out, 0x80 + (u / 4096) % 64);
        push_pct(out, 0x80 + (u / 64) % 64);
        push_pct(out, 0x80 + u % 64);
        assert(bs =~= seq![(0xF0 + u / 262144) as nat, (0x80 + (u / 4096) % 64) as nat,
            (0x80 + (u / 64) % 64) as nat, (0x80 + u % 64) as nat]);
    }
    assert(out@ =~= before + pct_bytes(bs)) by {
        reveal_with_fuel(pct_bytes, 5);
    }
}

pub fn percent_encode(s: &str) -> (r: String)
    ensures
        r@ == percent_encoded(s@),
{
    let cs = chars_of(s);
    let mut out: Vec<char> = Vec::new();
    let mut i: usize = 0;
    while i < cs.len()
        invariant
            i <= cs@.len(),
            out@ == percent_encoded(cs@.take(i as int)),
        decreases cs@.len() - i,
    {
        assert(cs@.take(i + 1).drop_last() == cs@.take(i as int));
        push_pct_char(&mut out, cs[i]);
        i = i + 1;
    }
    assert(cs@.take(cs@.len() as int) == cs@);
    string_of(&out)
}

// Events

/// When an event is, in Munich time: its start, and its end if known, with
/// the date again when it ends on another day.
pub open spec fn spec_when(e: EventModel) -> Seq<char> {
    let s = munich(e.start as int);
    spec_format_local(s, "%H:%M"@) + match e.end {
        Some(end) => {
            let l = munich(end as int);
            if day_of(l) == day_of(s) {
                spec_format_local(l, "–%H:%M"@)
            } else {
                spec_format_local(l, " – %a %-d %b %H:%M"@)
            }
        },
        None => seq![],
    }
}

pub fn when(e: &Event) -> (r: Vec<char>)
    requires
        e@.wf(),
    ensures
        r@ == spec_when(e@),
{
    let start = munich_local(e.start);
    let mut s = chars_of(format_local(start, "%H:%M").as_str());
    match e.end {
        Some(end) => {
            let l = munich_local(end);
            if day_number(l) == day_number(start) {
                push_str(&mut s, format_local(l, "–%H:%M").as_str());
            } else {
                push_str(&mut s, format_local(l, " – %a %-d %b %H:%M").as_str());
            }
        },
        None => {},
    }
    assert(s@ =~= spec_when(e@));
    s
}

/// Google Calendar's "new event" form, filled in. Nothing is sent to
/// Google unless the visitor clicks it.
pub open spec fn spec_google_link(e: EventModel) -> Seq<char> {
    "https://calendar.google.com/calendar/render?action=TEMPLATE&text="@ + percent_encoded(e.title)
        + "&dates="@ + spec_utc(e.start as int) + "/"@ + spec_utc(e.end_or_default())
        + "&details="@ + percent_encoded(spec_description(e, base_url() + "#"@ + e.id))
        + "&location="@ + percent_encoded(e.place())
}

pub fn google_link(e: &Event) -> (r: Vec<char>)
    requires
        e@.wf(),
    ensures
        r@ == spec_google_link(e@),
{
    let mut permalink = chars_of(base());
    push_str(&mut permalink, "#");
    push_str(&mut permalink, e.id.as_str());
    let d = description(e, string_of(&permalink).as_str());
    let mut out = chars_of("https://calendar.google.com/calendar/render?action=TEMPLATE&text=");
    push_str(&mut out, percent_encode(e.title.as_str()).as_str());
    push_str(&mut out, "&dates=");
    push_str(&mut out, utc(e.start).as_str());
    push_str(&mut out, "/");
    push_str(&mut out, utc(e.end_or_default()).as_str());
    push_str(&mut out, "&details=");
    push_str(&mut out, percent_encode(d.as_str()).as_str());
    push_str(&mut out, "&location=");
    push_str(&mut out, percent_encode(e.place()).as_str());
    assert(out@ =~= spec_google_link(e@));
    out
}

/// A calendar with a plus: download this event as an .ics file.
pub open spec fn icon_add_svg() -> Seq<char> {
    "<svg viewBox=\"0 0 24 24\" width=\"18\" height=\"18\" aria-hidden=\"true\" fill=\"none\" stroke=\"currentColor\" stroke-width=\"1.8\" stroke-linecap=\"round\" stroke-linejoin=\"round\"><rect x=\"3\" y=\"5\" width=\"18\" height=\"16\" rx=\"2\"/><path d=\"M3 10h18M8 3v4M16 3v4M12 13v5M9.5 15.5h5\"/></svg>"@
}

pub fn icon_add() -> (r: &'static str)
    ensures
        r@ == icon_add_svg(),
{
    "<svg viewBox=\"0 0 24 24\" width=\"18\" height=\"18\" aria-hidden=\"true\" fill=\"none\" stroke=\"currentColor\" stroke-width=\"1.8\" stroke-linecap=\"round\" stroke-linejoin=\"round\"><rect x=\"3\" y=\"5\" width=\"18\" height=\"16\" rx=\"2\"/><path d=\"M3 10h18M8 3v4M16 3v4M12 13v5M9.5 15.5h5\"/></svg>"
}

/// A calendar with a G, rather than Google's own logo.
pub open spec fn icon_google_svg() -> Seq<char> {
    "<svg viewBox=\"0 0 24 24\" width=\"18\" height=\"18\" aria-hidden=\"true\" fill=\"none\" stroke=\"currentColor\" stroke-width=\"1.8\" stroke-linecap=\"round\" stroke-linejoin=\"round\"><rect x=\"3\" y=\"5\" width=\"18\" height=\"16\" rx=\"2\"/><path d=\"M3 10h18M8 3v4M16 3v4\"/><text x=\"12\" y=\"19\" text-anchor=\"middle\" font-size=\"8.5\" font-weight=\"700\" font-family=\"system-ui, sans-serif\" fill=\"currentColor\" stroke=\"none\">G</text></svg>"@
}

pub fn icon_google() -> (r: &'static str)
    ensures
        r@ == icon_google_svg(),
{
    "<svg viewBox=\"0 0 24 24\" width=\"18\" height=\"18\" aria-hidden=\"true\" fill=\"none\" stroke=\"currentColor\" stroke-width=\"1.8\" stroke-linecap=\"round\" stroke-linejoin=\"round\"><rect x=\"3\" y=\"5\" width=\"18\" height=\"16\" rx=\"2\"/><path d=\"M3 10h18M8 3v4M16 3v4\"/><text x=\"12\" y=\"19\" text-anchor=\"middle\" font-size=\"8.5\" font-weight=\"700\" font-family=\"system-ui, sans-serif\" fill=\"currentColor\" stroke=\"none\">G</text></svg>"
}

/// The display names of group keys.
pub open spec fn group_names(gs: Seq<Seq<char>>) -> Seq<Seq<char>>
    decreases gs.len(),
{
    if gs.len() == 0 {
        seq![]
    } else {
        group_names(gs.drop_last()).push(spec_group_name(gs.last()))
    }
}

/// Each text escaped for HTML.
pub open spec fn all_escaped(ts: Seq<Seq<char>>) -> Seq<Seq<char>>
    decreases ts.len(),
{
    if ts.len() == 0 {
        seq![]
    } else {
        all_escaped(ts.drop_last()).push(html_escaped(ts.last()))
    }
}

/// What the line under an event's title says: when, where, who, and how
/// many came.
pub open spec fn meta_items(e: EventModel) -> Seq<Seq<char>> {
    seq![spec_when(e)] + (if e.place().len() > 0 { seq![e.place()] } else { seq![] })
        + seq![join(group_names(e.groups), " & "@)] + match e.attended {
            Some(c) => seq!["about "@ + decimal(c.n as nat) + " came"@],
            None => seq![],
        }
}

/// One link as a list item.
pub open spec fn link_item(l: (Seq<char>, Seq<char>)) -> Seq<char> {
    "<li><a href=\""@ + html_escaped(l.1) + "\">"@ + html_escaped(l.0) + " ↗</a></li>"@
}

pub open spec fn link_items(ls: Seq<(Seq<char>, Seq<char>)>) -> Seq<char>
    decreases ls.len(),
{
    if ls.len() == 0 {
        seq![]
    } else {
        link_items(ls.drop_last()) + link_item(ls.last())
    }
}

/// The "add to your calendar" buttons an upcoming event gets.
pub open spec fn add_buttons(e: EventModel) -> Seq<char> {
    "<div class=\"add\"><a href=\"/calendar/e/"@ + e.id + ".ics\" download=\""@ + e.id
        + ".ics\" title=\"Add to your calendar (.ics)\" aria-label=\"Add to your calendar\">"@
        + icon_add_svg() + "</a><a href=\""@ + html_escaped(spec_google_link(e))
        + "\" title=\"Add to Google Calendar\" aria-label=\"Add to Google Calendar\">"@
        + icon_google_svg() + "</a></div>"@
}

/// What the page shows before the visitor picks; the script agrees.
pub open spec fn hidden_attr(shown: bool) -> Seq<char> {
    if shown { seq![] } else { " hidden"@ }
}

/// One event as an `<article>`, named by its id so it can be linked to.
pub open spec fn spec_render_event(e: EventModel, upcoming: bool) -> Seq<char> {
    let s = munich(e.start as int);
    let meta = join(all_escaped(meta_items(e)), " · "@);
    let links = if e.chat {
        "<li><span class=\"chat\">In the group chat</span></li>"@
    } else {
        link_items(e.links)
    };
    let add = if upcoming { add_buttons(e) } else { seq![] };
    let text = if e.excerpt.len() == 0 {
        seq![]
    } else {
        "<p class=\"text\">"@ + html_escaped(e.excerpt) + "</p>"@
    };
    "<article id=\""@ + e.id + "\" data-groups=\""@ + join(e.groups, " "@) + "\""@
        + hidden_attr(e.in_any(default_keys()))
        + "><div class=\"date\"><div class=\"wd\">"@ + spec_format_local(s, "%a"@)
        + "</div><div class=\"d\">"@ + spec_format_local(s, "%-d"@)
        + "</div></div><div><div class=\"head\"><h3><a href=\"#"@ + e.id + "\">"@
        + html_escaped(e.title) + "</a></h3>"@ + add + "</div><p class=\"meta\">"@ + meta + "</p>"@
        + text + "<ul class=\"links\">"@ + links + "</ul></div></article>"@
}

fn escape_chars_html(s: &Vec<char>) -> (r: Vec<char>)
    ensures
        r@ == html_escaped(s@),
{
    chars_of(html_escape(string_of(s).as_str()).as_str())
}

/// The display names of an event's groups, joined by ` & `.
pub fn group_names_joined(e: &Event) -> (r: Vec<char>)
    ensures
        r@ == join(group_names(e@.groups), " & "@),
{
    let mut names: Vec<Vec<char>> = Vec::new();
    let ghost gs = e@.groups;
    let mut i: usize = 0;
    while i < e.groups.len()
        invariant
            i <= e.groups@.len(),
            gs == e@.groups,
            views(names@) == group_names(gs.take(i as int)),
        decreases e.groups@.len() - i,
    {
        assert(gs.take(i + 1).drop_last() == gs.take(i as int));
        assert(gs[i as int] == e.groups@[i as int]@);
        let ghost before = views(names@);
        names.push(chars_of(group_name(e.groups[i].as_str())));
        assert(views(names@) =~= before.push(spec_group_name(gs[i as int])));
        i = i + 1;
    }
    assert(gs.take(e.groups@.len() as int) == gs);
    assert(views(names@).skip(0) == views(names@));
    join_from(&names, 0, " & ")
}

fn meta_line(e: &Event) -> (r: Vec<char>)
    requires
        e@.wf(),
    ensures
        r@ == join(all_escaped(meta_items(e@)), " · "@),
{
    let mut items: Vec<Vec<char>> = Vec::new();
    items.push(when(e));
    let place = e.place();
    if !place.is_empty() {
        items.push(chars_of(place));
    }
    items.push(group_names_joined(e));
    match e.attended {
        Some(c) => {
            let mut about = chars_of("about ");
            push_decimal(&mut about, c.n as u64);
            push_str(&mut about, " came");
            items.push(about);
        },
        None => {},
    }
    assert(views(items@) =~= meta_items(e@));
    let ghost mi = views(items@);
    let mut escaped: Vec<Vec<char>> = Vec::new();
    let mut k: usize = 0;
    while k < items.len()
        invariant
            k <= items@.len(),
            mi == views(items@),
            views(escaped@) == all_escaped(mi.take(k as int)),
        decreases items@.len() - k,
    {
        assert(mi.take(k + 1).drop_last() == mi.take(k as int));
        assert(mi[k as int] == items@[k as int]@);
        let ghost before = views(escaped@);
        escaped.push(escape_chars_html(&items[k]));
        assert(views(escaped@) =~= before.push(html_escaped(mi[k as int])));
        k = k + 1;
    }
    assert(mi.take(items@.len() as int) == mi);
    assert(views(escaped@).skip(0) == views(escaped@));
    join_from(&escaped, 0, " · ")
}

fn link_list(e: &Event) -> (r: Vec<char>)
    ensures
        r@ == (if e@.chat {
            "<li><span class=\"chat\">In the group chat</span></li>"@
        } else {
            link_items(e@.links)
        }),
{
    if e.chat {
        return chars_of("<li><span class=\"chat\">In the group chat</span></li>");
    }
    let ghost ls = e@.links;
    let mut out: Vec<char> = Vec::new();
    let mut i: usize = 0;
    while i < e.links.len()
        invariant
            i <= e.links@.len(),
            ls == e@.links,
            out@ == link_items(ls.take(i as int)),
        decreases e.links@.len() - i,
    {
        assert(ls.take(i + 1).drop_last() == ls.take(i as int));
        assert(ls[i as int] == (e.links@[i as int].0@, e.links@[i as int].1@));
        let ghost before = out@;
        push_str(&mut out, "<li><a href=\"");
        push_str(&mut out, html_escape(e.links[i].1.as_str()).as_str());
        push_str(&mut out, "\">");
        push_str(&mut out, html_escape(e.links[i].0.as_str()).as_str());
        push_str(&mut out, " ↗</a></li>");
        assert(out@ =~= before + link_item(ls[i as int]));
        i = i + 1;
    }
    assert(ls.take(e.links@.len() as int) == ls);
    out
}

fn add_html(e: &Event) -> (r: Vec<char>)
    requires
        e@.wf(),
    ensures
        r@ == add_buttons(e@),
{
    let mut out = chars_of("<div class=\"add\"><a href=\"/calendar/e/");
    push_str(&mut out, e.id.as_str());
    push_str(&mut out, ".ics\" download=\"");
    push_str(&mut out, e.id.as_str());
    push_str(&mut out, ".ics\" title=\"Add to your calendar (.ics)\" aria-label=\"Add to your calendar\">");
    push_str(&mut out, icon_add());
    push_str(&mut out, "</a><a href=\"");
    push_chars(&mut out, &escape_chars_html(&google_link(e)));
    push_str(&mut out, "\" title=\"Add to Google Calendar\" aria-label=\"Add to Google Calendar\">");
    push_str(&mut out, icon_google());
    push_str(&mut out, "</a></div>");
    assert(out@ =~= add_buttons(e@));
    out
}

fn joined_groups(e: &Event) -> (r: Vec<char>)
    ensures
        r@ == join(e@.groups, " "@),
{
    let ghost gs = e@.groups;
    let mut groups: Vec<Vec<char>> = Vec::new();
    let mut i: usize = 0;
    while i < e.groups.len()
        invariant
            i <= e.groups@.len(),
            gs == e@.groups,
            views(groups@) == gs.take(i as int),
        decreases e.groups@.len() - i,
    {
        assert(gs.take(i + 1).drop_last() == gs.take(i as int));
        assert(gs[i as int] == e.groups@[i as int]@);
        let ghost before = views(groups@);
        groups.push(chars_of(e.groups[i].as_str()));
        assert(views(groups@) =~= before.push(gs[i as int]));
        i = i + 1;
    }
    assert(gs.take(e.groups@.len() as int) == gs);
    assert(views(groups@).skip(0) == views(groups@));
    join_from(&groups, 0, " ")
}

pub fn render_event(e: &Event, upcoming: bool) -> (r: Vec<char>)
    requires
        e@.wf(),
    ensures
        r@ == spec_render_event(e@, upcoming),
{
    let start = munich_local(e.start);
    let meta = meta_line(e);
    let links = link_list(e);
    let add: Vec<char> = if upcoming { add_html(e) } else { Vec::new() };
    let mut text: Vec<char> = Vec::new();
    if !e.excerpt.as_str().is_empty() {
        push_str(&mut text, "<p class=\"text\">");
        push_str(&mut text, html_escape(e.excerpt.as_str()).as_str());
        push_str(&mut text, "</p>");
    }
    let groups = joined_groups(e);
    let shown = e.in_any(&default_groups());
    let mut out = chars_of("<article id=\"");
    push_str(&mut out, e.id.as_str());
    push_str(&mut out, "\" data-groups=\"");
    push_chars(&mut out, &groups);
    push_str(&mut out, "\"");
    if !shown {
        push_str(&mut out, " hidden");
    }
    push_str(&mut out, "><div class=\"date\"><div class=\"wd\">");
    push_str(&mut out, format_local(start, "%a").as_str());
    push_str(&mut out, "</div><div class=\"d\">");
    push_str(&mut out, format_local(start, "%-d").as_str());
    push_str(&mut out, "</div></div><div><div class=\"head\"><h3><a href=\"#");
    push_str(&mut out, e.id.as_str());
    push_str(&mut out, "\">");
    push_str(&mut out, html_escape(e.title.as_str()).as_str());
    push_str(&mut out, "</a></h3>");
    push_chars(&mut out, &add);
    push_str(&mut out, "</div><p class=\"meta\">");
    push_chars(&mut out, &meta);
    push_str(&mut out, "</p>");
    push_chars(&mut out, &text);
    push_str(&mut out, "<ul class=\"links\">");
    push_chars(&mut out, &links);
    push_str(&mut out, "</ul></div></article>");
    assert(out@ =~= spec_render_event(e@, upcoming));
    out
}

// Listings

/// The month an event is listed under (`September 2026`), in Munich time.
pub open spec fn month_label(e: EventModel) -> Seq<char> {
    spec_format_local(munich(e.start as int), "%B %Y"@)
}

/// Runs of events in the same month, each with its month.
pub open spec fn month_groups(es: Seq<EventModel>) -> Seq<(Seq<char>, Seq<EventModel>)>
    decreases es.len(),
{
    if es.len() == 0 {
        seq![]
    } else {
        let g = month_groups(es.drop_last());
        let m = month_label(es.last());
        if g.len() > 0 && g.last().0 == m {
            g.update(g.len() - 1, (m, g.last().1.push(es.last())))
        } else {
            g.push((m, seq![es.last()]))
        }
    }
}

/// Whether any of the events is shown before the visitor picks.
pub open spec fn any_shown(es: Seq<EventModel>) -> bool {
    exists|i: int| 0 <= i < es.len() && (#[trigger] es[i]).in_any(default_keys())
}

/// The events rendered, one per line.
pub open spec fn rendered_events(es: Seq<EventModel>, upcoming: bool) -> Seq<char>
    decreases es.len(),
{
    if es.len() == 0 {
        seq![]
    } else {
        rendered_events(es.drop_last(), upcoming) + spec_render_event(es.last(), upcoming) + "\n"@
    }
}

/// A month's events as a `<section>`, hidden if none of them is shown.
pub open spec fn month_section(g: (Seq<char>, Seq<EventModel>), upcoming: bool) -> Seq<char> {
    "<section class=\"month\""@ + hidden_attr(any_shown(g.1)) + "><h2>"@ + g.0 + "</h2>\n"@
        + rendered_events(g.1, upcoming) + "</section>\n"@
}

pub open spec fn month_sections(gs: Seq<(Seq<char>, Seq<EventModel>)>, upcoming: bool) -> Seq<char>
    decreases gs.len(),
{
    if gs.len() == 0 {
        seq![]
    } else {
        month_sections(gs.drop_last(), upcoming) + month_section(gs.last(), upcoming)
    }
}

pub open spec fn spec_by_month(es: Seq<EventModel>, upcoming: bool) -> Seq<char> {
    month_sections(month_groups(es), upcoming)
}

pub open spec fn all_wf_refs(es: Seq<&Event>) -> bool {
    forall|i: int| 0 <= i < es.len() ==> (#[trigger] es[i])@.wf()
}

pub open spec fn month_views<'a>(ms: Seq<(Vec<char>, Vec<&'a Event>)>) -> Seq<(Seq<char>, Seq<EventModel>)> {
    ms.map_values(|m: (Vec<char>, Vec<&'a Event>)| (m.0@, ref_models(m.1@)))
}

fn month_of(e: &Event) -> (r: Vec<char>)
    requires
        e@.wf(),
    ensures
        r@ == month_label(e@),
{
    chars_of(format_local(munich_local(e.start), "%B %Y").as_str())
}

fn section(month: &Vec<char>, list: &Vec<&Event>, upcoming: bool) -> (r: Vec<char>)
    requires
        all_wf_refs(list@),
    ensures
        r@ == month_section((month@, ref_models(list@)), upcoming),
{
    let ghost es = ref_models(list@);
    let mut shown = false;
    let mut body: Vec<char> = Vec::new();
    let dg = default_groups();
    let mut i: usize = 0;
    while i < list.len()
        invariant
            i <= list@.len(),
            es == ref_models(list@),
            all_wf_refs(list@),
            strs_view(dg@) == default_keys(),
            shown == any_shown(es.take(i as int)),
            body@ == rendered_events(es.take(i as int), upcoming),
        decreases list@.len() - i,
    {
        let e = list[i];
        assert(es.take(i + 1).drop_last() == es.take(i as int));
        assert(es[i as int] == e@);
        if e.in_any(&dg) {
            shown = true;
        }
        assert(shown == any_shown(es.take(i + 1))) by {
            if e@.in_any(default_keys()) {
                assert(es.take(i + 1)[i as int] == e@);
            }
            if any_shown(es.take(i + 1)) && !e@.in_any(default_keys()) {
                let k = choose|k: int| 0 <= k < i + 1 && (#[trigger] es.take(i + 1)[k]).in_any(default_keys());
                assert(es.take(i as int)[k] == es.take(i + 1)[k]);
            }
        }
        push_chars(&mut body, &render_event(e, upcoming));
        push_str(&mut body, "\n");
        i = i + 1;
    }
    assert(es.take(list@.len() as int) == es);
    let mut out = chars_of("<section class=\"month\"");
    if !shown {
        push_str(&mut out, " hidden");
    }
    push_str(&mut out, "><h2>");
    push_chars(&mut out, month);
    push_str(&mut out, "</h2>\n");
    push_chars(&mut out, &body);
    push_str(&mut out, "</section>\n");
    assert(out@ =~= month_section((month@, es), upcoming));
    out
}

pub fn by_month(events: &[&Event], upcoming: bool) -> (r: Vec<char>)
    requires
        all_wf_refs(events@),
    ensures
        r@ == spec_by_month(ref_models(events@), upcoming),
{
    let ghost es = ref_models(events@);
    let mut months: Vec<(Vec<char>, Vec<&Event>)> = Vec::new();
    let mut i: usize = 0;
    while i < events.len()
        invariant
            i <= events@.len(),
            es == ref_models(events@),
            all_wf_refs(events@),
            month_views(months@) == month_groups(es.take(i as int)),
            forall|k: int| 0 <= k < months@.len() ==> all_wf_refs((#[trigger] months@[k]).1@),
        decreases events@.len() - i,
    {
        let e = events[i];
        assert(es.take(i + 1).drop_last() == es.take(i as int));
        assert(es[i as int] == e@);
        let this = month_of(e);
        let ghost g = month_views(months@);
        let n = months.len();
        if n > 0 && eq_chars(&months[n - 1].0, &this) {
            let ghost last = months@[n - 1];
            let (m, mut list) = months.pop().unwrap();
            assert(m == last.0 && list == last.1);
            assert(g.last() == (m@, ref_models(list@)));
            let ghost old_list = list@;
            list.push(e);
            assert(ref_models(list@) =~= ref_models(old_list).push(e@));
            months.push((m, list));
            assert(month_views(months@) =~= g.update(g.len() - 1, (month_label(e@), g.last().1.push(e@))));
            assert forall|k: int| 0 <= k < months@.len() implies all_wf_refs((#[trigger] months@[k]).1@) by {
                if k == months@.len() - 1 {
                    assert forall|j: int| 0 <= j < months@[k].1@.len() implies (#[trigger] months@[k].1@[j])@.wf() by {
                        if j < old_list.len() {
                            assert(months@[k].1@[j] == old_list[j]);
                        }
                    }
                }
            }
        } else {
            let mut list: Vec<&Event> = Vec::new();
            list.push(e);
            assert(ref_models(list@) =~= seq![e@]);
            months.push((this, list));
            assert(month_views(months@) =~= g.push((month_label(e@), seq![e@])));
        }
        i = i + 1;
    }
    assert(es.take(events@.len() as int) == es);
    let ghost gv = month_views(months@);
    let mut out: Vec<char> = Vec::new();
    let mut k: usize = 0;
    while k < months.len()
        invariant
            k <= months@.len(),
            gv == month_views(months@),
            forall|j: int| 0 <= j < months@.len() ==> all_wf_refs((#[trigger] months@[j]).1@),
            out@ == month_sections(gv.take(k as int), upcoming),
        decreases months@.len() - k,
    {
        assert(gv.take(k + 1).drop_last() == gv.take(k as int));
        assert(gv[k as int] == (months@[k as int].0@, ref_models(months@[k as int].1@)));
        let sec = section(&months[k].0, &months[k].1, upcoming);
        push_chars(&mut out, &sec);
        k = k + 1;
    }
    assert(gv.take(months@.len() as int) == gv);
    out
}

/// How many of the events one group holds.
pub open spec fn count_in(es: Seq<EventModel>, key: Seq<char>) -> nat
    decreases es.len(),
{
    if es.len() == 0 {
        0
    } else {
        count_in(es.drop_last(), key) + if es.last().in_any(seq![key]) { 1nat } else { 0nat }
    }
}

/// A group's checkbox, with how many of the events it holds.
pub open spec fn chip(es: Seq<EventModel>, key: Seq<char>, name: Seq<char>) -> Seq<char> {
    "<label><input type=\"checkbox\" value=\""@ + key + "\" data-name=\""@ + html_escaped(name) + "\""@
        + (if default_keys().contains(key) { " checked"@ } else { seq![] }) + "> "@
        + html_escaped(name) + " <span class=\"n\">"@ + decimal(count_in(es, key)) + "</span></label>"@
}

/// The checkboxes of the groups with a feed for every combination of them
/// (`combo`), or of the others.
pub open spec fn chips(es: Seq<EventModel>, rows: Seq<(Seq<char>, Seq<char>)>, combo: bool) -> Seq<char>
    decreases rows.len(),
{
    if rows.len() == 0 {
        seq![]
    } else {
        chips(es, rows.drop_last(), combo) + if combo_keys().contains(rows.last().0) == combo {
            chip(es, rows.last().0, rows.last().1)
        } else {
            seq![]
        }
    }
}

/// The group filters; the script shows them.
pub open spec fn spec_filters(es: Seq<EventModel>) -> Seq<char> {
    "<div class=\"filters\" id=\"filters\" role=\"group\" aria-label=\"Groups to show\" data-combo=\""@
        + join(combo_keys(), " "@) + "\" hidden><div class=\"row\">"@ + chips(es, group_table(), true)
        + "</div><div class=\"row more\"><span class=\"label\">More groups:</span>"@
        + chips(es, group_table(), false) + "</div></div>"@
}

pub fn count_group(events: &[&Event], key: &str) -> (r: usize)
    ensures
        r == count_in(ref_models(events@), key@),
{
    let ghost es = ref_models(events@);
    let keys: Vec<&str> = vec![key];
    assert(strs_view(keys@) =~= seq![key@]);
    let mut n: usize = 0;
    let mut i: usize = 0;
    while i < events.len()
        invariant
            i <= events@.len(),
            es == ref_models(events@),
            strs_view(keys@) == seq![key@],
            n == count_in(es.take(i as int), key@),
            n <= i,
        decreases events@.len() - i,
    {
        assert(es.take(i + 1).drop_last() == es.take(i as int));
        assert(es[i as int] == events@[i as int]@);
        if events[i].in_any(&keys) {
            n = n + 1;
        }
        i = i + 1;
    }
    assert(es.take(events@.len() as int) == es);
    n
}

pub fn contains_key(keys: &Vec<&str>, key: &str) -> (r: bool)
    ensures
        r == strs_view(keys@).contains(key@),
{
    let mut i: usize = 0;
    while i < keys.len()
        invariant
            i <= keys@.len(),
            forall|j: int| 0 <= j < i ==> strs_view(keys@)[j] != key@,
        decreases keys@.len() - i,
    {
        if eq_str(keys[i], key) {
            assert(strs_view(keys@)[i as int] == key@);
            return true;
        }
        i = i + 1;
    }
    false
}

fn group_chips(events: &[&Event], combo: bool) -> (r: Vec<char>)
    ensures
        r@ == chips(ref_models(events@), group_table(), combo),
{
    let rows = groups();
    let cg = combo_groups();
    let dg = default_groups();
    let ghost es = ref_models(events@);
    let mut out: Vec<char> = Vec::new();
    let mut i: usize = 0;
    while i < rows.len()
        invariant
            i <= rows@.len(),
            table_view(rows@) == group_table(),
            strs_view(cg@) == combo_keys(),
            strs_view(dg@) == default_keys(),
            es == ref_models(events@),
            out@ == chips(es, group_table().take(i as int), combo),
        decreases rows@.len() - i,
    {
        let (key, name) = rows[i];
        assert(group_table()[i as int] == (key@, name@));
        assert(group_table().take(i + 1).drop_last() == group_table().take(i as int));
        if contains_key(&cg, key) == combo {
            let n = count_group(events, key);
            let esc = html_escape(name);
            let ghost before = out@;
            push_str(&mut out, "<label><input type=\"checkbox\" value=\"");
            push_str(&mut out, key);
            push_str(&mut out, "\" data-name=\"");
            push_str(&mut out, esc.as_str());
            push_str(&mut out, "\"");
            if contains_key(&dg, key) {
                push_str(&mut out, " checked");
            }
            push_str(&mut out, "> ");
            push_str(&mut out, esc.as_str());
            push_str(&mut out, " <span class=\"n\">");
            push_decimal(&mut out, n as u64);
            push_str(&mut out, "</span></label>");
            assert(out@ =~= before + chip(es, key@, name@));
        }
        i = i + 1;
    }
    assert(group_table().take(rows@.len() as int) == group_table());
    out
}

pub fn filters(events: &[&Event]) -> (r: Vec<char>)
    ensures
        r@ == spec_filters(ref_models(events@)),
{
    let cg = combo_groups();
    let mut keys: Vec<Vec<char>> = Vec::new();
    let mut i: usize = 0;
    while i < cg.len()
        invariant
            i <= cg@.len(),
            strs_view(cg@) == combo_keys(),
            views(keys@) == combo_keys().take(i as int),
        decreases cg@.len() - i,
    {
        let ghost before = views(keys@);
        assert(combo_keys()[i as int] == strs_view(cg@)[i as int]);
        assert(cg@.len() == strs_view(cg@).len());
        assert(combo_keys().take(i + 1) =~= combo_keys().take(i as int).push(combo_keys()[i as int]));
        keys.push(chars_of(cg[i]));
        assert(views(keys@) =~= combo_keys().take(i + 1));
        i = i + 1;
    }
    assert(combo_keys().take(cg@.len() as int) == combo_keys());
    assert(views(keys@).skip(0) == views(keys@));
    let mut out = chars_of("<div class=\"filters\" id=\"filters\" role=\"group\" aria-label=\"Groups to show\" data-combo=\"");
    push_chars(&mut out, &join_from(&keys, 0, " "));
    push_str(&mut out, "\" hidden><div class=\"row\">");
    push_chars(&mut out, &group_chips(events, true));
    push_str(&mut out, "</div><div class=\"row more\"><span class=\"label\">More groups:</span>");
    push_chars(&mut out, &group_chips(events, false));
    push_str(&mut out, "</div></div>");
    assert(out@ =~= spec_filters(ref_models(events@)));
    out
}

/// Where to subscribe to the default groups' feed; the script rewrites it
/// for the groups picked.
pub open spec fn spec_subscribe() -> Seq<char> {
    let feed = "rationality-munich.com/calendar/feeds/"@ + join(default_keys(), "+"@) + ".ics"@;
    "<p class=\"subscribe\" id=\"subscribe\"><a href=\"webcal://"@ + feed
        + "\">Subscribe in your calendar app</a>, or add <code>https://"@ + feed + "</code> by URL.</p>"@
}

pub fn subscribe() -> (r: Vec<char>)
    ensures
        r@ == spec_subscribe(),
{
    let dg = default_groups();
    assert(dg@.len() == strs_view(dg@).len());
    assert(strs_view(dg@)[0] == dg@[0]@ && strs_view(dg@)[1] == dg@[1]@);
    let mut keys: Vec<Vec<char>> = Vec::new();
    keys.push(chars_of(dg[0]));
    keys.push(chars_of(dg[1]));
    assert(views(keys@) =~= default_keys());
    assert(views(keys@).skip(0) == views(keys@));
    let mut feed = chars_of("rationality-munich.com/calendar/feeds/");
    push_chars(&mut feed, &join_from(&keys, 0, "+"));
    push_str(&mut feed, ".ics");
    let mut out = chars_of("<p class=\"subscribe\" id=\"subscribe\"><a href=\"webcal://");
    push_chars(&mut out, &feed);
    push_str(&mut out, "\">Subscribe in your calendar app</a>, or add <code>https://");
    push_chars(&mut out, &feed);
    push_str(&mut out, "</code> by URL.</p>");
    assert(out@ =~= spec_subscribe());
    out
}

// Pages

/// Which page.
#[derive(Clone, Copy, Debug, PartialEq, Eq, Structural)]
pub enum Kind {
    Upcoming,
    Past,
    Stats,
}

/// What a page shows: its events (upcoming ones soonest first, past ones
/// newest first), the sources that could not be reached, and when it was
/// made.
pub struct Page<'a> {
    pub kind: Kind,
    pub events: Vec<&'a Event>,
    pub stale: &'a [String],
    pub now: i64,
}

pub open spec fn past_link() -> Seq<char> {
    "<a href=\"/calendar/past/\" data-keep-filter>Past events</a>"@
}

pub open spec fn upcoming_link() -> Seq<char> {
    "<a href=\"/calendar\" data-keep-filter>Upcoming</a>"@
}

pub open spec fn stats_link() -> Seq<char> {
    "<a href=\"/calendar/stats/\" data-keep-filter>Statistics</a>"@
}

/// A page's title, heading, lede, links to the other pages, and key.
pub open spec fn page_texts(k: Kind) -> (Seq<char>, Seq<char>, Seq<char>, Seq<char>, Seq<char>) {
    match k {
        Kind::Upcoming => (
            "Calendar · Rationality Munich"@,
            "Upcoming events"@,
            "Events from the rationality and EA groups in Munich. More groups are one click away."@,
            past_link() + " · "@ + stats_link(),
            "upcoming"@,
        ),
        Kind::Past => (
            "Past events · Rationality Munich"@,
            "Past events"@,
            "Newest first."@,
            upcoming_link() + " · "@ + stats_link(),
            "past"@,
        ),
        Kind::Stats => (
            "Statistics · Rationality Munich"@,
            "Statistics"@,
            "How often the groups meet."@,
            upcoming_link() + " · "@ + past_link(),
            "stats"@,
        ),
    }
}

/// The main part of a page.
pub open spec fn page_body(k: Kind, es: Seq<EventModel>) -> Seq<char> {
    match k {
        Kind::Stats => spec_stats(es, spec_json_rows(stat_rows(es))),
        _ => if es.len() == 0 {
            "<p class=\"empty\">"@ + (if k == Kind::Upcoming {
                "No upcoming events announced right now."@
            } else {
                "Nothing here yet."@
            }) + "</p>"@
        } else {
            spec_by_month(es, k == Kind::Upcoming)
        },
    }
}

/// Which sources could not be reached this time.
pub open spec fn stale_note(stale: Seq<Seq<char>>) -> Seq<char> {
    if stale.len() == 0 {
        seq![]
    } else {
        " Couldn't reach "@ + join(stale, ", "@) + " this time, so their events may be out of date."@
    }
}

pub open spec fn canonical(k: Kind) -> Seq<char> {
    match k {
        Kind::Upcoming => base_url(),
        Kind::Past => base_url() + "/past/"@,
        Kind::Stats => base_url() + "/stats/"@,
    }
}

/// A page: `template` with each placeholder filled in, in turn.
#[verifier::opaque]
pub open spec fn spec_page(k: Kind, es: Seq<EventModel>, stale: Seq<Seq<char>>, now: i64, template: Seq<char>) -> Seq<char> {
    let t = page_texts(k);
    let s1 = replaced(template, "{{title}}"@, t.0);
    let s2 = replaced(s1, "{{heading}}"@, t.1);
    let s3 = replaced(s2, "{{lede}}"@, t.2);
    let s4 = replaced(s3, "{{nav}}"@, "<span>"@ + t.3 + "</span>"@);
    let s5 = replaced(s4, "{{page}}"@, t.4);
    let s6 = replaced(s5, "{{canonical}}"@, canonical(k));
    let s7 = replaced(s6, "{{filters}}"@, spec_filters(es));
    let s8 = replaced(s7, "{{subscribe}}"@, if k != Kind::Stats { spec_subscribe() } else { seq![] });
    let s9 = replaced(s8, "{{body}}"@, page_body(k, es));
    let s10 = replaced(s9, "{{updated}}"@, spec_format_local(munich(now as int), "%-d %b %Y, %H:%M"@));
    replaced(s10, "{{stale}}"@, html_escaped(stale_note(stale)))
}

fn texts(k: Kind) -> (r: (&'static str, &'static str, &'static str, Vec<char>, &'static str))
    ensures
        (r.0@, r.1@, r.2@, r.3@, r.4@) == page_texts(k),
{
    let past = "<a href=\"/calendar/past/\" data-keep-filter>Past events</a>";
    let upcoming = "<a href=\"/calendar\" data-keep-filter>Upcoming</a>";
    let stats = "<a href=\"/calendar/stats/\" data-keep-filter>Statistics</a>";
    match k {
        Kind::Upcoming => {
            let mut nav = chars_of(past);
            push_str(&mut nav, " · ");
            push_str(&mut nav, stats);
            ("Calendar · Rationality Munich", "Upcoming events",
                "Events from the rationality and EA groups in Munich. More groups are one click away.",
                nav, "upcoming")
        },
        Kind::Past => {
            let mut nav = chars_of(upcoming);
            push_str(&mut nav, " · ");
            push_str(&mut nav, stats);
            ("Past events · Rationality Munich", "Past events", "Newest first.", nav, "past")
        },
        Kind::Stats => {
            let mut nav = chars_of(upcoming);
            push_str(&mut nav, " · ");
            push_str(&mut nav, past);
            ("Statistics · Rationality Munich", "Statistics", "How often the groups meet.", nav, "stats")
        },
    }
}

fn body(p: &Page) -> (r: Vec<char>)
    requires
        all_wf_refs(p.events@),
        p.events@.len() * 100 <= usize::MAX,
    ensures
        r@ == page_body(p.kind, ref_models(p.events@)),
{
    match p.kind {
        Kind::Stats => chars_of(crate::stats::render(p.events.as_slice()).as_str()),
        _ => if p.events.len() == 0 {
            let mut out = chars_of("<p class=\"empty\">");
            if p.kind == Kind::Upcoming {
                push_str(&mut out, "No upcoming events announced right now.");
            } else {
                push_str(&mut out, "Nothing here yet.");
            }
            push_str(&mut out, "</p>");
            out
        } else {
            by_month(p.events.as_slice(), p.kind == Kind::Upcoming)
        },
    }
}

fn note(stale: &[String]) -> (r: Vec<char>)
    ensures
        r@ == stale_note(string_views(stale@)),
{
    if stale.len() == 0 {
        return Vec::new();
    }
    let ghost sv = string_views(stale@);
    let mut names: Vec<Vec<char>> = Vec::new();
    let mut i: usize = 0;
    while i < stale.len()
        invariant
            i <= stale@.len(),
            sv == string_views(stale@),
            views(names@) == sv.take(i as int),
        decreases stale@.len() - i,
    {
        assert(sv[i as int] == stale@[i as int]@);
        assert(sv.take(i + 1) == sv.take(i as int).push(sv[i as int]));
        let ghost before = views(names@);
        names.push(chars_of(stale[i].as_str()));
        assert(views(names@) =~= before.push(sv[i as int]));
        i = i + 1;
    }
    assert(sv.take(stale@.len() as int) == sv);
    assert(views(names@).skip(0) == views(names@));
    let mut out = chars_of(" Couldn't reach ");
    push_chars(&mut out, &join_from(&names, 0, ", "));
    push_str(&mut out, " this time, so their events may be out of date.");
    out
}

/// The page `p` is, filled into `template`.
pub fn page(p: &Page, template: &str) -> (r: String)
    requires
        all_wf_refs(p.events@),
        p.events@.len() * 100 <= usize::MAX,
        valid_time(p.now as int),
    ensures
        r@ == spec_page(p.kind, ref_models(p.events@), string_views(p.stale@), p.now, template@),
{
    let t = texts(p.kind);
    let mut nav = chars_of("<span>");
    push_chars(&mut nav, &t.3);
    push_str(&mut nav, "</span>");
    let mut canon = chars_of(base());
    match p.kind {
        Kind::Upcoming => {},
        Kind::Past => push_str(&mut canon, "/past/"),
        Kind::Stats => push_str(&mut canon, "/stats/"),
    }
    let subscription: Vec<char> = if p.kind != Kind::Stats { subscribe() } else { Vec::new() };
    let main = body(p);
    let updated = format_local(munich_local(p.now), "%-d %b %Y, %H:%M");
    let stale = escape_chars_html(&note(p.stale));
    proof {
        reveal_strlit("{{title}}");
        reveal_strlit("{{heading}}");
        reveal_strlit("{{lede}}");
        reveal_strlit("{{nav}}");
        reveal_strlit("{{page}}");
        reveal_strlit("{{canonical}}");
        reveal_strlit("{{filters}}");
        reveal_strlit("{{subscribe}}");
        reveal_strlit("{{body}}");
        reveal_strlit("{{updated}}");
        reveal_strlit("{{stale}}");
    }
    let s = chars_of(template);
    let s = replace(&s, "{{title}}", t.0);
    let s = replace(&s, "{{heading}}", t.1);
    let s = replace(&s, "{{lede}}", t.2);
    let s = replace(&s, "{{nav}}", string_of(&nav).as_str());
    let s = replace(&s, "{{page}}", t.4);
    let s = replace(&s, "{{canonical}}", string_of(&canon).as_str());
    let s = replace(&s, "{{filters}}", string_of(&filters(p.events.as_slice())).as_str());
    let s = replace(&s, "{{subscribe}}", string_of(&subscription).as_str());
    let s = replace(&s, "{{body}}", string_of(&main).as_str());
    let s = replace(&s, "{{updated}}", updated.as_str());
    let s = replace(&s, "{{stale}}", string_of(&stale).as_str());
    proof {
        reveal(spec_page);
    }
    string_of(&s)
}

} // verus!
