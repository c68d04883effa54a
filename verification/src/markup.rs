//! Reading escaped HTML back: what `html_escape` writes decodes to the
//! text it was given.

use vstd::prelude::*;
use crate::render::{html_escaped, html_escape_char, markup_char};

verus! {

/// `s` ends with `t`.
pub open spec fn ends_with_seq(s: Seq<char>, t: Seq<char>) -> bool {
    t.len() <= s.len() && s.subrange(s.len() - t.len(), s.len() as int) == t
}

pub open spec fn entity_amp() -> Seq<char> { seq!['&', 'a', 'm', 'p', ';'] }
pub open spec fn entity_lt() -> Seq<char> { seq!['&', 'l', 't', ';'] }
pub open spec fn entity_gt() -> Seq<char> { seq!['&', 'g', 't', ';'] }
pub open spec fn entity_quot() -> Seq<char> { seq!['&', 'q', 'u', 'o', 't', ';'] }
pub open spec fn entity_apos() -> Seq<char> { seq!['&', '#', 'x', '2', '7', ';'] }

/// Reading escaped text back: each of the five entities `html_escape`
/// writes becomes its character again, read from the end.
pub open spec fn html_unescaped(s: Seq<char>) -> Seq<char>
    decreases s.len(),
{
    if s.len() == 0 {
        seq![]
    } else if ends_with_seq(s, entity_amp()) {
        html_unescaped(s.take(s.len() - 5)).push('&')
    } else if ends_with_seq(s, entity_lt()) {
        html_unescaped(s.take(s.len() - 4)).push('<')
    } else if ends_with_seq(s, entity_gt()) {
        html_unescaped(s.take(s.len() - 4)).push('>')
    } else if ends_with_seq(s, entity_quot()) {
        html_unescaped(s.take(s.len() - 6)).push('"')
    } else if ends_with_seq(s, entity_apos()) {
        html_unescaped(s.take(s.len() - 6)).push('\'')
    } else {
        html_unescaped(s.drop_last()).push(s.last())
    }
}

/// Escaped text never ends in the middle of an entity: not with `&`, and
/// not with `&` followed by letters, digits and `#`, none of them `;`.
proof fn lemma_escaped_end(s: Seq<char>, m: Seq<char>)
    requires
        forall|i: int| 0 <= i < m.len() ==> !markup_char(#[trigger] m[i]) && m[i] != ';',
    ensures
        !ends_with_seq(html_escaped(s), seq!['&'] + m),
    decreases s.len(),
{
    let e = html_escaped(s);
    let t = seq!['&'] + m;
    if s.len() > 0 && ends_with_seq(e, t) {
        let e0 = html_escaped(s.drop_last());
        let c = s.last();
        let piece = html_escape_char(c);
        assert(e == e0 + piece);
        assert(e.last() == t.last());
        if m.len() == 0 {
            assert(t.last() == '&');
            assert(piece.last() == e.last());
        } else {
            assert(t.last() == m.last());
            assert(piece.last() == e.last());
            if markup_char(c) {
                assert(piece.last() == ';');
            } else {
                assert(piece == seq![c]);
                let m0 = m.drop_last();
                assert forall|i: int| 0 <= i < m0.len() implies !markup_char(#[trigger] m0[i]) && m0[i] != ';' by {
                    assert(m0[i] == m[i]);
                }
                assert(ends_with_seq(e0, seq!['&'] + m0)) by {
                    assert(e0 == e.drop_last());
                    assert((seq!['&'] + m0) =~= t.drop_last());
                    assert(e0.subrange(e0.len() - t.drop_last().len(), e0.len() as int)
                        =~= e.subrange(e.len() - t.len(), e.len() as int).drop_last());
                }
                lemma_escaped_end(s.drop_last(), m0);
            }
        }
    }
}

/// Reading escaped text back gives the text.
pub proof fn law_unescape_undoes_html_escape(s: Seq<char>)
    ensures
        html_unescaped(html_escaped(s)) == s,
    decreases s.len(),
{
    if s.len() > 0 {
        let s0 = s.drop_last();
        let c = s.last();
        law_unescape_undoes_html_escape(s0);
        let e0 = html_escaped(s0);
        let piece = html_escape_char(c);
        let e = e0 + piece;
        assert(html_escaped(s) == e);
        if markup_char(c) {
            assert(e.take(e0.len() as int) == e0);
            assert(e.subrange(e.len() - piece.len(), e.len() as int) =~= piece);
            if c == '&' {
                assert(ends_with_seq(e, entity_amp()));
            } else if c == '<' {
                assert(!ends_with_seq(e, entity_amp())) by {
                    if ends_with_seq(e, entity_amp()) {
                        assert(e[e.len() - 4] == entity_amp()[1]);
                        assert(e[e.len() - 4] == piece[0]);
                    }
                }
                assert(ends_with_seq(e, entity_lt()));
            } else if c == '>' {
                assert(!ends_with_seq(e, entity_amp())) by {
                    if ends_with_seq(e, entity_amp()) {
                        assert(e[e.len() - 4] == entity_amp()[1]);
                        assert(e[e.len() - 4] == piece[0]);
                    }
                }
                assert(!ends_with_seq(e, entity_lt())) by {
                    if ends_with_seq(e, entity_lt()) {
                        assert(e[e.len() - 3] == entity_lt()[1]);
                        assert(e[e.len() - 3] == piece[1]);
                    }
                }
                assert(ends_with_seq(e, entity_gt()));
            } else if c == '"' {
                assert(!ends_with_seq(e, entity_amp())) by {
                    if ends_with_seq(e, entity_amp()) {
                        assert(e[e.len() - 5] == entity_amp()[0]);
                        assert(e[e.len() - 5] == piece[1]);
                    }
                }
                assert(!ends_with_seq(e, entity_lt())) by {
                    if ends_with_seq(e, entity_lt()) {
                        assert(e[e.len() - 4] == entity_lt()[0]);
                        assert(e[e.len() - 4] == piece[2]);
                    }
                }
                assert(!ends_with_seq(e, entity_gt())) by {
                    if ends_with_seq(e, entity_gt()) {
                        assert(e[e.len() - 4] == entity_gt()[0]);
                        assert(e[e.len() - 4] == piece[2]);
                    }
                }
                assert(ends_with_seq(e, entity_quot()));
            } else {
                assert(!ends_with_seq(e, entity_amp())) by {
                    if ends_with_seq(e, entity_amp()) {
                        assert(e[e.len() - 5] == entity_amp()[0]);
                        assert(e[e.len() - 5] == piece[1]);
                    }
                }
                assert(!ends_with_seq(e, entity_lt())) by {
                    if ends_with_seq(e, entity_lt()) {
                        assert(e[e.len() - 4] == entity_lt()[0]);
                        assert(e[e.len() - 4] == piece[2]);
                    }
                }
                assert(!ends_with_seq(e, entity_gt())) by {
                    if ends_with_seq(e, entity_gt()) {
                        assert(e[e.len() - 4] == entity_gt()[0]);
                        assert(e[e.len() - 4] == piece[2]);
                    }
                }
                assert(!ends_with_seq(e, entity_quot())) by {
                    if ends_with_seq(e, entity_quot()) {
                        assert(e[e.len() - 5] == entity_quot()[1]);
                        assert(e[e.len() - 5] == piece[1]);
                    }
                }
                assert(ends_with_seq(e, entity_apos()));
            }
            assert(s0.push(c) =~= s);
        } else {
            assert(piece =~= seq![c]);
            assert(e == e0.push(c));
            if c == ';' {
                let nm = |m: Seq<char>| forall|i: int| 0 <= i < m.len() ==> !markup_char(#[trigger] m[i]) && m[i] != ';';
                assert(nm(seq!['a', 'm', 'p']));
                assert(nm(seq!['l', 't']));
                assert(nm(seq!['g', 't']));
                assert(nm(seq!['q', 'u', 'o', 't']));
                assert(nm(seq!['#', 'x', '2', '7']));
                lemma_escaped_end(s0, seq!['a', 'm', 'p']);
                lemma_escaped_end(s0, seq!['l', 't']);
                lemma_escaped_end(s0, seq!['g', 't']);
                lemma_escaped_end(s0, seq!['q', 'u', 'o', 't']);
                lemma_escaped_end(s0, seq!['#', 'x', '2', '7']);
                assert(!ends_with_seq(e, entity_amp())) by {
                    if ends_with_seq(e, entity_amp()) {
                        assert(e0.subrange(e0.len() - 4, e0.len() as int)
                            =~= e.subrange(e.len() - 5, e.len() as int).drop_last());
                        assert(seq!['&'] + seq!['a', 'm', 'p'] =~= entity_amp().drop_last());
                    }
                }
                assert(!ends_with_seq(e, entity_lt())) by {
                    if ends_with_seq(e, entity_lt()) {
                        assert(e0.subrange(e0.len() - 3, e0.len() as int)
                            =~= e.subrange(e.len() - 4, e.len() as int).drop_last());
                        assert(seq!['&'] + seq!['l', 't'] =~= entity_lt().drop_last());
                    }
                }
                assert(!ends_with_seq(e, entity_gt())) by {
                    if ends_with_seq(e, entity_gt()) {
                        assert(e0.subrange(e0.len() - 3, e0.len() as int)
                            =~= e.subrange(e.len() - 4, e.len() as int).drop_last());
                        assert(seq!['&'] + seq!['g', 't'] =~= entity_gt().drop_last());
                    }
                }
                assert(!ends_with_seq(e, entity_quot())) by {
                    if ends_with_seq(e, entity_quot()) {
                        assert(e0.subrange(e0.len() - 5, e0.len() as int)
                            =~= e.subrange(e.len() - 6, e.len() as int).drop_last());
                        assert(seq!['&'] + seq!['q', 'u', 'o', 't'] =~= entity_quot().drop_last());
                    }
                }
                assert(!ends_with_seq(e, entity_apos())) by {
                    if ends_with_seq(e, entity_apos()) {
                        assert(e0.subrange(e0.len() - 5, e0.len() as int)
                            =~= e.subrange(e.len() - 6, e.len() as int).drop_last());
                        assert(seq!['&'] + seq!['#', 'x', '2', '7'] =~= entity_apos().drop_last());
                    }
                }
            } else {
                assert(!ends_with_seq(e, entity_amp())) by { if ends_with_seq(e, entity_amp()) { assert(e.last() == ';'); } }
                assert(!ends_with_seq(e, entity_lt())) by { if ends_with_seq(e, entity_lt()) { assert(e.last() == ';'); } }
                assert(!ends_with_seq(e, entity_gt())) by { if ends_with_seq(e, entity_gt()) { assert(e.last() == ';'); } }
                assert(!ends_with_seq(e, entity_quot())) by { if ends_with_seq(e, entity_quot()) { assert(e.last() == ';'); } }
                assert(!ends_with_seq(e, entity_apos())) by { if ends_with_seq(e, entity_apos()) { assert(e.last() == ';'); } }
            }
            assert(e.drop_last() == e0);
            assert(s0.push(c) =~= s);
        }
    }
}

} // verus!
