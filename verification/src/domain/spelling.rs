//! How the pieces of a template are spelt.

use crate::domain::template::{
    brace_end, close_from, compiled, literal, pieces_from, placeholder_name, SegmentView,
};
use crate::text;
use crate::text::CharClass;
use vstd::prelude::*;

verus! {

/// The text that the pieces of a template are written as: a literal as it is, a
/// placeholder in braces, a group in brackets.
pub open spec fn spelt(segs: Seq<SegmentView>) -> Seq<char>
    decreases segs,
{
    if segs.len() == 0 {
        Seq::empty()
    } else {
        spelt(segs.drop_last()) + match segs.last() {
            SegmentView::Literal(s) => s,
            SegmentView::Required(n) => seq!['{'] + n + seq!['}'],
            SegmentView::Optional(inner) => seq!['['] + spelt(inner) + seq![']'],
        }
    }
}

/// Pieces behind others are spelt behind them.
proof fn lemma_spelt_concat(a: Seq<SegmentView>, b: Seq<SegmentView>)
    ensures
        spelt(a + b) == spelt(a) + spelt(b),
    decreases b.len(),
{
    if b.len() == 0 {
        assert(a + b =~= a);
        assert(spelt(a) + spelt(b) =~= spelt(a));
    } else {
        lemma_spelt_concat(a, b.drop_last());
        assert((a + b).drop_last() =~= a + b.drop_last());
        assert((a + b).last() == b.last());
        assert(spelt(a + b) =~= spelt(a) + spelt(b));
    }
}

/// A literal and one piece behind it.
proof fn lemma_spelt_push(lit: Seq<char>, x: SegmentView)
    ensures
        spelt(literal(lit)) == lit,
        spelt(literal(lit).push(x)) == lit + (match x {
            SegmentView::Literal(s) => s,
            SegmentView::Required(n) => seq!['{'] + n + seq!['}'],
            SegmentView::Optional(inner) => seq!['['] + spelt(inner) + seq![']'],
        }),
{
    let segs = literal(lit);
    if lit.len() == 0 {
        assert(spelt(segs) =~= lit);
    } else {
        assert(segs.drop_last() =~= Seq::empty());
        assert(segs.last() == SegmentView::Literal(lit));
        assert(spelt(segs.drop_last()) =~= Seq::empty());
        assert(spelt(segs) =~= lit);
    }
    assert(segs.push(x).drop_last() =~= segs);
    assert(segs.push(x).last() == x);
}

/// A bracket is closed by a bracket.
proof fn lemma_closed(s: Seq<char>, open: int, i: int, depth: int)
    ensures
        close_from(s, open, i, depth) matches Ok(close) ==> 0 <= close < s.len() && s[close] == ']',
    decreases s.len() - i,
{
    if 0 <= i < s.len() {
        if s[i] == '[' {
            lemma_closed(s, open, i + 1, depth + 1);
        } else if s[i] == ']' {
            lemma_closed(s, open, i + 1, depth - 1);
        } else if s[i] == '{' {
            let end = brace_end(s, i);
            if i < end < s.len() {
                lemma_closed(s, open, end + 1, depth);
            }
        } else {
            lemma_closed(s, open, i + 1, depth);
        }
    }
}

/// The pieces of the rest of a template are spelt as that.
proof fn lemma_pieces_are_spelt(s: Seq<char>, i: int, lit: Seq<char>)
    requires
        0 <= i <= s.len(),
        !s.contains(':'),
    ensures
        pieces_from(s, i, lit) matches Ok(segs) ==> spelt(segs) == lit + s.skip(i),
    decreases s.len(), s.len() - i,
{
    let x = SegmentView::Literal(lit);
    lemma_spelt_push(lit, x);
    if i >= s.len() {
        assert(lit + s.skip(i) =~= lit);
    } else if s[i] == '[' {
        if let Ok(close) = close_from(s, i, i, 0) {
            lemma_closed(s, i, i, 0);
            if i < close < s.len() {
                let within = s.subrange(i + 1, close);
                assert(!within.contains(':')) by {
                    if within.contains(':') {
                        let k = choose|k: int| 0 <= k < within.len() && within[k] == ':';
                        assert(s[i + 1 + k] == ':');
                    }
                }
                lemma_pieces_are_spelt(within, 0, Seq::empty());
                lemma_pieces_are_spelt(s, close + 1, Seq::empty());
                if let (Ok(inner), Ok(rest)) = (
                    pieces_from(within, 0, Seq::empty()),
                    pieces_from(s, close + 1, Seq::empty()),
                ) {
                    let group = SegmentView::Optional(inner);
                    lemma_spelt_push(lit, group);
                    lemma_spelt_concat(literal(lit).push(group), rest);
                    assert(spelt(inner) =~= within);
                    assert(spelt(rest) =~= s.skip(close + 1));
                    assert(lit + s.skip(i) =~= lit + (seq!['['] + within + seq![']']) + s.skip(
                        close + 1,
                    ));
                }
            }
        }
    } else if s[i] == ']' {
    } else if s[i] == '{' {
        let end = brace_end(s, i);
        if i < end < s.len() {
            let full = s.subrange(i + 1, end);
            let colon = CharClass::Is(':');
            text::lemma_first_where(full, colon, true);
            let at = text::first_where(full, colon, true);
            assert(at == full.len()) by {
                if at < full.len() {
                    assert(s[i + 1 + at] == ':');
                }
            }
            assert(placeholder_name(full) =~= full);
            let brace = CharClass::Is('}');
            text::lemma_first_where(s.skip(i), brace, true);
            assert(s[end] == '}') by {
                assert(s.skip(i)[end - i] == s[end]);
            }
            lemma_pieces_are_spelt(s, end + 1, Seq::empty());
            if let Ok(rest) = pieces_from(s, end + 1, Seq::empty()) {
                let hole = SegmentView::Required(full);
                lemma_spelt_push(lit, hole);
                lemma_spelt_concat(literal(lit).push(hole), rest);
                assert(spelt(rest) =~= s.skip(end + 1));
                assert(lit + s.skip(i) =~= lit + (seq!['{'] + full + seq!['}']) + s.skip(end + 1));
            }
        }
    } else {
        lemma_pieces_are_spelt(s, i + 1, lit.push(s[i]));
        assert(lit.push(s[i]) + s.skip(i + 1) =~= lit + s.skip(i));
    }
}

/// The pieces that a template is compiled to are all that it is written as,
/// nothing left out and nothing added, in its order. So it is of a template
/// without formats.
pub proof fn law_compiled_template_is_what_was_written(raw: Seq<char>)
    requires
        !raw.contains(':'),
    ensures
        compiled(raw) matches Ok(segs) ==> spelt(segs) == raw,
{
    lemma_pieces_are_spelt(raw, 0, Seq::empty());
    assert(Seq::<char>::empty() + raw.skip(0) =~= raw);
}

} // verus!
