//! Which bytes of a working text have been claimed.

use crate::text;
use std::ops::Range;
use vstd::prelude::*;

verus! {

/// The claimed bytes of a text.
#[derive(Debug, Clone)]
pub struct Consumption {
    consumed: Vec<bool>,
}

impl View for Consumption {
    type V = Seq<bool>;

    closed spec fn view(&self) -> Seq<bool> {
        self.consumed@
    }
}

/// The lesser of two numbers.
pub open spec fn least(a: int, b: int) -> int {
    if a < b {
        a
    } else {
        b
    }
}

/// The claimed bytes with a range added; what lies outside the text is left
/// out.
pub open spec fn marked(c: Seq<bool>, from: int, to: int) -> Seq<bool> {
    Seq::new(c.len(), |i: int| c[i] || (from <= i < to))
}

/// Whether no byte of a range is claimed.
pub open spec fn free(c: Seq<bool>, from: int, to: int) -> bool {
    forall|i: int| from <= i < to && 0 <= i < c.len() ==> !#[trigger] c[i]
}

/// Where the run of unclaimed bytes that starts at `i` ends.
pub open spec fn free_end(c: Seq<bool>, i: int) -> int
    decreases c.len() - i,
{
    if 0 <= i < c.len() && !c[i] {
        free_end(c, i + 1)
    } else {
        i
    }
}

/// The maximal runs of unclaimed bytes from `i` on, in order.
pub open spec fn residual_from(c: Seq<bool>, i: int) -> Seq<(int, int)>
    decreases c.len() - i,
{
    if i < 0 || i >= c.len() {
        Seq::empty()
    } else if c[i] {
        residual_from(c, i + 1)
    } else {
        let end = free_end(c, i);
        if i < end <= c.len() {
            seq![(i, end)] + residual_from(c, end)
        } else {
            Seq::empty()
        }
    }
}

/// The bounds of ranges.
pub open spec fn bounds(list: Seq<Range<usize>>) -> Seq<(int, int)> {
    Seq::new(list.len(), |i: int| (list[i].start as int, list[i].end as int))
}

/// A run of unclaimed bytes does not go beyond the text.
pub proof fn lemma_free_end(c: Seq<bool>, i: int)
    requires
        0 <= i <= c.len(),
    ensures
        i <= free_end(c, i) <= c.len(),
        forall|k: int| i <= k < free_end(c, i) ==> !#[trigger] c[k],
        free_end(c, i) < c.len() ==> c[free_end(c, i)],
    decreases c.len() - i,
{
    if i < c.len() && !c[i] {
        lemma_free_end(c, i + 1);
    }
}

impl Consumption {
    /// Nothing claimed of a text.
    pub fn new(text: &str) -> (r: Self)
        ensures
            r@ == Seq::new(text::utf8_len(text@), |i: int| false),
    {
        Self::of_len(text::byte_len(text))
    }

    /// Nothing claimed of so many positions.
    pub fn of_len(n: usize) -> (r: Self)
        ensures
            r@ == Seq::new(n as nat, |i: int| false),
    {
        let mut consumed: Vec<bool> = Vec::new();
        let mut i: usize = 0;
        while i < n
            invariant
                i <= n,
                consumed@ == Seq::new(i as nat, |k: int| false),
            decreases n - i,
        {
            consumed.push(false);
            proof {
                assert(consumed@ =~= Seq::new((i + 1) as nat, |k: int| false));
            }
            i = i + 1;
        }
        Consumption { consumed }
    }

    /// Mark `range` as claimed. What lies out of bounds is left out.
    pub fn mark(&mut self, range: Range<usize>)
        ensures
            final(self)@ == marked(old(self)@, range.start as int, range.end as int),
    {
        let mut i: usize = range.start;
        let ghost before = self.consumed@;
        while i < range.end && i < self.consumed.len()
            invariant
                range.start <= i,
                i <= range.end || i == range.start,
                self.consumed@.len() == before.len(),
                forall|k: int|
                    0 <= k < before.len() ==> #[trigger] self.consumed@[k] == (before[k] || (range.start <= k
                        < i)),
            decreases range.end - i,
        {
            self.consumed.set(i, true);
            i = i + 1;
        }
        proof {
            let after = marked(before, range.start as int, range.end as int);
            assert forall|k: int| 0 <= k < before.len() implies self.consumed@[k] == after[k] by {
                assert(i >= range.end || i >= before.len());
                assert(self.consumed@[k] == (before[k] || (range.start <= k < i)));
                assert(after[k] == (before[k] || (range.start <= k < range.end)));
            }
            assert(self.consumed@ =~= after);
        }
    }

    /// `true` if every byte in `range` is unclaimed; what lies out of bounds
    /// counts as unclaimed.
    pub fn is_free(&self, range: Range<usize>) -> (r: bool)
        ensures
            r == free(self@, range.start as int, range.end as int),
    {
        let mut i: usize = range.start;
        while i < range.end && i < self.consumed.len()
            invariant
                range.start <= i,
                forall|k: int|
                    range.start <= k < i && 0 <= k < self.consumed@.len() ==> !#[trigger] self.consumed@[k],
            decreases range.end - i,
        {
            if self.consumed[i] {
                return false;
            }
            i = i + 1;
        }
        true
    }

    /// Maximal unclaimed byte ranges, in order.
    pub fn residual_ranges(&self) -> (r: Vec<Range<usize>>)
        ensures
            bounds(r@) == residual_from(self@, 0),
    {
        let mut out: Vec<Range<usize>> = Vec::new();
        let mut i: usize = 0;
        let ghost c = self.consumed@;
        proof {
            assert(bounds(out@) + residual_from(c, 0) =~= residual_from(c, 0));
        }
        while i < self.consumed.len()
            invariant
                i <= c.len(),
                c == self.consumed@,
                bounds(out@) + residual_from(c, i as int) == residual_from(c, 0),
            decreases c.len() - i,
        {
            if self.consumed[i] {
                i = i + 1;
            } else {
                let start: usize = i;
                let ghost before = bounds(out@);
                proof {
                    lemma_free_end(c, start as int);
                }
                while i < self.consumed.len() && !self.consumed[i]
                    invariant
                        start <= i <= c.len(),
                        c == self.consumed@,
                        free_end(c, start as int) == free_end(c, i as int),
                    decreases c.len() - i,
                {
                    i = i + 1;
                }
                out.push(start..i);
                proof {
                    assert(bounds(out@) =~= before.push((start as int, i as int)));
                    assert(bounds(out@) + residual_from(c, i as int) =~= before + residual_from(
                        c,
                        start as int,
                    ));
                }
            }
        }
        proof {
            assert(bounds(out@) + residual_from(c, i as int) =~= bounds(out@));
        }
        out
    }
}

/// A byte that has been claimed stays claimed, and marking claims exactly the
/// range.
pub proof fn law_mark_claims_range(c: Seq<bool>, from: int, to: int)
    ensures
        marked(c, from, to).len() == c.len(),
        forall|i: int|
            0 <= i < c.len() ==> #[trigger] marked(c, from, to)[i] == (c[i] || from <= i < to),
        from < to && 0 <= from < c.len() ==> !free(marked(c, from, to), from, to),
{
    if from < to && 0 <= from < c.len() {
        assert(marked(c, from, to)[from]);
    }
}

/// The residual ranges hold exactly the unclaimed bytes.
pub proof fn law_residual_is_complement(c: Seq<bool>, i: int, b: int)
    requires
        0 <= i <= b < c.len(),
    ensures
        !c[b] <==> exists|k: int|
            0 <= k < residual_from(c, i).len() && (#[trigger] residual_from(c, i)[k]).0 <= b
                < residual_from(c, i)[k].1,
    decreases c.len() - i,
{
    let all = residual_from(c, i);
    if c[i] {
        let tail = residual_from(c, i + 1);
        assert(all == tail);
        if b > i {
            law_residual_is_complement(c, i + 1, b);
            if !c[b] {
                let k = choose|k: int| 0 <= k < tail.len() && (#[trigger] tail[k]).0 <= b < tail[k].1;
                assert(all[k] == tail[k]);
            }
        } else {
            lemma_residual_starts(c, i + 1);
            if exists|k: int| 0 <= k < all.len() && (#[trigger] all[k]).0 <= b < all[k].1 {
                let k = choose|k: int| 0 <= k < all.len() && (#[trigger] all[k]).0 <= b < all[k].1;
                assert(tail[k].0 >= i + 1);
            }
        }
    } else {
        lemma_free_end(c, i);
        let end = free_end(c, i);
        let tail = residual_from(c, end);
        assert(free_end(c, i) > i) by {
            lemma_free_end(c, i + 1);
        }
        if b < end {
            assert(all[0] == (i, end));
        } else {
            law_residual_is_complement(c, end, b);
            if !c[b] {
                let k = choose|k: int| 0 <= k < tail.len() && (#[trigger] tail[k]).0 <= b < tail[k].1;
                assert(all[k + 1] == tail[k]);
            }
            if exists|k: int| 0 <= k < all.len() && (#[trigger] all[k]).0 <= b < all[k].1 {
                let k = choose|k: int| 0 <= k < all.len() && (#[trigger] all[k]).0 <= b < all[k].1;
                assert(k > 0);
                assert(all[k] == tail[k - 1]);
            }
        }
    }
}

/// The residual ranges lie within the text.
pub proof fn lemma_residual_within(c: Seq<bool>, i: int, k: int)
    requires
        0 <= i <= c.len(),
        0 <= k < residual_from(c, i).len(),
    ensures
        i <= residual_from(c, i)[k].0 < residual_from(c, i)[k].1 <= c.len(),
    decreases c.len() - i,
{
    if c[i] {
        lemma_residual_within(c, i + 1, k);
    } else {
        let end = free_end(c, i);
        if k > 0 {
            lemma_residual_within(c, end, k - 1);
        }
    }
}

/// The residual ranges from a position on start there or later.
proof fn lemma_residual_starts(c: Seq<bool>, i: int)
    requires
        0 <= i <= c.len(),
    ensures
        forall|k: int| 0 <= k < residual_from(c, i).len() ==> (#[trigger] residual_from(c, i)[k]).0 >= i,
    decreases c.len() - i,
{
    if i < c.len() {
        if c[i] {
            lemma_residual_starts(c, i + 1);
            assert forall|k: int| 0 <= k < residual_from(c, i).len() implies (
            #[trigger] residual_from(c, i)[k]).0 >= i by {
                assert(residual_from(c, i)[k] == residual_from(c, i + 1)[k]);
            }
        } else {
            lemma_free_end(c, i);
            let end = free_end(c, i);
            if end > i {
                lemma_residual_starts(c, end);
                assert forall|k: int| 0 <= k < residual_from(c, i).len() implies (
                #[trigger] residual_from(c, i)[k]).0 >= i by {
                    if k > 0 {
                        assert(residual_from(c, i)[k] == residual_from(c, end)[k - 1]);
                    }
                }
            }
        }
    }
}

} // verus!
