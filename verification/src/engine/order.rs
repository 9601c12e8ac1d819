//! Stable ordering by keys.

use vstd::prelude::*;

verus! {

/// Whether one item comes before another: by its key, then by its place.
pub open spec fn comes_before(keys: Seq<(u64, u64)>, i: int, j: int) -> bool {
    ||| keys[i].0 < keys[j].0
    ||| keys[i].0 == keys[j].0 && keys[i].1 < keys[j].1
    ||| keys[i] == keys[j] && i < j
}

/// Whether a list of places is the stable order of keys: every place stands in
/// it, and each before those that come after it.
pub open spec fn is_order(keys: Seq<(u64, u64)>, order: Seq<usize>) -> bool {
    &&& order.len() == keys.len()
    &&& forall|i: int| 0 <= i < order.len() ==> #[trigger] order[i] < keys.len()
    &&& forall|i: int, j: int|
        0 <= i < j < order.len() ==> comes_before(
            keys,
            #[trigger] order[i] as int,
            #[trigger] order[j] as int,
        )
    &&& forall|k: usize| k < keys.len() ==> #[trigger] order.contains(k)
}

/// Orders places by their keys; those with the same key stay as they are.
pub fn order_by(keys: &Vec<(u64, u64)>) -> (r: Vec<usize>)
    ensures
        is_order(keys@, r@),
{
    let mut out: Vec<usize> = Vec::new();
    let mut n: usize = 0;
    while n < keys.len()
        invariant
            n <= keys@.len(),
            out@.len() == n,
            forall|i: int| 0 <= i < out@.len() ==> #[trigger] out@[i] < n,
            forall|i: int, j: int|
                0 <= i < j < out@.len() ==> comes_before(
                    keys@,
                    #[trigger] out@[i] as int,
                    #[trigger] out@[j] as int,
                ),
            forall|k: usize| k < n ==> #[trigger] out@.contains(k),
        decreases keys@.len() - n,
    {
        let (a, b) = keys[n];
        let mut pos: usize = out.len();
        while pos > 0 && (keys[out[pos - 1]].0 > a || (keys[out[pos - 1]].0 == a && keys[out[pos
            - 1]].1 > b))
            invariant
                pos <= out@.len(),
                n < keys@.len(),
                out@.len() == n,
                (a, b) == keys@[n as int],
                forall|i: int| 0 <= i < out@.len() ==> #[trigger] out@[i] < n,
                forall|i: int|
                    pos <= i < out@.len() ==> comes_before(
                        keys@,
                        n as int,
                        #[trigger] out@[i] as int,
                    ),
            decreases pos,
        {
            pos = pos - 1;
        }
        let ghost before = out@;
        out.insert(pos, n);
        proof {
            let after = out@;
            assert(after == before.insert(pos as int, n));
            assert forall|i: int, j: int| 0 <= i < j < after.len() implies comes_before(
                keys@,
                #[trigger] after[i] as int,
                #[trigger] after[j] as int,
            ) by {
                let x = if i < pos {
                    before[i]
                } else {
                    before[i - 1]
                };
                let y = if j < pos {
                    before[j]
                } else {
                    before[j - 1]
                };
                if i < pos && j == pos {
                    let last = before[pos - 1];
                    if i < pos - 1 {
                        assert(comes_before(keys@, before[i] as int, last as int));
                    }
                }
            }
            assert forall|k: usize| k < n + 1 implies #[trigger] after.contains(k) by {
                if k < n {
                    assert(before.contains(k));
                    let i = choose|i: int| 0 <= i < before.len() && before[i] == k;
                    if i < pos {
                        assert(after[i] == k);
                    } else {
                        assert(after[i + 1] == k);
                    }
                } else {
                    assert(after[pos as int] == k);
                }
            }
        }
        n = n + 1;
    }
    out
}

} // verus!
