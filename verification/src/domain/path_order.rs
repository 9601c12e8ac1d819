//! The order of paths, and lists of paths held in order without repetition.

use crate::domain::path::{FilePath, PathView};
use crate::text;
use vstd::prelude::*;

verus! {

/// Whether a text comes before another, character by character.
pub open spec fn text_before(a: Seq<char>, b: Seq<char>) -> bool
    decreases b.len(),
{
    if b.len() == 0 {
        false
    } else if a.len() == 0 {
        true
    } else if a[0] != b[0] {
        a[0] < b[0]
    } else {
        text_before(a.skip(1), b.skip(1))
    }
}

/// Whether a component comes before another: the way up first, then the names
/// in the order of their texts.
pub open spec fn part_before(a: Seq<char>, b: Seq<char>) -> bool {
    if a == ".."@ || b == ".."@ {
        a != b && a == ".."@
    } else {
        text_before(a, b)
    }
}

/// Whether a list of components comes before another, component by component.
pub open spec fn parts_before(a: Seq<Seq<char>>, b: Seq<Seq<char>>) -> bool
    decreases b.len(),
{
    if b.len() == 0 {
        false
    } else if a.len() == 0 {
        true
    } else if a[0] != b[0] {
        part_before(a[0], b[0])
    } else {
        parts_before(a.skip(1), b.skip(1))
    }
}

/// Whether a path comes before another: absolute paths first, then component
/// by component.
pub open spec fn path_before(a: PathView, b: PathView) -> bool {
    if a.absolute != b.absolute {
        a.absolute
    } else {
        parts_before(a.parts, b.parts)
    }
}

/// Whether a path comes before another in a list that may have the longest
/// texts first.
pub open spec fn ranks_before(a: PathView, b: PathView, longest_first: bool) -> bool {
    let x = text::utf8_len(a.text());
    let y = text::utf8_len(b.text());
    if longest_first && x != y {
        x > y
    } else {
        path_before(a, b)
    }
}

/// Of two texts one comes first.
proof fn lemma_text_order(a: Seq<char>, b: Seq<char>)
    ensures
        a != b ==> text_before(a, b) || text_before(b, a),
        !(text_before(a, b) && text_before(b, a)),
    decreases a.len() + b.len(),
{
    if a.len() > 0 && b.len() > 0 {
        lemma_text_order(a.skip(1), b.skip(1));
        if a[0] == b[0] && a != b {
            if a.skip(1) == b.skip(1) {
                assert(a =~= seq![a[0]] + a.skip(1));
                assert(b =~= seq![b[0]] + b.skip(1));
            }
        }
    } else if a.len() == 0 && b.len() == 0 {
        assert(a =~= b);
    }
}

/// Texts that come before one another are in order.
proof fn lemma_text_transitive(a: Seq<char>, b: Seq<char>, c: Seq<char>)
    requires
        text_before(a, b),
        text_before(b, c),
    ensures
        text_before(a, c),
    decreases c.len(),
{
    if a.len() > 0 {
        if a[0] == b[0] && b[0] == c[0] {
            lemma_text_transitive(a.skip(1), b.skip(1), c.skip(1));
        }
    }
}

/// No component comes before itself, and of two one comes first.
proof fn lemma_part_order(a: Seq<char>, b: Seq<char>)
    ensures
        !part_before(a, a),
        a != b ==> part_before(a, b) || part_before(b, a),
        !(part_before(a, b) && part_before(b, a)),
{
    lemma_text_order(a, b);
    lemma_text_order(a, a);
}

/// Components that come before one another are in order.
proof fn lemma_part_transitive(a: Seq<char>, b: Seq<char>, c: Seq<char>)
    requires
        part_before(a, b),
        part_before(b, c),
    ensures
        part_before(a, c),
{
    if a != ".."@ && b != ".."@ && c != ".."@ {
        lemma_text_transitive(a, b, c);
    }
}

/// Of two lists of components one comes first.
proof fn lemma_parts_order(a: Seq<Seq<char>>, b: Seq<Seq<char>>)
    ensures
        a != b ==> parts_before(a, b) || parts_before(b, a),
        !(parts_before(a, b) && parts_before(b, a)),
    decreases a.len() + b.len(),
{
    if a.len() > 0 && b.len() > 0 {
        lemma_parts_order(a.skip(1), b.skip(1));
        lemma_part_order(a[0], b[0]);
        if a[0] == b[0] && a != b {
            if a.skip(1) == b.skip(1) {
                assert(a =~= seq![a[0]] + a.skip(1));
                assert(b =~= seq![b[0]] + b.skip(1));
            }
        }
    } else if a.len() == 0 && b.len() == 0 {
        assert(a =~= b);
    }
}

/// Lists of components that come before one another are in order.
proof fn lemma_parts_transitive(a: Seq<Seq<char>>, b: Seq<Seq<char>>, c: Seq<Seq<char>>)
    requires
        parts_before(a, b),
        parts_before(b, c),
    ensures
        parts_before(a, c),
    decreases c.len(),
{
    if a.len() > 0 {
        if a[0] == b[0] && b[0] == c[0] {
            lemma_parts_transitive(a.skip(1), b.skip(1), c.skip(1));
        } else if a[0] != b[0] && b[0] != c[0] {
            lemma_part_transitive(a[0], b[0], c[0]);
            if a[0] == c[0] {
                lemma_part_order(a[0], b[0]);
            }
        }
    }
}

/// No path ranks before itself, and of two one ranks first.
proof fn lemma_rank_order(a: PathView, b: PathView, longest_first: bool)
    ensures
        !ranks_before(a, a, longest_first),
        a != b ==> ranks_before(a, b, longest_first) || ranks_before(b, a, longest_first),
        !(ranks_before(a, b, longest_first) && ranks_before(b, a, longest_first)),
{
    lemma_parts_order(a.parts, b.parts);
    lemma_parts_order(a.parts, a.parts);
}

/// Paths that rank before one another are in order.
proof fn lemma_rank_transitive(a: PathView, b: PathView, c: PathView, longest_first: bool)
    requires
        ranks_before(a, b, longest_first),
        ranks_before(b, c, longest_first),
    ensures
        ranks_before(a, c, longest_first),
{
    if parts_before(a.parts, b.parts) && parts_before(b.parts, c.parts) {
        lemma_parts_transitive(a.parts, b.parts, c.parts);
    }
}

/// Compares two texts.
fn text_comes_before(a: &Vec<char>, b: &Vec<char>) -> (r: bool)
    ensures
        r == text_before(a@, b@),
{
    let mut i: usize = 0;
    proof {
        assert(a@.skip(0) =~= a@);
        assert(b@.skip(0) =~= b@);
    }
    while i < a.len() && i < b.len()
        invariant
            i <= a@.len(),
            i <= b@.len(),
            text_before(a@, b@) == text_before(a@.skip(i as int), b@.skip(i as int)),
        decreases a@.len() - i,
    {
        proof {
            assert(a@.skip(i as int)[0] == a@[i as int]);
            assert(b@.skip(i as int)[0] == b@[i as int]);
            assert(a@.skip(i as int).skip(1) =~= a@.skip(i + 1));
            assert(b@.skip(i as int).skip(1) =~= b@.skip(i + 1));
        }
        if a[i] != b[i] {
            return a[i] < b[i];
        }
        i = i + 1;
    }
    i < b.len()
}

/// Compares two components.
fn part_comes_before(a: &str, b: &str) -> (r: bool)
    ensures
        r == part_before(a@, b@),
{
    let up_a = text::same_text(a, "..");
    let up_b = text::same_text(b, "..");
    if up_a || up_b {
        up_a && !up_b
    } else {
        text_comes_before(&text::to_chars(a), &text::to_chars(b))
    }
}

/// Compares two lists of components.
fn parts_come_before(a: &Vec<String>, b: &Vec<String>) -> (r: bool)
    ensures
        r == parts_before(a.deep_view(), b.deep_view()),
{
    let ghost x = a.deep_view();
    let ghost y = b.deep_view();
    let mut i: usize = 0;
    proof {
        assert(x.skip(0) =~= x);
        assert(y.skip(0) =~= y);
    }
    while i < a.len() && i < b.len()
        invariant
            i <= a@.len(),
            i <= b@.len(),
            x == a.deep_view(),
            y == b.deep_view(),
            parts_before(x, y) == parts_before(x.skip(i as int), y.skip(i as int)),
        decreases a@.len() - i,
    {
        proof {
            assert(x.skip(i as int)[0] == a@[i as int]@);
            assert(y.skip(i as int)[0] == b@[i as int]@);
            assert(x.skip(i as int).skip(1) =~= x.skip(i + 1));
            assert(y.skip(i as int).skip(1) =~= y.skip(i + 1));
        }
        if !text::same_text(&a[i], &b[i]) {
            return part_comes_before(&a[i], &b[i]);
        }
        i = i + 1;
    }
    i < b.len()
}

/// Compares two paths.
pub fn ranks_first(a: &FilePath, b: &FilePath, longest_first: bool) -> (r: bool)
    ensures
        r == ranks_before(a.deep_view(), b.deep_view(), longest_first),
{
    if longest_first {
        let x: usize = text::byte_len(&a.to_text());
        let y: usize = text::byte_len(&b.to_text());
        if x != y {
            return x > y;
        }
    }
    if a.absolute != b.absolute {
        a.absolute
    } else {
        parts_come_before(&a.parts, &b.parts)
    }
}

/// Whether a list of paths is in order and holds none twice.
pub open spec fn in_order(list: Seq<PathView>, longest_first: bool) -> bool {
    forall|i: int, j: int|
        0 <= i < j < list.len() ==> ranks_before(
            #[trigger] list[i],
            #[trigger] list[j],
            longest_first,
        )
}

/// Whether a list of paths in order holds those of another list and no more.
pub open spec fn ordered_of(list: Seq<PathView>, of: Seq<PathView>, longest_first: bool) -> bool {
    &&& in_order(list, longest_first)
    &&& forall|p: PathView| #[trigger] list.contains(p) <==> of.contains(p)
}

/// Puts a path into a list in order, unless it is there.
pub fn insert_in_order(list: &mut Vec<FilePath>, p: FilePath, longest_first: bool)
    requires
        in_order(old(list).deep_view(), longest_first),
    ensures
        in_order(final(list).deep_view(), longest_first),
        forall|q: PathView| #[trigger]
            final(list).deep_view().contains(q) <==> old(list).deep_view().contains(q) || q
                == p.deep_view(),
{
    let ghost v = list.deep_view();
    let ghost pv = p.deep_view();
    let mut i: usize = 0;
    while i < list.len() && ranks_first(&list[i], &p, longest_first)
        invariant
            i <= list@.len(),
            v == list.deep_view(),
            pv == p.deep_view(),
            in_order(v, longest_first),
            forall|k: int| 0 <= k < i ==> ranks_before(#[trigger] v[k], pv, longest_first),
        decreases list@.len() - i,
    {
        proof {
            assert(v[i as int] == list@[i as int].deep_view());
        }
        i = i + 1;
    }
    proof {
        if i < v.len() {
            assert(v[i as int] == list@[i as int].deep_view());
            lemma_rank_order(v[i as int], pv, longest_first);
        }
    }
    if i < list.len() && list[i].same(&p) {
        proof {
            assert(v.contains(pv));
        }
        return;
    }
    list.insert(i, p);
    proof {
        let w = list.deep_view();
        assert(w =~= v.insert(i as int, pv));
        assert forall|a: int, b: int| 0 <= a < b < w.len() implies ranks_before(
            #[trigger] w[a],
            #[trigger] w[b],
            longest_first,
        ) by {
            if a < i && b == i {
                assert(w[a] == v[a]);
            } else if a == i {
                assert(w[b] == v[b - 1]);
                if b - 1 > i {
                    lemma_rank_transitive(pv, v[i as int], v[b - 1], longest_first);
                }
            } else {
                assert(w[a] == (if a < i { v[a] } else { v[a - 1] }));
                assert(w[b] == (if b < i { v[b] } else { v[b - 1] }));
            }
        }
        assert forall|q: PathView| #[trigger] w.contains(q) <==> v.contains(q) || q == pv by {
            if w.contains(q) {
                let k = choose|k: int| 0 <= k < w.len() && w[k] == q;
                if k < i {
                    assert(v[k] == q);
                } else if k > i {
                    assert(v[k - 1] == q);
                }
            }
            if v.contains(q) {
                let k = choose|k: int| 0 <= k < v.len() && v[k] == q;
                assert(w[if k < i { k } else { k + 1 }] == q);
            }
            if q == pv {
                assert(w[i as int] == q);
            }
        }
    }
}

/// There is one list in order of given paths.
pub proof fn law_one_order(a: Seq<PathView>, b: Seq<PathView>, of: Seq<PathView>, longest_first: bool)
    requires
        ordered_of(a, of, longest_first),
        ordered_of(b, of, longest_first),
    ensures
        a == b,
    decreases a.len() + b.len(),
{
    if a.len() == 0 {
        if b.len() > 0 {
            assert(b.contains(b[0]));
            assert(a.contains(b[0]));
        }
        assert(a =~= b);
    } else {
        assert(a.contains(a[0]));
        assert(b.contains(a[0]));
        assert(b.contains(b[0]));
        assert(a.contains(b[0]));
        let i = choose|i: int| 0 <= i < b.len() && b[i] == a[0];
        let j = choose|j: int| 0 <= j < a.len() && a[j] == b[0];
        lemma_rank_order(a[0], b[0], longest_first);
        assert(a[0] == b[0]);
        let x = a.skip(1);
        let y = b.skip(1);
        assert forall|p: PathView| #[trigger] x.contains(p) <==> y.contains(p) by {
            lemma_rest_contains(a, b, of, p, longest_first);
            lemma_rest_contains(b, a, of, p, longest_first);
        }
        assert(ordered_of(x, x, longest_first)) by {
            assert forall|s: int, u: int| 0 <= s < u < x.len() implies ranks_before(
                #[trigger] x[s],
                #[trigger] x[u],
                longest_first,
            ) by {
                assert(x[s] == a[s + 1] && x[u] == a[u + 1]);
            }
        }
        assert(ordered_of(y, x, longest_first)) by {
            assert forall|s: int, u: int| 0 <= s < u < y.len() implies ranks_before(
                #[trigger] y[s],
                #[trigger] y[u],
                longest_first,
            ) by {
                assert(y[s] == b[s + 1] && y[u] == b[u + 1]);
            }
        }
        law_one_order(x, y, x, longest_first);
        assert(a =~= seq![a[0]] + x);
        assert(b =~= seq![b[0]] + y);
    }
}

/// What is behind the first of one list is behind the first of the other.
proof fn lemma_rest_contains(
    a: Seq<PathView>,
    b: Seq<PathView>,
    of: Seq<PathView>,
    p: PathView,
    longest_first: bool,
)
    requires
        ordered_of(a, of, longest_first),
        ordered_of(b, of, longest_first),
        a.len() > 0,
        b.len() > 0,
        a[0] == b[0],
    ensures
        a.skip(1).contains(p) ==> b.skip(1).contains(p),
{
    if a.skip(1).contains(p) {
        let k = choose|k: int| 0 <= k < a.skip(1).len() && a.skip(1)[k] == p;
        assert(a[k + 1] == p);
        assert(ranks_before(a[0], a[k + 1], longest_first));
        lemma_rank_order(p, p, longest_first);
        assert(a.contains(p));
        assert(b.contains(p));
        let m = choose|m: int| 0 <= m < b.len() && b[m] == p;
        assert(m > 0);
        assert(b.skip(1)[m - 1] == p);
    }
}

} // verus!
