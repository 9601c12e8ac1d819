//! What it means that no file is lost.

use crate::domain::fs::{
    bytes, is_file, only_adds_dirs, relocated, vacant, Tree,
};
use crate::domain::path::PathView;
use vstd::prelude::*;

verus! {

/// Whether every file of one tree has a file of its own in the other, with the
/// same bytes, at the place that is given for it.
pub open spec fn carried(a: Tree, b: Tree, place: spec_fn(PathView) -> PathView) -> bool {
    &&& forall|p: PathView| #[trigger]
        is_file(a, p) ==> is_file(b, place(p)) && bytes(b, place(p)) == bytes(a, p)
    &&& forall|p: PathView, q: PathView| #[trigger]
        is_file(a, p) && #[trigger] is_file(a, q) && p != q ==> place(p) != place(q)
}

/// Whether every file of one tree has a file of its own in the other, with the
/// same bytes, wherever it may stand.
pub open spec fn keeps_files(a: Tree, b: Tree) -> bool {
    exists|place: spec_fn(PathView) -> PathView| carried(a, b, place)
}

/// Whether everything that does not stand at or under a path stands where it
/// stood.
pub open spec fn others_stay(a: Tree, b: Tree, p: PathView) -> bool {
    forall|q: PathView| #[trigger]
        a.dom().contains(q) && !q.starts_with(p) ==> b.dom().contains(q) && b[q] == a[q]
}

/// Whether everything that stood anywhere stands where it stood.
pub open spec fn all_stay(a: Tree, b: Tree) -> bool {
    forall|q: PathView| #[trigger]
        a.dom().contains(q) ==> b.dom().contains(q) && b[q] == a[q]
}

/// Whether what stood at one path stands at another at which nothing stood,
/// and everything else where it stood, but for new directories.
pub open spec fn landed(a: Tree, b: Tree, from: PathView, to: PathView) -> bool {
    &&& a.dom().contains(from)
    &&& vacant(a, to)
    &&& !b.dom().contains(from)
    &&& b.dom().contains(to)
    &&& others_stay(a, b, from)
    &&& is_file(a, from) ==> is_file(b, to) && bytes(b, to) == bytes(a, from)
    &&& forall|q: PathView| #[trigger]
        b.dom().contains(q) && !a.dom().contains(q) && !q.starts_with(to) && !q.starts_with(from)
            ==> b[q] is Dir
}

/// Where everything stays, no file is lost.
pub proof fn lemma_staying_keeps_files(a: Tree, b: Tree)
    requires
        all_stay(a, b),
    ensures
        keeps_files(a, b),
{
    let place = |p: PathView| p;
    assert forall|p: PathView| #[trigger] is_file(a, p) implies is_file(b, place(p)) && bytes(
        b,
        place(p),
    ) == bytes(a, p) by {
        assert(a.dom().contains(p));
    }
    assert(carried(a, b, place));
}

/// Where every file stays, none is lost.
pub proof fn lemma_staying_files_are_kept(a: Tree, b: Tree)
    requires
        forall|p: PathView| #[trigger]
            is_file(a, p) ==> is_file(b, p) && bytes(b, p) == bytes(a, p),
    ensures
        keeps_files(a, b),
{
    let place = |p: PathView| p;
    assert(carried(a, b, place));
}

/// What is kept in two steps is kept.
pub proof fn lemma_keeping_is_transitive(a: Tree, b: Tree, c: Tree)
    requires
        keeps_files(a, b),
        keeps_files(b, c),
    ensures
        keeps_files(a, c),
{
    let f = choose|place: spec_fn(PathView) -> PathView| carried(a, b, place);
    let g = choose|place: spec_fn(PathView) -> PathView| carried(b, c, place);
    let place = |p: PathView| g(f(p));
    assert forall|p: PathView| #[trigger] is_file(a, p) implies is_file(c, place(p)) && bytes(
        c,
        place(p),
    ) == bytes(a, p) by {
        assert(is_file(b, f(p)));
    }
    assert forall|p: PathView, q: PathView| #[trigger]
        is_file(a, p) && #[trigger] is_file(a, q) && p != q implies place(p) != place(q) by {
        assert(is_file(b, f(p)));
        assert(is_file(b, f(q)));
    }
    assert(carried(a, c, place));
}

/// What is kept stays kept when more is added.
pub proof fn lemma_keeping_survives_growth(a: Tree, b: Tree, c: Tree)
    requires
        keeps_files(a, b),
        all_stay(b, c),
    ensures
        keeps_files(a, c),
{
    lemma_staying_keeps_files(b, c);
    lemma_keeping_is_transitive(a, b, c);
}

/// Where only directories are added, everything stays.
pub proof fn lemma_adding_dirs_stays(a: Tree, b: Tree)
    requires
        only_adds_dirs(a, b),
    ensures
        all_stay(a, b),
        keeps_files(a, b),
{
    lemma_staying_keeps_files(a, b);
}

/// Where only directories are added in two steps, only directories are added.
pub proof fn lemma_adding_dirs_is_transitive(a: Tree, b: Tree, c: Tree)
    requires
        only_adds_dirs(a, b),
        only_adds_dirs(b, c),
    ensures
        only_adds_dirs(a, c),
{
    assert forall|q: PathView| #[trigger]
        c.dom().contains(q) && !a.dom().contains(q) implies c[q] is Dir by {
        if b.dom().contains(q) {
            assert(c[q] == b[q]);
        }
    }
}

/// A path that begins with another does so from anywhere.
pub proof fn lemma_rebase_starts(p: PathView, from: PathView, to: PathView)
    requires
        p.starts_with(from),
    ensures
        p.rebase(from, to).starts_with(to),
        p.rebase(from, to).rebase(to, from) == p,
{
    let q = p.rebase(from, to);
    assert(q.parts.take(to.parts.len() as int) =~= to.parts);
    assert(q.parts.skip(to.parts.len() as int) =~= p.parts.skip(from.parts.len() as int));
    assert(from.parts + p.parts.skip(from.parts.len() as int) =~= p.parts);
}

/// A relocation loses no file.
pub proof fn lemma_relocation_keeps_files(t: Tree, from: PathView, to: PathView)
    requires
        vacant(t, to),
    ensures
        keeps_files(t, relocated(t, from, to)),
        others_stay(t, relocated(t, from, to), from),
{
    let b = relocated(t, from, to);
    let place = |p: PathView|
        if p.starts_with(from) {
            p.rebase(from, to)
        } else {
            p
        };
    assert forall|p: PathView| #[trigger] is_file(t, p) implies is_file(b, place(p)) && bytes(
        b,
        place(p),
    ) == bytes(t, p) by {
        assert(t.dom().contains(p));
        if p.starts_with(from) {
            lemma_rebase_starts(p, from, to);
            assert(b.dom().contains(place(p)));
        } else {
            assert(b.dom().contains(p));
        }
    }
    assert forall|p: PathView, q: PathView| #[trigger]
        is_file(t, p) && #[trigger] is_file(t, q) && p != q implies place(p) != place(q) by {
        assert(t.dom().contains(p));
        assert(t.dom().contains(q));
        if p.starts_with(from) {
            lemma_rebase_starts(p, from, to);
        }
        if q.starts_with(from) {
            lemma_rebase_starts(q, from, to);
        }
    }
    assert(carried(t, b, place));
    assert forall|q: PathView| #[trigger]
        t.dom().contains(q) && !q.starts_with(from) implies b.dom().contains(q) && b[q]
        == t[q] by {
        assert(b.dom().contains(q));
    }
}

/// What is relocated lands.
pub proof fn lemma_relocation_lands(t: Tree, from: PathView, to: PathView)
    requires
        t.dom().contains(from),
        vacant(t, to),
        !to.starts_with(from),
    ensures
        landed(t, relocated(t, from, to), from, to),
{
    let b = relocated(t, from, to);
    lemma_relocation_keeps_files(t, from, to);
    assert(from.parts.take(from.parts.len() as int) =~= from.parts);
    assert(from.starts_with(from));
    lemma_rebase_starts(from, from, to);
    assert(from.parts.skip(from.parts.len() as int) =~= Seq::empty());
    assert(from.rebase(from, to).parts =~= to.parts);
    assert(from.rebase(from, to) == to);
    assert(b.dom().contains(to));
    assert(!from.starts_with(to));
    assert(!b.dom().contains(from));
    assert(b[to] == t[from]);
}

/// A file that stands at a new path with the same bytes is not lost when it
/// goes from the old one.
pub proof fn lemma_moved_file_is_kept(a: Tree, b: Tree, from: PathView, to: PathView)
    requires
        is_file(a, from),
        !a.dom().contains(to),
        is_file(b, to),
        bytes(b, to) == bytes(a, from),
        forall|q: PathView| #[trigger]
            a.dom().contains(q) && q != from ==> b.dom().contains(q) && b[q] == a[q],
    ensures
        keeps_files(a, b),
{
    let place = |p: PathView|
        if p == from {
            to
        } else {
            p
        };
    assert forall|p: PathView| #[trigger] is_file(a, p) implies is_file(b, place(p)) && bytes(
        b,
        place(p),
    ) == bytes(a, p) by {
        assert(a.dom().contains(p));
    }
    assert forall|p: PathView, q: PathView| #[trigger]
        is_file(a, p) && #[trigger] is_file(a, q) && p != q implies place(p) != place(q) by {
        assert(a.dom().contains(p));
        assert(a.dom().contains(q));
    }
    assert(carried(a, b, place));
}

/// What lands in a tree to which directories have been added lands.
pub proof fn lemma_landing_after_adding_dirs(
    a: Tree,
    b: Tree,
    c: Tree,
    from: PathView,
    to: PathView,
)
    requires
        only_adds_dirs(a, b),
        a.dom().contains(from),
        landed(b, c, from, to),
    ensures
        landed(a, c, from, to),
{
    assert forall|q: PathView| #[trigger] a.dom().contains(q) implies !q.starts_with(to) by {
        assert(b.dom().contains(q));
    }
    assert forall|q: PathView| #[trigger]
        a.dom().contains(q) && !q.starts_with(from) implies c.dom().contains(q) && c[q]
        == a[q] by {
        assert(b.dom().contains(q));
    }
    assert forall|q: PathView| #[trigger]
        c.dom().contains(q) && !a.dom().contains(q) && !q.starts_with(to) && !q.starts_with(
        from,
    ) implies c[q] is Dir by {
        if b.dom().contains(q) {
            assert(c[q] == b[q]);
        }
    }
}

/// A tree with a path removed of which nothing was there before.
pub proof fn lemma_removing_new_path_stays(a: Tree, b: Tree, p: PathView)
    requires
        all_stay(a, b.remove(p)),
    ensures
        all_stay(a, b),
        !a.dom().contains(p),
{
    assert forall|q: PathView| #[trigger] a.dom().contains(q) implies b.dom().contains(q) && b[q]
        == a[q] by {
        assert(b.remove(p).dom().contains(q));
    }
    if a.dom().contains(p) {
        assert(b.remove(p).dom().contains(p));
    }
}

} // verus!
