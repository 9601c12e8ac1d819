//! Associate stage: which main file a sidecar belongs to.

use crate::domain::classify::FileClass;
use crate::domain::duplicate::Duplicate;
use crate::domain::path::{FilePath, PathView};
use crate::domain::plan::Readiness;
use crate::engine::draft::{drafts, DraftView, Drafted};
use crate::text;
use vstd::prelude::*;

verus! {

/// Whether files of a class go with a main file.
pub open spec fn goes_along(class: FileClass) -> bool {
    class == FileClass::Subtitle || class == FileClass::Artwork || class == FileClass::Metadata
}

/// Whether files of a class go with a main file.
pub fn is_sidecar(class: FileClass) -> (r: bool)
    ensures
        r == goes_along(class),
{
    match class {
        FileClass::Subtitle | FileClass::Artwork | FileClass::Metadata => true,
        _ => false,
    }
}

/// The directory that a file is in; the root where it has none.
pub open spec fn home_of(d: DraftView, root: PathView) -> PathView {
    match d.source.parent() {
        Some(p) => p,
        None => root,
    }
}

/// The directory that a file is in; the root where it has none.
pub fn directory_of<T: Drafted>(item: &T, root: &FilePath) -> (r: FilePath)
    ensures
        r.deep_view() == home_of(item.draft(), root.deep_view()),
{
    match item.source().parent() {
        Some(p) => p,
        None => root.duplicate(),
    }
}

/// Whether a main file may have sidecars: it is ready, and in the given
/// directory. One that needs review itself is no safe anchor.
pub open spec fn may_anchor(d: DraftView, main: FileClass, dir: PathView, root: PathView) -> bool {
    d.class == main && d.readiness is Ready && home_of(d, root) == dir
}

/// Whether an item may have sidecars.
pub fn anchors<T: Drafted>(item: &T, dir: &FilePath, root: &FilePath) -> (r: bool)
    ensures
        r == may_anchor(item.draft(), T::main_class(), dir.deep_view(), root.deep_view()),
{
    let ready = match item.readiness() {
        Readiness::Ready => true,
        _ => false,
    };
    ready && item.is_main() && directory_of(item, root).same(dir)
}

/// The stem of a file's name, letters in lower case.
pub open spec fn low_stem(p: PathView) -> Seq<char> {
    match p.stem() {
        Some(s) => text::ascii_lowercase(s),
        None => Seq::empty(),
    }
}

/// The stem of a file's name, letters in lower case.
pub fn lowered_stem(p: &FilePath) -> (r: Vec<char>)
    ensures
        r@ == low_stem(p.deep_view()),
{
    match p.file_stem() {
        Some(s) => text::to_chars(&text::lowered_text(&s)),
        None => Vec::new(),
    }
}

/// Whether the name of a sidecar begins with that of a main file.
pub open spec fn named_after(side: PathView, main: PathView) -> bool {
    low_stem(main).len() > 0 && text::begins_with(low_stem(side), low_stem(main))
}

/// Among the first items, the main file in the sidecar's directory after which
/// the sidecar is named; that with the longest name, and the first of those.
/// That a file is the only one there is no evidence.
pub open spec fn anchor_by_name(
    ds: Seq<DraftView>,
    side: DraftView,
    main: FileClass,
    root: PathView,
    n: int,
) -> Option<int>
    decreases n,
{
    if n <= 0 {
        None
    } else {
        let best = anchor_by_name(ds, side, main, root, n - 1);
        let d = ds[n - 1];
        if may_anchor(d, main, home_of(side, root), root) && named_after(side.source, d.source) && (
        match best {
            Some(b) => low_stem(d.source).len() > low_stem(ds[b].source).len(),
            None => true,
        }) {
            Some(n - 1)
        } else {
            best
        }
    }
}

/// The main file that is found by name is one.
pub proof fn lemma_anchor_by_name(
    ds: Seq<DraftView>,
    side: DraftView,
    main: FileClass,
    root: PathView,
    n: int,
)
    requires
        0 <= n <= ds.len(),
    ensures
        anchor_by_name(ds, side, main, root, n) matches Some(b) ==> 0 <= b < n && may_anchor(
            ds[b],
            main,
            home_of(side, root),
            root,
        ) && named_after(side.source, ds[b].source),
    decreases n,
{
    if n > 0 {
        lemma_anchor_by_name(ds, side, main, root, n - 1);
    }
}

/// The main file after which a sidecar is named.
pub fn find_anchor_by_name<T: Drafted>(items: &Vec<T>, side: usize, root: &FilePath) -> (r: Option<
    usize,
>)
    requires
        side < items@.len(),
    ensures
        match r {
            Some(b) => b < items@.len() && anchor_by_name(
                drafts(items@),
                items@[side as int].draft(),
                T::main_class(),
                root.deep_view(),
                items@.len() as int,
            ) == Some(b as int),
            None => anchor_by_name(
                drafts(items@),
                items@[side as int].draft(),
                T::main_class(),
                root.deep_view(),
                items@.len() as int,
            ) is None,
        },
{
    let ghost ds = drafts(items@);
    let ghost sd = items@[side as int].draft();
    let ghost rv = root.deep_view();
    let dir = directory_of(&items[side], root);
    let stem = lowered_stem(items[side].source());
    let mut best: Option<usize> = None;
    let mut longest: usize = 0;
    let mut i: usize = 0;
    while i < items.len()
        invariant
            i <= items@.len(),
            side < items@.len(),
            ds == drafts(items@),
            sd == items@[side as int].draft(),
            rv == root.deep_view(),
            dir.deep_view() == home_of(sd, rv),
            stem@ == low_stem(sd.source),
            match best {
                Some(b) => b < i && anchor_by_name(ds, sd, T::main_class(), rv, i as int) == Some(
                    b as int,
                ) && longest == low_stem(ds[b as int].source).len(),
                None => anchor_by_name(ds, sd, T::main_class(), rv, i as int) is None,
            },
        decreases items@.len() - i,
    {
        let item = &items[i];
        proof {
            assert(ds[i as int] == item.draft());
        }
        if anchors(item, &dir, root) {
            let name = lowered_stem(item.source());
            if name.len() > 0 && text::starts(&stem, &name) {
                let longer = match best {
                    Some(_) => name.len() > longest,
                    None => true,
                };
                if longer {
                    best = Some(i);
                    longest = name.len();
                }
            }
        }
        i = i + 1;
    }
    best
}

/// The first main file, from a place on, in a directory.
pub open spec fn first_anchor(
    ds: Seq<DraftView>,
    main: FileClass,
    dir: PathView,
    root: PathView,
    from: int,
) -> Option<int>
    decreases ds.len() - from,
{
    if from < 0 || from >= ds.len() {
        None
    } else if may_anchor(ds[from], main, dir, root) {
        Some(from)
    } else {
        first_anchor(ds, main, dir, root, from + 1)
    }
}

/// The first main file that is found is one.
pub proof fn lemma_first_anchor(
    ds: Seq<DraftView>,
    main: FileClass,
    dir: PathView,
    root: PathView,
    from: int,
)
    requires
        0 <= from,
    ensures
        first_anchor(ds, main, dir, root, from) matches Some(b) ==> from <= b < ds.len()
            && may_anchor(ds[b], main, dir, root),
    decreases ds.len() - from,
{
    if from < ds.len() {
        lemma_first_anchor(ds, main, dir, root, from + 1);
    }
}

/// The first main file in a directory.
pub fn find_first_anchor<T: Drafted>(items: &Vec<T>, dir: &FilePath, root: &FilePath) -> (r: Option<
    usize,
>)
    ensures
        match r {
            Some(b) => b < items@.len() && first_anchor(
                drafts(items@),
                T::main_class(),
                dir.deep_view(),
                root.deep_view(),
                0,
            ) == Some(b as int),
            None => first_anchor(
                drafts(items@),
                T::main_class(),
                dir.deep_view(),
                root.deep_view(),
                0,
            ) is None,
        },
{
    let ghost ds = drafts(items@);
    let ghost dv = dir.deep_view();
    let ghost rv = root.deep_view();
    let mut i: usize = 0;
    while i < items.len()
        invariant
            i <= items@.len(),
            ds == drafts(items@),
            dv == dir.deep_view(),
            rv == root.deep_view(),
            first_anchor(ds, T::main_class(), dv, rv, 0) == first_anchor(
                ds,
                T::main_class(),
                dv,
                rv,
                i as int,
            ),
        decreases items@.len() - i,
    {
        proof {
            assert(ds[i as int] == items@[i as int].draft());
        }
        if anchors(&items[i], dir, root) {
            return Some(i);
        }
        i = i + 1;
    }
    None
}

/// Whether a file is a ready main file beside a sidecar whose own stem, letter
/// case aside, the stem of the sidecar begins with.
pub open spec fn stem_leads(
    d: DraftView,
    side: DraftView,
    main: FileClass,
    root: PathView,
) -> bool {
    let home = match d.source.parent() {
        Some(p) => p,
        None => root,
    };
    let place = match side.source.parent() {
        Some(p) => p,
        None => root,
    };
    &&& d.class == main
    &&& d.readiness is Ready
    &&& home == place
    &&& d.source.stem() matches Some(m) && side.source.stem() matches Some(s) && m.len() > 0
        && text::ascii_lowercase(m).is_prefix_of(text::ascii_lowercase(s))
}

/// The search by name finds a main file exactly where the stem of the sidecar
/// begins with that of some ready main file beside it; none of these has a
/// longer stem than the one that is found, and of those as long it is the first.
pub proof fn law_anchor_has_the_longest_leading_stem(
    ds: Seq<DraftView>,
    side: DraftView,
    main: FileClass,
    root: PathView,
)
    ensures
        match anchor_by_name(ds, side, main, root, ds.len() as int) {
            Some(b) => {
                &&& 0 <= b < ds.len()
                &&& stem_leads(ds[b], side, main, root)
                &&& forall|j: int|
                    0 <= j < ds.len() && #[trigger] stem_leads(ds[j], side, main, root) ==> {
                        ||| ds[j].source.stem()->0.len() < ds[b].source.stem()->0.len()
                        ||| ds[j].source.stem()->0.len() == ds[b].source.stem()->0.len() && b <= j
                    }
            },
            None => forall|j: int|
                0 <= j < ds.len() ==> !#[trigger] stem_leads(ds[j], side, main, root),
        },
{
    lemma_longest_among(ds, side, main, root, ds.len() as int);
}

/// The search by name among the first files.
proof fn lemma_longest_among(
    ds: Seq<DraftView>,
    side: DraftView,
    main: FileClass,
    root: PathView,
    n: int,
)
    requires
        0 <= n <= ds.len(),
    ensures
        match anchor_by_name(ds, side, main, root, n) {
            Some(b) => {
                &&& 0 <= b < n
                &&& stem_leads(ds[b], side, main, root)
                &&& forall|j: int|
                    0 <= j < n && #[trigger] stem_leads(ds[j], side, main, root) ==> {
                        ||| ds[j].source.stem()->0.len() < ds[b].source.stem()->0.len()
                        ||| ds[j].source.stem()->0.len() == ds[b].source.stem()->0.len() && b <= j
                    }
            },
            None => forall|j: int|
                0 <= j < n ==> !#[trigger] stem_leads(ds[j], side, main, root),
        },
    decreases n,
{
    if n > 0 {
        lemma_longest_among(ds, side, main, root, n - 1);
        let d = ds[n - 1];
        let s = low_stem(side.source);
        let m = low_stem(d.source);
        if text::begins_with(s, m) {
            assert(m.is_prefix_of(s));
        }
        if m.is_prefix_of(s) {
            assert(s.take(m.len() as int) =~= m);
        }
    }
}

/// The first main file that is found in a directory is ready and in it, and the
/// first that is; none is found where none is.
pub proof fn law_first_anchor_is_the_first(
    ds: Seq<DraftView>,
    main: FileClass,
    dir: PathView,
    root: PathView,
)
    ensures
        match first_anchor(ds, main, dir, root, 0) {
            Some(b) => {
                &&& 0 <= b < ds.len()
                &&& is_ready_in(ds[b], main, dir, root)
                &&& forall|j: int| 0 <= j < b ==> !#[trigger] is_ready_in(ds[j], main, dir, root)
            },
            None => forall|j: int|
                0 <= j < ds.len() ==> !#[trigger] is_ready_in(ds[j], main, dir, root),
        },
{
    lemma_first_from(ds, main, dir, root, 0);
}

/// Whether a file is a ready main file in a directory.
pub open spec fn is_ready_in(d: DraftView, main: FileClass, dir: PathView, root: PathView) -> bool {
    let home = match d.source.parent() {
        Some(p) => p,
        None => root,
    };
    d.class == main && d.readiness is Ready && home == dir
}

/// The first main file from a place on.
proof fn lemma_first_from(
    ds: Seq<DraftView>,
    main: FileClass,
    dir: PathView,
    root: PathView,
    from: int,
)
    requires
        0 <= from,
    ensures
        match first_anchor(ds, main, dir, root, from) {
            Some(b) => {
                &&& from <= b < ds.len()
                &&& is_ready_in(ds[b], main, dir, root)
                &&& forall|j: int| from <= j < b ==> !#[trigger] is_ready_in(ds[j], main, dir, root)
            },
            None => forall|j: int|
                from <= j < ds.len() ==> !#[trigger] is_ready_in(ds[j], main, dir, root),
        },
    decreases ds.len() - from,
{
    if from < ds.len() {
        lemma_first_from(ds, main, dir, root, from + 1);
    }
}

} // verus!
