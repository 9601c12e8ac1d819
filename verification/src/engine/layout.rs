//! From the components of a destination to its path.

use crate::domain::duplicate::Duplicate;
use crate::domain::path::{
    components, default_map, is_proper, join_components, joined_under, lemma_default_map_is_clear,
    no_control, no_separator, path_of, resolved, safe_name, sanitise_component, FilePath, PathView,
    SanitiseMap,
};
use crate::domain::provenance::{Field, FieldView};
use crate::domain::volume::VolumeSemantics;
use crate::engine::reconcile::{all_parts, part_keys};
use crate::engine::validate::is_contained;
use crate::text;
use crate::text::CharClass;
use vstd::prelude::*;

verus! {

/// The greatest number, up to a given one, of last components of a root that
/// are the first ones of a destination.
pub open spec fn overlap_upto(root: Seq<Seq<char>>, dest: Seq<Seq<char>>, k: int) -> int
    decreases k,
{
    if k <= 0 {
        0
    } else if k <= root.len() && k <= dest.len() && root.skip(root.len() - k) == dest.take(k) {
        k
    } else {
        overlap_upto(root, dest, k - 1)
    }
}

/// How many components of a destination the root already satisfies.
pub open spec fn overlap(root: PathView, parts: Seq<Seq<char>>, v: VolumeSemantics) -> int {
    overlap_upto(part_keys(all_parts(root), v), part_keys(parts, v), parts.len() as int)
}

/// The keys of components.
fn keys_of(parts: &Vec<String>, volume: &VolumeSemantics, absolute: bool) -> (r: Vec<String>)
    ensures
        r.deep_view() == part_keys(
            all_parts(PathView { absolute, parts: parts.deep_view() }),
            *volume,
        ),
{
    let ghost v = parts.deep_view();
    let ghost all = all_parts(PathView { absolute, parts: v });
    let ghost want = part_keys(all, *volume);
    let mut out: Vec<String> = Vec::new();
    if absolute {
        out.push(volume.collision_key("/"));
        proof {
            reveal_strlit("/");
            assert("/"@ =~= seq!['/']);
        }
    }
    let ghost shift = out@.len() as int;
    let mut i: usize = 0;
    proof {
        assert(out.deep_view() =~= want.take(shift));
    }
    while i < parts.len()
        invariant
            i <= parts@.len(),
            v == parts.deep_view(),
            all == all_parts(PathView { absolute, parts: v }),
            want == part_keys(all, *volume),
            shift == (if absolute {
                1int
            } else {
                0int
            }),
            out.deep_view() == want.take(shift + i),
        decreases parts@.len() - i,
    {
        let ghost before = out.deep_view();
        out.push(volume.collision_key(&parts[i]));
        proof {
            assert(all[shift + i] == v[i as int]);
            assert(out.deep_view() =~= before.push(want[shift + i]));
            assert(out.deep_view() =~= want.take(shift + i + 1));
        }
        i = i + 1;
    }
    proof {
        assert(want.take(shift + i) =~= want);
    }
    out
}

/// Whether the last `k` components of a root are the first of a destination.
fn overlaps(root: &Vec<String>, dest: &Vec<String>, k: usize) -> (r: bool)
    requires
        k <= root@.len(),
        k <= dest@.len(),
    ensures
        r == (root.deep_view().skip(root@.len() - k) == dest.deep_view().take(k as int)),
{
    let ghost a = root.deep_view().skip(root@.len() - k);
    let ghost b = dest.deep_view().take(k as int);
    let total: usize = root.len();
    let start: usize = total - k;
    let mut i: usize = 0;
    while i < k
        invariant
            i <= k,
            k <= root@.len(),
            k <= dest@.len(),
            total == root@.len(),
            start == total - k,
            a == root.deep_view().skip(start as int),
            b == dest.deep_view().take(k as int),
            forall|j: int| 0 <= j < i ==> a[j] == b[j],
        decreases k - i,
    {
        proof {
            assert(a[i as int] == root@[start + i]@);
            assert(b[i as int] == dest@[i as int]@);
        }
        if !text::same_text(&root[start + i], &dest[i]) {
            return false;
        }
        i = i + 1;
    }
    proof {
        assert(a =~= b);
    }
    true
}

/// How many components of a destination the root already satisfies.
fn count_overlap(root: &FilePath, parts: &Vec<String>, volume: &VolumeSemantics) -> (r: usize)
    ensures
        r == overlap(root.deep_view(), parts.deep_view(), *volume),
        r <= parts@.len(),
{
    let rk = keys_of(&root.parts, volume, root.absolute);
    let pk = keys_of(parts, volume, false);
    let ghost rv = rk.deep_view();
    let ghost pv = pk.deep_view();
    proof {
        assert(all_parts(root.deep_view()) == all_parts(
            PathView { absolute: root.absolute, parts: root.parts.deep_view() },
        ));
        assert(rv == part_keys(all_parts(root.deep_view()), *volume));
        assert(pv == part_keys(parts.deep_view(), *volume));
        assert(pv.len() == parts@.len());
    }
    let mut k: usize = parts.len();
    while k > 0
        invariant
            k <= parts@.len(),
            rv == rk.deep_view(),
            pv == pk.deep_view(),
            pk@.len() == parts@.len(),
            overlap(root.deep_view(), parts.deep_view(), *volume) == overlap_upto(
                rv,
                pv,
                k as int,
            ),
        decreases k,
    {
        if k <= rk.len() && overlaps(&rk, &pk, k) {
            return k;
        }
        k = k - 1;
    }
    0
}

/// The components of a destination without those that the root already
/// satisfies, so that a root that is itself a level of the layout is not
/// nested in itself.
pub fn strip_root_prefix(parts: Vec<String>, root: &FilePath, volume: &VolumeSemantics) -> (r: Vec<
    String,
>)
    ensures
        r.deep_view() == parts.deep_view().skip(
            overlap(root.deep_view(), parts.deep_view(), *volume),
        ),
{
    let k: usize = count_overlap(root, &parts, volume);
    let ghost v = parts.deep_view();
    let mut out: Vec<String> = Vec::new();
    let mut i: usize = k;
    proof {
        assert(out.deep_view() =~= v.subrange(k as int, k as int));
    }
    while i < parts.len()
        invariant
            k <= i <= parts@.len(),
            v == parts.deep_view(),
            out.deep_view() == v.subrange(k as int, i as int),
        decreases parts@.len() - i,
    {
        let ghost before = out.deep_view();
        out.push(parts[i].clone());
        proof {
            assert(out.deep_view() =~= before.push(v[i as int]));
            assert(out.deep_view() =~= v.subrange(k as int, i + 1));
        }
        i = i + 1;
    }
    proof {
        assert(v.subrange(k as int, i as int) =~= v.skip(k as int));
    }
    out
}

/// A path with an extension added to its last component.
pub open spec fn with_extension(p: PathView, ext: Seq<char>) -> PathView {
    match p.file_name() {
        Some(name) if ext.len() > 0 => PathView {
            absolute: p.absolute,
            parts: p.parts.drop_last().push(name + "."@ + ext),
        },
        _ => p,
    }
}

/// A path with an extension added to its last component.
pub fn add_extension(p: &FilePath, ext: &str) -> (r: FilePath)
    ensures
        r.deep_view() == with_extension(p.deep_view(), ext@),
{
    if text::to_chars(ext).len() == 0 {
        return p.duplicate();
    }
    match (p.file_name(), p.parent()) {
        (Some(name), Some(parent)) => {
            let r = parent.child(&name.to_string().concat(".").concat(ext));
            proof {
                assert(r.deep_view() == with_extension(p.deep_view(), ext@));
            }
            r
        },
        _ => p.duplicate(),
    }
}

/// Where a file with the given components goes: its path, and its path from
/// the root.
pub open spec fn placed(
    root: PathView,
    parts: Seq<Seq<char>>,
    ext: Seq<char>,
    v: VolumeSemantics,
) -> (PathView, PathView) {
    let relative = joined_under(PathView::empty(), parts.skip(overlap(root, parts, v)));
    (with_extension(root.join(relative), ext), with_extension(relative, ext))
}

/// Where a file with the given components goes: its path, and its path from
/// the root.
pub fn place(root: &FilePath, parts: Vec<String>, original: &FilePath, volume: &VolumeSemantics) -> (r:
    (FilePath, FilePath))
    ensures
        (r.0.deep_view(), r.1.deep_view()) == placed(
            root.deep_view(),
            parts.deep_view(),
            extension_or_empty(original.deep_view()),
            *volume,
        ),
{
    let ext = match original.extension() {
        Some(e) => e,
        None => {
            proof {
                reveal_strlit("");
            }
            "".to_string()
        },
    };
    proof {
        reveal_strlit("");
        assert(ext@ =~= extension_or_empty(original.deep_view()));
    }
    let rest = strip_root_prefix(parts, root, volume);
    let relative = join_components(&FilePath::empty(), &rest);
    let absolute = root.join(&relative);
    (add_extension(&absolute, &ext), add_extension(&relative, &ext))
}

/// The extension of a path, or nothing.
pub open spec fn extension_or_empty(p: PathView) -> Seq<char> {
    match p.extension() {
        Some(e) => e,
        None => Seq::empty(),
    }
}

/// A name that is safe as a component on a volume, if anything is left of it.
pub open spec fn safe(name: Seq<char>, v: VolumeSemantics) -> Option<Seq<char>> {
    let s = safe_name(name, default_map(), v.max_component);
    if s.len() == 0 {
        None
    } else {
        Some(s)
    }
}

/// A name that is safe as a component on a volume, if anything is left of it.
pub fn safe_component(name: &str, volume: &VolumeSemantics) -> (r: Option<String>)
    ensures
        r.deep_view() == safe(name@, *volume),
        r matches Some(n) ==> is_proper(n@) && no_separator(n@) && no_control(n@),
        r matches Some(n) ==> is_one_component(n@),
{
    proof {
        lemma_default_map_is_clear();
    }
    let r = sanitise_component(name, &SanitiseMap::default(), volume.max_component);
    proof {
        let set = seq!['.', ' '];
        assert(set[0] == '.');
        assert(set.contains('.'));
    }
    r
}

/// Two components, where there are both.
pub open spec fn both(a: Option<Seq<char>>, b: Option<Seq<char>>) -> Option<Seq<Seq<char>>> {
    match (a, b) {
        (Some(x), Some(y)) => Some(seq![x, y]),
        _ => None,
    }
}

/// Two components, where there are both.
pub fn pair(a: Option<String>, b: Option<String>) -> (r: Option<Vec<String>>)
    ensures
        r.deep_view() == both(a.deep_view(), b.deep_view()),
{
    match (a, b) {
        (Some(x), Some(y)) => {
            let ghost want = seq![x@, y@];
            let v = vec![x, y];
            proof {
                assert(v.deep_view() =~= want);
            }
            Some(v)
        },
        _ => None,
    }
}

/// Components with one more, where there are all.
pub open spec fn extended(a: Option<Seq<Seq<char>>>, b: Option<Seq<char>>) -> Option<Seq<Seq<char>>> {
    match (a, b) {
        (Some(list), Some(x)) => Some(list.push(x)),
        _ => None,
    }
}

/// Components with one more, where there are all.
pub fn extend(a: Option<Vec<String>>, b: Option<String>) -> (r: Option<Vec<String>>)
    ensures
        r.deep_view() == extended(a.deep_view(), b.deep_view()),
{
    match (a, b) {
        (Some(list), Some(x)) => {
            let mut out = list;
            let ghost before = out.deep_view();
            out.push(x);
            proof {
                assert(out.deep_view() =~= before.push(x@));
            }
            Some(out)
        },
        _ => None,
    }
}

/// A known value behind a dash, else nothing.
pub open spec fn dashed(f: FieldView<Seq<char>>) -> Seq<char> {
    match f.ok() {
        Some(v) => " - "@ + v,
        None => Seq::empty(),
    }
}

/// Appends a known value behind a dash.
pub fn push_dashed(out: &mut String, f: &Field<String>)
    ensures
        final(out)@ == old(out)@ + dashed(f.deep_view()),
{
    let ghost before = out@;
    if let Some(v) = f.as_value() {
        out.append(" - ");
        out.append(v);
        proof {
            assert(out@ =~= before + (" - "@ + v@));
        }
    } else {
        proof {
            assert(out@ =~= before + Seq::empty());
        }
    }
}

/// The value of a text field.
pub fn text_value(f: &Field<String>) -> (r: Option<String>)
    ensures
        r.deep_view() == f.deep_view().ok(),
{
    match f.as_value() {
        Some(v) => Some(v.clone()),
        None => None,
    }
}

/// The value of a number field, in digits.
pub open spec fn digits(f: FieldView<u16>) -> Option<Seq<char>> {
    match f.ok() {
        Some(n) => Some(text::decimal(n as nat)),
        None => None,
    }
}

/// The value of a number field, in digits.
pub fn number_value(f: &Field<u16>) -> (r: Option<String>)
    ensures
        r.deep_view() == digits(f.deep_view()),
{
    match f.as_value() {
        Some(n) => Some(text::decimal_text(*n as u64)),
        None => None,
    }
}

/// What is placed by a path from the root that is contained lies under the
/// root.
pub proof fn law_contained_place_is_under_root(
    root: PathView,
    parts: Seq<Seq<char>>,
    ext: Seq<char>,
    v: VolumeSemantics,
)
    requires
        is_contained(placed(root, parts, ext, v).1),
    ensures
        placed(root, parts, ext, v).0 == root.join(placed(root, parts, ext, v).1),
        placed(root, parts, ext, v).0.starts_with(root),
        placed(root, parts, ext, v).0.parts.len() > root.parts.len(),
{
    let relative = joined_under(PathView::empty(), parts.skip(overlap(root, parts, v)));
    let (a, r) = placed(root, parts, ext, v);
    assert(r.parts.len() > 0) by {
        if r.parts.len() == 0 {
            assert(resolved(r.parts) == Some(Seq::<Seq<char>>::empty()));
        }
    }
    assert(relative.parts.len() == r.parts.len());
    let joined = root.join(relative);
    assert(joined.parts.last() == relative.parts.last());
    assert(joined.parts.drop_last() =~= root.parts + relative.parts.drop_last());
    assert(a.parts =~= root.parts + r.parts);
    assert(a.parts.take(root.parts.len() as int) =~= root.parts);
}

/// Whether a name stays one component: there is something of it, no slash, and
/// it does not begin with a dot.
pub open spec fn is_one_component(s: Seq<char>) -> bool {
    s.len() > 0 && s[0] != '.' && no_separator(s)
}

/// A name that stays one component is the path of that component.
proof fn lemma_path_of_component(s: Seq<char>)
    requires
        is_one_component(s),
    ensures
        path_of(s) == (PathView { absolute: false, parts: seq![s] }),
        s != seq!['.', '.'],
{
    let slash = CharClass::Is('/');
    text::lemma_first_where(s, slash, true);
    let i = text::first_where(s, slash, true);
    assert(!(0 <= i < s.len())) by {
        if 0 <= i < s.len() {
            assert(s[i] != '/');
        }
    }
    let pieces = text::split(s, slash);
    assert(pieces =~= seq![s]);
    assert(s != seq!['.']);
    assert(pieces.drop_last() =~= Seq::empty());
    assert(components(pieces.drop_last()) =~= Seq::empty());
    assert(components(pieces) =~= seq![s]);
}

/// Components that stay one each make up the path.
proof fn lemma_joined_components(parts: Seq<Seq<char>>)
    requires
        forall|i: int| 0 <= i < parts.len() ==> is_one_component(#[trigger] parts[i]),
    ensures
        joined_under(PathView::empty(), parts) == (PathView { absolute: false, parts }),
    decreases parts.len(),
{
    if parts.len() == 0 {
        assert(PathView::empty().parts =~= parts);
    } else {
        let head = parts.drop_last();
        assert forall|i: int| 0 <= i < head.len() implies is_one_component(#[trigger] head[i]) by {
            assert(head[i] == parts[i]);
        }
        lemma_joined_components(head);
        assert(is_one_component(parts[parts.len() - 1]));
        lemma_path_of_component(parts.last());
        assert(head + seq![parts.last()] =~= parts);
    }
}

/// Whether no component of a path is called as a name, on a volume.
pub open spec fn nothing_called(root: PathView, name: Seq<char>, v: VolumeSemantics) -> bool {
    &&& root.absolute ==> v.key(seq!['/']) != v.key(name)
    &&& forall|i: int| 0 <= i < root.parts.len() ==> v.key(#[trigger] root.parts[i]) != v.key(name)
}

/// A file goes to the place that its components say: they stand under the root
/// one inside the other in their order, and the last has the extension of the
/// file. So it is where no component of the root is called as the first of them.
pub proof fn law_components_stand_in_order(
    root: PathView,
    parts: Seq<Seq<char>>,
    ext: Seq<char>,
    v: VolumeSemantics,
)
    requires
        parts.len() > 0,
        forall|i: int| 0 <= i < parts.len() ==> is_one_component(#[trigger] parts[i]),
        nothing_called(root, parts[0], v),
    ensures
        ({
            let (absolute, relative) = placed(root, parts, ext, v);
            let name = if ext.len() > 0 {
                parts.last() + "."@ + ext
            } else {
                parts.last()
            };
            &&& !relative.absolute
            &&& relative.parts == parts.drop_last().push(name)
            &&& absolute.absolute == root.absolute
            &&& absolute.parts == root.parts + parts.drop_last().push(name)
        }),
{
    let rk = part_keys(all_parts(root), v);
    let pk = part_keys(parts, v);
    assert forall|i: int| 0 <= i < rk.len() implies #[trigger] rk[i] != pk[0] by {
        if root.absolute {
            if i > 0 {
                assert(all_parts(root)[i] == root.parts[i - 1]);
            }
        }
    }
    lemma_no_overlap(rk, pk, parts.len() as int);
    assert(parts.skip(0) =~= parts);
    lemma_joined_components(parts);
    assert(is_one_component(parts[parts.len() - 1]));
    lemma_path_of_component(parts.last());
    let relative = PathView { absolute: false, parts };
    assert(relative.file_name() == Some(parts.last()));
    let joined = root.join(relative);
    assert(joined.parts.last() == parts.last());
    assert(joined.parts.drop_last() =~= root.parts + parts.drop_last());
    let (a, r) = placed(root, parts, ext, v);
    let name = if ext.len() > 0 {
        parts.last() + "."@ + ext
    } else {
        parts.last()
    };
    assert(r.parts =~= parts.drop_last().push(name));
    assert(a.parts =~= root.parts + parts.drop_last().push(name));
}

/// Nothing of a destination is satisfied by a root that has nothing called as
/// its first component.
proof fn lemma_no_overlap(root: Seq<Seq<char>>, dest: Seq<Seq<char>>, k: int)
    requires
        dest.len() > 0,
        forall|i: int| 0 <= i < root.len() ==> #[trigger] root[i] != dest[0],
    ensures
        overlap_upto(root, dest, k) == 0,
    decreases k,
{
    if k > 0 {
        if k <= root.len() && k <= dest.len() {
            let tail = root.skip(root.len() - k);
            assert(tail[0] == root[root.len() - k]);
            assert(dest.take(k)[0] == dest[0]);
        }
        lemma_no_overlap(root, dest, k - 1);
    }
}

/// A file keeps its extension where it goes, as it is spelt.
pub proof fn law_placed_file_keeps_its_extension(
    root: PathView,
    parts: Seq<Seq<char>>,
    original: PathView,
    v: VolumeSemantics,
)
    requires
        parts.len() > 0,
        forall|i: int| 0 <= i < parts.len() ==> is_one_component(#[trigger] parts[i]),
        nothing_called(root, parts[0], v),
        original.extension() is Some,
        original.extension()->0.len() > 0,
    ensures
        placed(root, parts, extension_or_empty(original), v).0.extension() == original.extension(),
        placed(root, parts, extension_or_empty(original), v).0.stem() == Some(parts.last()),
{
    let e = original.extension()->0;
    let name = original.file_name()->0;
    reveal_strlit(".");
    law_components_stand_in_order(root, parts, e, v);
    crate::domain::path::law_name_is_stem_and_extension(name);
    assert(is_one_component(parts[parts.len() - 1]));
    assert("."@ =~= seq!['.']);
    crate::domain::path::law_extension_is_read_back(parts.last(), e);
    let to = placed(root, parts, e, v).0;
    let file = parts.last() + "."@ + e;
    assert(to.parts.last() == file);
    assert(file[0] == parts.last()[0]);
    assert(file != seq!['.', '.']);
}

} // verus!
