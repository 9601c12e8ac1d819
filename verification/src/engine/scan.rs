//! Scan stage.

use crate::domain::classify::FileClass;
use crate::domain::config::{Config, SymlinkPolicy};
use crate::domain::duplicate::Duplicate;
use crate::domain::error::{Diagnostic, DiagnosticView, Severity};
use crate::domain::fs::{
    describes, goes_on, is_dir, is_file, is_whole, list_call, lists_dir, lists_each_once,
    lists_first, only_asks, Call, DirEntry, FileId, FileMeta, FileSystem, IoError, IoErrorView,
    NodeView, Tree,
};
use crate::domain::path::{FilePath, PathView};
use crate::engine::classify::{class_of_file, classify_one};
use crate::text;
use vstd::prelude::*;

verus! {

/// How many levels of containers below the root are descended into. The limits
/// keep the walk out of unrelated and cyclic trees.
pub const CONTAINER_LEVELS: u32 = 8;

/// How many levels beneath a media folder are descended into.
pub const MEDIA_LEVELS: u32 = 3;

/// How far the walk may go on from a directory: through so many levels of
/// containers, or, beneath a media folder, through so many levels.
#[derive(Debug, Clone, Copy, PartialEq, Eq, Structural)]
pub enum Reach {
    Containers(u32),
    Beneath(u32),
}

impl Reach {
    /// A number that goes down with every level.
    pub open spec fn rank(self) -> nat {
        match self {
            Reach::Containers(k) => k as nat + 1 + MEDIA_LEVELS as nat,
            Reach::Beneath(n) => n as nat,
        }
    }

    /// Whether the walk gets no further than with another reach.
    pub open spec fn is_within(self, other: Reach) -> bool {
        match (self, other) {
            (Reach::Containers(j), Reach::Containers(k)) => j <= k,
            (Reach::Beneath(m), Reach::Beneath(n)) => m <= n,
            (Reach::Beneath(m), Reach::Containers(k)) => m <= k && m <= MEDIA_LEVELS,
            (Reach::Containers(_), Reach::Beneath(_)) => false,
        }
    }
}

/// A number that goes down with every level.
pub open spec fn rank_of(next: Option<Reach>) -> nat {
    match next {
        Some(z) => z.rank() + 1,
        None => 0,
    }
}

/// Whether a class is that of media.
pub open spec fn is_media(c: FileClass) -> bool {
    c == FileClass::Video || c == FileClass::Audio
}

/// Whether a media file that is not hidden stands directly under a directory.
pub open spec fn holds_media(t: Tree, root: PathView, dir: PathView, cfg: Config, q: PathView) -> bool {
    q.is_child_of(dir) && is_file(t, q) && !hidden(root, q) && is_media(class_of_file(q, cfg))
}

/// Whether a directory is a media folder: one below the root under which a
/// media file stands directly.
pub open spec fn is_media_folder(t: Tree, root: PathView, dir: PathView, cfg: Config) -> bool {
    dir != root && exists|q: PathView| #[trigger] holds_media(t, root, dir, cfg, q)
}

/// How far the walk may go on from the directories under one, if it may.
pub open spec fn onward(t: Tree, root: PathView, dir: PathView, cfg: Config, z: Reach) -> Option<
    Reach,
> {
    match z {
        Reach::Beneath(n) => if n > 0 {
            Some(Reach::Beneath((n - 1) as u32))
        } else {
            None
        },
        Reach::Containers(k) => if is_media_folder(t, root, dir, cfg) {
            Some(Reach::Beneath((MEDIA_LEVELS - 1) as u32))
        } else if k > 0 {
            Some(Reach::Containers((k - 1) as u32))
        } else {
            None
        },
    }
}

/// Whether the walk goes on from the directories under one no further than it
/// may.
pub open spec fn goes_within(next: Option<Reach>, may: Option<Reach>) -> bool {
    next matches Some(n) ==> may matches Some(m) && n.is_within(m)
}

/// A file discovered during scanning.
#[derive(Debug, Clone)]
pub struct ScannedFile {
    pub absolute: FilePath,
    pub relative: FilePath,
    pub class: FileClass,
    pub meta: FileMeta,
}

/// The contents of a [`ScannedFile`].
#[verifier::ext_equal]
pub struct ScannedView {
    pub absolute: PathView,
    pub relative: PathView,
    pub class: FileClass,
    pub meta: FileMeta,
}

impl DeepView for ScannedFile {
    type V = ScannedView;

    open spec fn deep_view(&self) -> ScannedView {
        ScannedView {
            absolute: self.absolute.deep_view(),
            relative: self.relative.deep_view(),
            class: self.class,
            meta: self.meta,
        }
    }
}

/// The contents of scanned files.
pub open spec fn scanned_views(list: Seq<ScannedFile>) -> Seq<ScannedView> {
    Seq::new(list.len(), |i: int| list[i].deep_view())
}

/// Whether a pattern matches a text: `*` stands for any sequence of
/// characters, `?` for one.
pub open spec fn glob(pat: Seq<char>, s: Seq<char>) -> bool
    decreases pat.len() + s.len(),
{
    if pat.len() == 0 {
        s.len() == 0
    } else if pat[0] == '*' {
        glob(pat.skip(1), s) || (s.len() > 0 && glob(pat, s.skip(1)))
    } else {
        s.len() > 0 && (pat[0] == '?' || pat[0] == s[0]) && glob(pat.skip(1), s.skip(1))
    }
}

/// Whether the rest of a pattern matches the rest of a text.
fn glob_from(pat: &Vec<char>, i: usize, s: &Vec<char>, j: usize) -> (r: bool)
    requires
        i <= pat@.len(),
        j <= s@.len(),
    ensures
        r == glob(pat@.skip(i as int), s@.skip(j as int)),
    decreases pat@.len() - i + s@.len() - j,
{
    let ghost p = pat@.skip(i as int);
    let ghost t = s@.skip(j as int);
    if i == pat.len() {
        return j == s.len();
    }
    proof {
        assert(p[0] == pat@[i as int]);
        assert(p.skip(1) =~= pat@.skip(i + 1));
        if j < s@.len() {
            assert(t[0] == s@[j as int]);
            assert(t.skip(1) =~= s@.skip(j + 1));
        }
    }
    if pat[i] == '*' {
        glob_from(pat, i + 1, s, j) || (j < s.len() && glob_from(pat, i, s, j + 1))
    } else {
        j < s.len() && (pat[i] == '?' || pat[i] == s[j]) && glob_from(pat, i + 1, s, j + 1)
    }
}

/// Whether a pattern matches a text: `*` matches any sequence, `?` matches one
/// character.
pub fn glob_match(pat: &str, s: &str) -> (r: bool)
    ensures
        r == glob(pat@, s@),
{
    let p = text::to_chars(pat);
    let t = text::to_chars(s);
    proof {
        assert(p@.skip(0) =~= pat@);
        assert(t@.skip(0) =~= s@);
    }
    glob_from(&p, 0, &t, 0)
}

/// The names that are never scanned.
pub open spec fn ignore_patterns() -> Seq<Seq<char>> {
    seq![
        ".git"@,
        "@eaDir"@,
        "#recycle"@,
        ".Trash*"@,
        "lost+found"@,
        "*.part"@,
        "*.!qB"@,
        "*.tmp"@,
    ]
}

/// The names that are never scanned.
pub fn default_ignore_patterns() -> (r: Vec<&'static str>)
    ensures
        r@.len() == ignore_patterns().len(),
        forall|i: int| 0 <= i < r@.len() ==> (#[trigger] r@[i])@ == ignore_patterns()[i],
{
    vec![
        ".git",
        "@eaDir",
        "#recycle",
        ".Trash*",
        "lost+found",
        "*.part",
        "*.!qB",
        "*.tmp",
    ]
}

/// Whether a name, or the path from the root, is never scanned.
pub open spec fn ignored(relative: Seq<char>, name: Seq<char>) -> bool {
    exists|i: int|
        0 <= i < ignore_patterns().len() && (glob(#[trigger] ignore_patterns()[i], name) || glob(
            ignore_patterns()[i],
            relative,
        ))
}

/// Whether a name, or the path from the root, is never scanned.
pub fn is_ignored(relative: &FilePath, file_name: &str) -> (r: bool)
    ensures
        r == ignored(relative.deep_view().text(), file_name@),
{
    let patterns = default_ignore_patterns();
    let path = relative.to_text();
    let mut i: usize = 0;
    while i < patterns.len()
        invariant
            i <= patterns@.len(),
            path@ == relative.deep_view().text(),
            patterns@.len() == ignore_patterns().len(),
            forall|k: int|
                0 <= k < patterns@.len() ==> (#[trigger] patterns@[k])@ == ignore_patterns()[k],
            forall|k: int|
                0 <= k < i ==> !glob(#[trigger] ignore_patterns()[k], file_name@) && !glob(
                    ignore_patterns()[k],
                    path@,
                ),
        decreases patterns@.len() - i,
    {
        if glob_match(patterns[i], file_name) || glob_match(patterns[i], &path) {
            proof {
                assert(patterns@[i as int]@ == ignore_patterns()[i as int]);
            }
            return true;
        }
        i = i + 1;
    }
    false
}

/// The path from the root; the path itself where it is not under it.
pub open spec fn from_root(root: PathView, p: PathView) -> PathView {
    match p.strip_prefix(root) {
        Some(rel) => rel,
        None => p,
    }
}

/// The path from the root; the path itself where it is not under it.
fn make_relative(root: &FilePath, absolute: &FilePath) -> (r: FilePath)
    ensures
        r.deep_view() == from_root(root.deep_view(), absolute.deep_view()),
{
    match absolute.strip_prefix(root) {
        Some(rel) => rel,
        None => absolute.duplicate(),
    }
}

/// Whether something is never scanned.
pub open spec fn hidden(root: PathView, p: PathView) -> bool {
    ignored(from_root(root, p).text(), p.parts.last())
}

/// Whether a directory is descended into from the one above it.
pub open spec fn opens(t: Tree, root: PathView, dir: PathView, d: PathView) -> bool {
    d.is_child_of(dir) && is_dir(t, d) && !hidden(root, d)
}

/// Whether the walk gets from a directory to something, as far as it may go.
pub open spec fn reaches(
    t: Tree,
    root: PathView,
    dir: PathView,
    q: PathView,
    cfg: Config,
    z: Reach,
) -> bool
    decreases z.rank(),
{
    ||| q.is_child_of(dir) && t.dom().contains(q) && !hidden(root, q)
    ||| onward(t, root, dir, cfg, z) matches Some(n) && exists|d: PathView| #[trigger]
        opens(t, root, dir, d) && reaches(t, root, d, q, cfg, n)
}

/// Whether something is among the scanned files.
pub open spec fn listed(out: Seq<ScannedFile>, q: PathView) -> bool {
    exists|k: int| 0 <= k < out.len() && (#[trigger] out[k]).absolute.deep_view() == q
}

/// Whether a link that is not hidden leads from a directory to something.
pub open spec fn links(t: Tree, root: PathView, dir: PathView, l: PathView, to: PathView) -> bool {
    &&& l.is_child_of(dir)
    &&& !hidden(root, l)
    &&& t.dom().contains(l)
    &&& t[l] == (NodeView::Symlink { target: to })
}

/// Whether a directory is descended into from the one above it, or from one
/// with a link to it where links are followed.
pub open spec fn opens_by(
    t: Tree,
    root: PathView,
    dir: PathView,
    d: PathView,
    policy: SymlinkPolicy,
) -> bool {
    ||| opens(t, root, dir, d)
    ||| policy == SymlinkPolicy::Follow && is_dir(t, d) && exists|l: PathView|
        links(t, root, dir, l, d)
}

/// Whether the walk from a directory, as far as it may go, finds something: a
/// file, a link where those are taken as files, or what a link leads to where
/// they are followed. What a link leads to has the place of the link under the
/// root.
pub open spec fn finds(
    t: Tree,
    root: PathView,
    dir: PathView,
    f: ScannedView,
    cfg: Config,
    z: Reach,
) -> bool
    decreases z.rank(),
{
    let policy = cfg.behaviour.symlinks;
    ||| {
        &&& f.absolute.is_child_of(dir)
        &&& t.dom().contains(f.absolute)
        &&& !hidden(root, f.absolute)
        &&& is_file(t, f.absolute) || policy == SymlinkPolicy::TreatAsFile && !is_dir(
            t,
            f.absolute,
        )
        &&& f.relative == from_root(root, f.absolute)
    }
    ||| {
        &&& policy == SymlinkPolicy::Follow
        &&& t.dom().contains(f.absolute)
        &&& !is_dir(t, f.absolute)
        &&& exists|l: PathView| #[trigger]
            links(t, root, dir, l, f.absolute) && f.relative == from_root(root, l)
    }
    ||| onward(t, root, dir, cfg, z) matches Some(n) && exists|d: PathView| #[trigger]
        opens_by(t, root, dir, d, policy) && finds(t, root, d, f, cfg, n)
}

/// Whether what has been scanned from a place on is what the walk finds, told
/// rightly.
pub open spec fn sound(
    t: Tree,
    root: PathView,
    dir: PathView,
    cfg: Config,
    z: Reach,
    out: Seq<ScannedFile>,
    from: int,
) -> bool {
    forall|k: int|
        from <= k < out.len() ==> {
            let f = #[trigger] out[k].deep_view();
            &&& finds(t, root, dir, f, cfg, z)
            &&& f.class == FileClass::Unknown
            &&& describes(f.meta, t[f.absolute])
        }
}

/// Whether something lies at or under what could not be read.
pub open spec fn excused(unread: Seq<(PathView, IoErrorView)>, q: PathView) -> bool {
    exists|k: int| 0 <= k < unread.len() && q.starts_with((#[trigger] unread[k]).0)
}

/// Whether every file that the walk gets to has been scanned, but for those at
/// or under what could not be read.
pub open spec fn complete(
    t: Tree,
    root: PathView,
    dir: PathView,
    cfg: Config,
    z: Reach,
    unread: Seq<(PathView, IoErrorView)>,
    out: Seq<ScannedFile>,
) -> bool {
    forall|q: PathView|
        is_file(t, q) && #[trigger] reaches(t, root, dir, q, cfg, z) ==> listed(out, q) || excused(
            unread,
            q,
        )
}

/// Whether nothing could not be read but links.
pub open spec fn only_links(t: Tree, unread: Seq<(PathView, IoErrorView)>) -> bool {
    forall|k: int|
        0 <= k < unread.len() ==> t.dom().contains((#[trigger] unread[k]).0) && t[unread[k].0]
            is Symlink
}

/// Whether a call failed to learn something of a path: a listing that failed or
/// left an entry out, or a file of which nothing could be learnt.
pub open spec fn fails_at(c: Call, p: PathView) -> bool {
    match c {
        Call::List { path, done, whole } => path == p && !(done && whole),
        Call::Stat { path, len } => path == p && len is None,
        _ => false,
    }
}

/// Whether what could not be read is a link, or was asked for in vain. On a
/// steady file system it is a link.
pub open spec fn unread_rightly(
    t: Tree,
    h0: Seq<Call>,
    h1: Seq<Call>,
    unread: Seq<(PathView, IoErrorView)>,
    steady: bool,
) -> bool {
    &&& steady ==> only_links(t, unread)
    &&& forall|k: int|
        0 <= k < unread.len() ==> {
            ||| t.dom().contains((#[trigger] unread[k]).0) && t[unread[k].0] is Symlink
            ||| asked_in_vain(h0, h1, unread[k].0)
        }
}

/// Whether, in the calls that were made after others, something of a path was
/// asked for in vain.
pub open spec fn asked_in_vain(h0: Seq<Call>, h1: Seq<Call>, p: PathView) -> bool {
    exists|j: int| h0.len() <= j < h1.len() && fails_at(#[trigger] h1[j], p)
}

/// Whether every directory is walked into by one way only: there are no links,
/// or they are not followed.
pub open spec fn walks_once(t: Tree, cfg: Config) -> bool {
    cfg.behaviour.symlinks != SymlinkPolicy::Follow || forall|q: PathView| #[trigger]
        t.dom().contains(q) ==> !(t[q] is Symlink)
}

/// Whether no path has been scanned twice from a place on.
pub open spec fn each_once(out: Seq<ScannedFile>, from: int) -> bool {
    forall|i: int, j: int|
        from <= i < j < out.len() ==> (#[trigger] out[i]).absolute.deep_view() != (
        #[trigger] out[j]).absolute.deep_view()
}

/// Whether all that has been scanned from a place on lies under a path.
spec fn all_under(out: Seq<ScannedFile>, from: int, p: PathView) -> bool {
    forall|k: int|
        from <= k < out.len() ==> (#[trigger] out[k]).absolute.deep_view().starts_with(p)
}

/// What could not be read stays so when more calls are made.
pub proof fn lemma_unread_stays(
    t: Tree,
    h0: Seq<Call>,
    h1: Seq<Call>,
    h2: Seq<Call>,
    unread: Seq<(PathView, IoErrorView)>,
    steady: bool,
)
    requires
        unread_rightly(t, h0, h1, unread, steady),
        goes_on(h1, h2),
    ensures
        unread_rightly(t, h0, h2, unread, steady),
{
    assert forall|k: int| 0 <= k < unread.len() implies t.dom().contains((#[trigger] unread[k]).0)
        && t[unread[k].0] is Symlink || asked_in_vain(h0, h2, unread[k].0) by {
        let p = unread[k].0;
        if asked_in_vain(h0, h1, p) {
            let j = choose|j: int| h0.len() <= j < h1.len() && fails_at(#[trigger] h1[j], p);
            assert(h2[j] == h1[j]);
        }
    }
}

/// What could not be read in two stretches was not read rightly in both.
proof fn lemma_more_unread(
    t: Tree,
    h0: Seq<Call>,
    h1: Seq<Call>,
    h2: Seq<Call>,
    u: Seq<(PathView, IoErrorView)>,
    v: Seq<(PathView, IoErrorView)>,
    steady: bool,
)
    requires
        unread_rightly(t, h0, h1, u, steady),
        unread_rightly(t, h1, h2, v, steady),
        goes_on(h0, h1),
        goes_on(h1, h2),
    ensures
        unread_rightly(t, h0, h2, u + v, steady),
{
    if steady {
        lemma_more_links(t, u, v);
    }
    lemma_unread_stays(t, h0, h1, h2, u, steady);
    let w = u + v;
    assert forall|k: int| 0 <= k < w.len() implies t.dom().contains((#[trigger] w[k]).0) && t[w[k].0]
        is Symlink || asked_in_vain(h0, h2, w[k].0) by {
        if k < u.len() {
            assert(w[k] == u[k]);
        } else {
            let p = v[k - u.len()].0;
            assert(w[k] == v[k - u.len()]);
            if asked_in_vain(h1, h2, p) {
                let j = choose|j: int| h1.len() <= j < h2.len() && fails_at(#[trigger] h2[j], p);
                assert(fails_at(h2[j], p));
            }
        }
    }
}

/// What lies under one of two different entries of a directory does not lie
/// under the other.
proof fn lemma_apart(dir: PathView, a: PathView, b: PathView, p: PathView, q: PathView)
    requires
        a.is_child_of(dir),
        b.is_child_of(dir),
        a != b,
        p.starts_with(a),
        q.starts_with(b),
    ensures
        p != q,
        p.starts_with(dir),
{
    let n = dir.parts.len() as int;
    assert(p.parts.take(n) =~= p.parts.take(n + 1).take(n));
    assert(dir.parts =~= a.parts.take(n));
    if p == q {
        assert(a.parts == b.parts);
    }
}

/// Whether reports went from `before` to `after` by what is said of what could
/// not be read.
pub open spec fn told(
    before: Seq<DiagnosticView>,
    after: Seq<DiagnosticView>,
    unread: Seq<(PathView, IoErrorView)>,
) -> bool {
    after == before + unread_notes(unread)
}

/// Whether an entry has been dealt with: a file is scanned, and so is every
/// file that the walk gets to through a directory.
spec fn covered(
    t: Tree,
    root: PathView,
    cfg: Config,
    next: Option<Reach>,
    unread: Seq<(PathView, IoErrorView)>,
    out: Seq<ScannedFile>,
    p: PathView,
) -> bool {
    !hidden(root, p) ==> {
        &&& is_file(t, p) ==> listed(out, p) || excused(unread, p)
        &&& is_dir(t, p) ==> (next matches Some(n) ==> complete(t, root, p, cfg, n, unread, out))
    }
}

/// What two stretches of reports say, they say together.
proof fn lemma_told_more(
    a: Seq<DiagnosticView>,
    b: Seq<DiagnosticView>,
    c: Seq<DiagnosticView>,
    u: Seq<(PathView, IoErrorView)>,
    v: Seq<(PathView, IoErrorView)>,
)
    requires
        told(a, b, u),
        told(b, c, v),
    ensures
        told(a, c, u + v),
        forall|q: PathView| excused(u, q) ==> #[trigger] excused(u + v, q),
        forall|q: PathView| excused(v, q) ==> #[trigger] excused(u + v, q),
{
    assert(unread_notes(u + v) =~= unread_notes(u) + unread_notes(v));
    assert(c =~= a + unread_notes(u + v));
    assert forall|q: PathView| excused(u, q) implies #[trigger] excused(u + v, q) by {
        let k = choose|k: int| 0 <= k < u.len() && q.starts_with((#[trigger] u[k]).0);
        assert((u + v)[k] == u[k]);
    }
    assert forall|q: PathView| excused(v, q) implies #[trigger] excused(u + v, q) by {
        let k = choose|k: int| 0 <= k < v.len() && q.starts_with((#[trigger] v[k]).0);
        assert((u + v)[u.len() + k] == v[k]);
    }
}

/// Links and more links are links.
proof fn lemma_more_links(
    t: Tree,
    u: Seq<(PathView, IoErrorView)>,
    v: Seq<(PathView, IoErrorView)>,
)
    requires
        only_links(t, u),
        only_links(t, v),
    ensures
        only_links(t, u + v),
{
    assert forall|k: int| 0 <= k < (u + v).len() implies t.dom().contains(
        (#[trigger] (u + v)[k]).0,
    ) && t[(u + v)[k].0] is Symlink by {
        if k < u.len() {
            assert((u + v)[k] == u[k]);
        } else {
            assert((u + v)[k] == v[k - u.len()]);
        }
    }
}

/// What the walk gets to from a directory lies under it.
proof fn lemma_reached_lies_under(
    t: Tree,
    root: PathView,
    dir: PathView,
    q: PathView,
    cfg: Config,
    z: Reach,
)
    requires
        reaches(t, root, dir, q, cfg, z),
    ensures
        q.starts_with(dir),
    decreases z.rank(),
{
    if q.is_child_of(dir) && t.dom().contains(q) && !hidden(root, q) {
        assert(q.parts.take(dir.parts.len() as int) =~= dir.parts);
    } else {
        let n = onward(t, root, dir, cfg, z)->0;
        let d = choose|d: PathView| #[trigger]
            opens(t, root, dir, d) && reaches(t, root, d, q, cfg, n);
        lemma_reached_lies_under(t, root, d, q, cfg, n);
        assert(q.parts.take(dir.parts.len() as int) =~= d.parts.take(dir.parts.len() as int));
        assert(d.parts.take(dir.parts.len() as int) =~= dir.parts);
    }
}

/// What the walk finds it finds where it may go further.
proof fn lemma_further_finds(
    t: Tree,
    root: PathView,
    dir: PathView,
    f: ScannedView,
    cfg: Config,
    a: Reach,
    b: Reach,
)
    requires
        finds(t, root, dir, f, cfg, a),
        a.is_within(b),
    ensures
        finds(t, root, dir, f, cfg, b),
    decreases a.rank(),
{
    let m = onward(t, root, dir, cfg, a);
    let n = onward(t, root, dir, cfg, b);
    if m is Some {
        assert(n is Some && m->0.is_within(n->0));
        if exists|d: PathView| #[trigger]
            opens_by(t, root, dir, d, cfg.behaviour.symlinks) && finds(t, root, d, f, cfg, m->0) {
            let d = choose|d: PathView| #[trigger]
                opens_by(t, root, dir, d, cfg.behaviour.symlinks) && finds(
                    t,
                    root,
                    d,
                    f,
                    cfg,
                    m->0,
                );
            lemma_further_finds(t, root, d, f, cfg, m->0, n->0);
        }
    }
}

/// What has been scanned stays scanned.
proof fn lemma_listed_stays(a: Seq<ScannedFile>, b: Seq<ScannedFile>, q: PathView)
    requires
        a.is_prefix_of(b),
        listed(a, q),
    ensures
        listed(b, q),
{
    let k = choose|k: int| 0 <= k < a.len() && (#[trigger] a[k]).absolute.deep_view() == q;
    assert(b[k] == a[k]);
}

/// An entry that has been dealt with stays so.
proof fn lemma_covered_stays(
    t: Tree,
    root: PathView,
    cfg: Config,
    next: Option<Reach>,
    u: Seq<(PathView, IoErrorView)>,
    v: Seq<(PathView, IoErrorView)>,
    a: Seq<ScannedFile>,
    b: Seq<ScannedFile>,
    p: PathView,
)
    requires
        a.is_prefix_of(b),
        forall|q: PathView| excused(u, q) ==> #[trigger] excused(v, q),
        covered(t, root, cfg, next, u, a, p),
    ensures
        covered(t, root, cfg, next, v, b, p),
{
    if !hidden(root, p) {
        if is_file(t, p) && listed(a, p) {
            lemma_listed_stays(a, b, p);
        }
        if is_dir(t, p) && next is Some {
            assert forall|q: PathView|
                is_file(t, q) && #[trigger] reaches(t, root, p, q, cfg, next->0) implies listed(
                b,
                q,
            ) || excused(v, q) by {
                if listed(a, q) {
                    lemma_listed_stays(a, b, q);
                }
            }
        }
    }
}

/// Whether a file has been seen, which is then noted.
fn first_visit(visited: &mut Vec<FileId>, id: FileId) -> (r: bool)
    ensures
        r == !old(visited)@.contains(id),
        final(visited)@ == (if r {
            old(visited)@.push(id)
        } else {
            old(visited)@
        }),
{
    let mut i: usize = 0;
    while i < visited.len()
        invariant
            i <= visited@.len(),
            visited@ == old(visited)@,
            forall|k: int| 0 <= k < i ==> visited@[k] != id,
        decreases visited@.len() - i,
    {
        if visited[i] == id {
            return false;
        }
        i = i + 1;
    }
    visited.push(id);
    true
}

/// Reports what could not be read, and that it is passed over.
fn note_unread(notes: &mut Vec<Diagnostic>, path: &FilePath, e: &IoError)
    ensures
        told(
            old(notes).deep_view(),
            final(notes).deep_view(),
            seq![(path.deep_view(), e.deep_view())],
        ),
{
    let ghost before = notes.deep_view();
    let message = "could not read ".to_string().concat(&path.to_text()).concat(": ").concat(
        &e.message,
    );
    notes.push(
        Diagnostic {
            severity: Severity::Warning,
            item: None,
            stage: "scan".to_string(),
            message,
            io_kind: Some(e.kind.as_str().to_string()),
        },
    );
    proof {
        let unread = seq![(path.deep_view(), e.deep_view())];
        assert(unread_notes(unread) =~= seq![unread_note(unread[0].0, unread[0].1)]);
        assert(notes.deep_view() =~= before + unread_notes(unread));
    }
}

/// What is said of something that could not be read.
pub open spec fn unread_note(p: PathView, e: IoErrorView) -> DiagnosticView {
    DiagnosticView {
        severity: Severity::Warning,
        item: None,
        stage: "scan"@,
        message: "could not read "@ + p.text() + ": "@ + e.message,
        io_kind: Some(e.kind.label()),
    }
}

/// What is said of all that could not be read.
pub open spec fn unread_notes(unread: Seq<(PathView, IoErrorView)>) -> Seq<DiagnosticView> {
    Seq::new(unread.len(), |k: int| unread_note(unread[k].0, unread[k].1))
}

/// How far the walk may go on from the directories that a listing tells of.
/// Where something in the listing could not be read, it goes no further than
/// it may whatever that is.
fn reach_under(
    root: &FilePath,
    dir: &FilePath,
    list: &Vec<Result<DirEntry, IoError>>,
    cfg: &Config,
    z: Reach,
    t: Ghost<Tree>,
) -> (r: Option<Reach>)
    requires
        lists_dir(list@, t@, dir.deep_view()),
    ensures
        goes_within(r, onward(t@, root.deep_view(), dir.deep_view(), *cfg, z)),
        (forall|k: int| 0 <= k < list@.len() ==> #[trigger] list@[k] is Ok) ==> r == onward(
            t@,
            root.deep_view(),
            dir.deep_view(),
            *cfg,
            z,
        ),
{
    let levels: u32 = match z {
        Reach::Beneath(n) => {
            return if n > 0 {
                Some(Reach::Beneath(n - 1))
            } else {
                None
            };
        },
        Reach::Containers(k) => k,
    };
    let ghost rv = root.deep_view();
    let ghost dv = dir.deep_view();
    let mut whole = true;
    let mut i: usize = 0;
    if dir.same(root) {
        return if levels > 0 {
            Some(Reach::Containers(levels - 1))
        } else {
            None
        };
    }
    while i < list.len()
        invariant
            i <= list@.len(),
            rv == root.deep_view(),
            dv == dir.deep_view(),
            dv != rv,
            z == Reach::Containers(levels),
            lists_dir(list@, t@, dv),
            whole == (forall|k: int| 0 <= k < i ==> #[trigger] list@[k] is Ok),
            forall|k: int|
                0 <= k < i ==> (#[trigger] list@[k] matches Ok(e) ==> !holds_media(
                    t@,
                    rv,
                    dv,
                    *cfg,
                    e.path.deep_view(),
                )),
        decreases list@.len() - i,
    {
        match &list[i] {
            Ok(e) => {
                proof {
                    assert(list@[i as int] is Ok);
                }
                let rel = make_relative(root, &e.path);
                let class = classify_one(&e.path, cfg);
                if !e.is_dir && !e.is_symlink && !is_ignored(&rel, &e.file_name) && (class
                    == FileClass::Video || class == FileClass::Audio) {
                    proof {
                        assert(holds_media(t@, rv, dv, *cfg, e.path.deep_view()));
                    }
                    return Some(Reach::Beneath(MEDIA_LEVELS - 1));
                }
            },
            Err(_) => {
                whole = false;
                proof {
                    assert(list@[i as int] is Err);
                }
            },
        }
        i = i + 1;
    }
    if !whole {
        return if levels == 0 {
            None
        } else if levels < MEDIA_LEVELS {
            Some(Reach::Beneath(levels - 1))
        } else {
            Some(Reach::Beneath(MEDIA_LEVELS - 1))
        };
    }
    proof {
        if is_media_folder(t@, rv, dv, *cfg) {
            let q = choose|q: PathView| #[trigger] holds_media(t@, rv, dv, *cfg, q);
            assert(t@.dom().contains(q));
            let k = choose|k: int|
                0 <= k < list@.len() && (#[trigger] list@[k])->Ok_0.path.deep_view() == q;
            assert(list@[k] is Ok);
        }
    }
    if levels > 0 {
        Some(Reach::Containers(levels - 1))
    } else {
        None
    }
}

/// Scans a directory. What cannot be read under it is reported and passed over.
fn scan_dir<F: FileSystem>(
    fs: &mut F,
    root: &FilePath,
    dir: &FilePath,
    cfg: &Config,
    z: Reach,
    visited: &mut Vec<FileId>,
    out: &mut Vec<ScannedFile>,
    notes: &mut Vec<Diagnostic>,
) -> (r: Result<(), IoError>)
    ensures
        old(fs).is_steady() ==> final(fs).is_steady(),
        visits_more(old(visited)@, final(visited)@),
        only_asks(old(fs).history(), final(fs).history()),
        lists_first(
            old(fs).history(),
            final(fs).history(),
            dir.deep_view(),
            r is Ok,
        ),
        final(fs).tree() == old(fs).tree(),
        old(fs).is_steady() ==> r is Ok == is_dir(old(fs).tree(), dir.deep_view()),
        old(out)@.is_prefix_of(final(out)@),
        r is Err ==> final(out)@ == old(out)@ && final(notes).deep_view() == old(notes).deep_view(),
        r is Ok ==> is_dir(old(fs).tree(), dir.deep_view()),
        sound(
            old(fs).tree(),
            root.deep_view(),
            dir.deep_view(),
            *cfg,
            z,
            final(out)@,
            old(out)@.len() as int,
        ),
        r is Ok ==> exists|unread: Seq<(PathView, IoErrorView)>| #[trigger]
            told(old(notes).deep_view(), final(notes).deep_view(), unread) && complete(
                old(fs).tree(),
                root.deep_view(),
                dir.deep_view(),
                *cfg,
                z,
                unread,
                final(out)@,
            ) && unread_rightly(
                old(fs).tree(),
                old(fs).history(),
                final(fs).history(),
                unread,
                old(fs).is_steady(),
            ),
        old(fs).is_steady() && walks_once(old(fs).tree(), *cfg) ==> each_once(
            final(out)@,
            old(out)@.len() as int,
        ) && all_under(final(out)@, old(out)@.len() as int, dir.deep_view()),
    decreases z.rank(), 2int,
{
    let ghost h0 = fs.history();
    let ghost t = fs.tree();
    let ghost straight = walks_once(t, *cfg);
    let ghost rv = root.deep_view();
    let ghost dv = dir.deep_view();
    let ghost start = out@;
    let ghost said = notes.deep_view();
    let ghost steady = fs.is_steady();
    let ghost mut unread: Seq<(PathView, IoErrorView)> = Seq::empty();
    proof {
        assert(start =~= start.subrange(0, start.len() as int));
        assert(unread_notes(unread) =~= Seq::empty());
        assert(said =~= said + unread_notes(unread));
    }
    let list = match fs.read_dir(dir) {
        Ok(l) => l,
        Err(e) => {
            return Err(e);
        },
    };
    proof {
        assert(fs.history()[h0.len() as int] == list_call(dv, Ok(list)));
    }
    let next = reach_under(root, dir, &list, cfg, z, Ghost(t));
    let mut i: usize = 0;
    while i < list.len()
        invariant
            h0 == old(fs).history(),
            visits_more(old(visited)@, visited@),
            straight == walks_once(t, *cfg),
            lists_first(h0, fs.history(), dv, true),
            fs.history()[h0.len() as int] == list_call(dv, Ok(list)),
            unread_rightly(t, h0, fs.history(), unread, steady),
            steady && straight ==> each_once(out@, start.len() as int) && forall|k: int|
                start.len() <= k < out@.len() ==> under_one(
                    list@,
                    i as int,
                    (#[trigger] out@[k]).absolute.deep_view(),
                ),
            only_asks(old(fs).history(), fs.history()),
            i <= list@.len(),
            t == old(fs).tree(),
            fs.tree() == t,
            rv == root.deep_view(),
            dv == dir.deep_view(),
            goes_within(next, onward(t, rv, dv, *cfg, z)),
            (forall|k: int| 0 <= k < list@.len() ==> #[trigger] list@[k] is Ok) ==> next == onward(
                t,
                rv,
                dv,
                *cfg,
                z,
            ),
            start == old(out)@,
            said == old(notes).deep_view(),
            start.is_prefix_of(out@),
            told(said, notes.deep_view(), unread),
            steady == old(fs).is_steady(),
            steady ==> fs.is_steady() && lists_each_once(list@),
            is_dir(t, dv),
            lists_dir(list@, t, dv),
            sound(
                t,
                rv,
                dv,
                *cfg,
                z,
                out@,
                start.len() as int,
            ),
            forall|k: int|
                0 <= k < i ==> match #[trigger] list@[k] {
                    Ok(e) => covered(t, rv, *cfg, next, unread, out@, e.path.deep_view()),
                    Err(_) => excused(unread, dv),
                },
        decreases list@.len() - i,
    {
        let ghost held = out@;
        let ghost heard = notes.deep_view();
        let ghost known = unread;
        let ghost h1 = fs.history();
        proof {
            assert(held =~= held.subrange(0, held.len() as int));
        }
        match &list[i] {
            Ok(entry) => {
                proof {
                    assert(list@[i as int] is Ok);
                }
                let ghost now = fs.is_steady();
                scan_entry(fs, root, dir, entry, cfg, z, next, visited, out, notes);
                proof {
                    let more = choose|more: Seq<(PathView, IoErrorView)>| #[trigger]
                        told(heard, notes.deep_view(), more) && covered(
                            t,
                            rv,
                            *cfg,
                            next,
                            more,
                            out@,
                            entry.path.deep_view(),
                        ) && unread_rightly(t, h1, fs.history(), more, now);
                    lemma_told_more(said, heard, notes.deep_view(), known, more);
                    unread = known + more;
                    assert(unread_rightly(t, h1, fs.history(), more, steady));
                    lemma_more_unread(t, h0, h1, fs.history(), known, more, steady);
                    if steady && straight {
                        lemma_once_more(
                            list@,
                            i as int,
                            dv,
                            held,
                            out@,
                            start.len() as int,
                        );
                    }
                    lemma_covered_stays(
                        t,
                        rv,
                        *cfg,
                        next,
                        more,
                        unread,
                        out@,
                        out@,
                        entry.path.deep_view(),
                    );
                    lemma_more_is_sound(
                        t,
                        rv,
                        dv,
                        *cfg,
                        z,
                        held,
                        out@,
                        start.len() as int,
                    );
                }
            },
            Err(e) => {
                note_unread(notes, dir, e);
                proof {
                    let more = seq![(dv, e.deep_view())];
                    lemma_told_more(said, heard, notes.deep_view(), known, more);
                    unread = known + more;
                    assert(more[0].0 == dv);
                    assert(dv.parts.take(dv.parts.len() as int) =~= dv.parts);
                    assert(excused(more, dv));
                    lemma_listing_fails(dv, list, i as int);
                    assert(fails_at(fs.history()[h0.len() as int], dv));
                    assert(asked_in_vain(h0, fs.history(), dv));
                    assert forall|k: int| 0 <= k < unread.len() implies t.dom().contains(
                        (#[trigger] unread[k]).0,
                    ) && t[unread[k].0] is Symlink || asked_in_vain(
                        h0,
                        fs.history(),
                        unread[k].0,
                    ) by {
                        if k < known.len() {
                            assert(unread[k] == known[k]);
                        }
                    }
                }
            },
        }
        proof {
            assert(start =~= out@.subrange(0, start.len() as int));
            assert forall|k: int| 0 <= k < i + 1 implies match #[trigger] list@[k] {
                Ok(e) => covered(t, rv, *cfg, next, unread, out@, e.path.deep_view()),
                Err(_) => excused(unread, dv),
            } by {
                if k < i && list@[k] is Ok {
                    lemma_covered_stays(
                        t,
                        rv,
                        *cfg,
                        next,
                        known,
                        unread,
                        held,
                        out@,
                        list@[k]->Ok_0.path.deep_view(),
                    );
                }
            }
        }
        i = i + 1;
    }
    proof {
        assert forall|q: PathView|
            is_file(t, q) && #[trigger] reaches(t, rv, dv, q, *cfg, z) implies listed(
            out@,
            q,
        ) || excused(unread, q) by {
            if exists|k: int| 0 <= k < list@.len() && (#[trigger] list@[k]) is Err {
                lemma_reached_lies_under(t, rv, dv, q, *cfg, z);
                let j = choose|j: int|
                    0 <= j < unread.len() && dv.starts_with((#[trigger] unread[j]).0);
                let u = unread[j].0;
                assert(q.parts.take(u.parts.len() as int) =~= dv.parts.take(u.parts.len() as int));
                assert(q.starts_with(unread[j].0));
            } else {
                assert(forall|k: int| 0 <= k < list@.len() ==> #[trigger] list@[k] is Ok);
                if q.is_child_of(dv) && t.dom().contains(q) && !hidden(rv, q) {
                    let k = choose|k: int|
                        0 <= k < list@.len() && (#[trigger] list@[k])->Ok_0.path.deep_view() == q;
                    assert(list@[k] is Ok);
                } else {
                    let d = choose|d: PathView| #[trigger]
                        opens(t, rv, dv, d) && reaches(t, rv, d, q, *cfg, next->0);
                    assert(t.dom().contains(d));
                    let k = choose|k: int|
                        0 <= k < list@.len() && (#[trigger] list@[k])->Ok_0.path.deep_view() == d;
                    assert(list@[k] is Ok);
                    assert(complete(t, rv, d, *cfg, next->0, unread, out@));
                }
            }
        }
        assert(told(said, notes.deep_view(), unread));
        if steady && straight {
            assert forall|k: int| start.len() <= k < out@.len() implies (
            #[trigger] out@[k]).absolute.deep_view().starts_with(dv) by {
                let q = out@[k].absolute.deep_view();
                assert(under_one(list@, i as int, q));
                let m = choose|m: int|
                    0 <= m < i && (#[trigger] list@[m]) is Ok && q.starts_with(
                        list@[m]->Ok_0.path.deep_view(),
                    );
                let a = list@[m]->Ok_0.path.deep_view();
                let n = dv.parts.len() as int;
                assert(q.parts.take(n) =~= q.parts.take(n + 1).take(n));
                assert(dv.parts =~= a.parts.take(n));
            }
        }
    }
    Ok(())
}

/// A listing with an entry that could not be read failed there.
proof fn lemma_listing_fails(dir: PathView, list: Vec<Result<DirEntry, IoError>>, i: int)
    requires
        0 <= i < list@.len(),
        list@[i] is Err,
    ensures
        fails_at(list_call(dir, Ok(list)), dir),
{
    assert(!(list@[i] is Ok));
    assert(!is_whole(list@));
}

/// Whether something lies under one of the first entries of a listing.
spec fn under_one(list: Seq<Result<DirEntry, IoError>>, n: int, q: PathView) -> bool {
    exists|m: int|
        0 <= m < n && (#[trigger] list[m]) is Ok && q.starts_with(list[m]->Ok_0.path.deep_view())
}

/// What is scanned of one more entry of a listing has not been scanned before.
proof fn lemma_once_more(
    list: Seq<Result<DirEntry, IoError>>,
    n: int,
    dir: PathView,
    before: Seq<ScannedFile>,
    after: Seq<ScannedFile>,
    from: int,
)
    requires
        0 <= n < list.len(),
        lists_each_once(list),
        forall|m: int|
            0 <= m < list.len() && (#[trigger] list[m]) is Ok
                ==> list[m]->Ok_0.path.deep_view().is_child_of(dir),
        0 <= from <= before.len(),
        before.is_prefix_of(after),
        each_once(before, from),
        forall|k: int|
            from <= k < before.len() ==> under_one(
                list,
                n,
                (#[trigger] before[k]).absolute.deep_view(),
            ),
        each_once(after, before.len() as int),
        all_under(after, before.len() as int, list[n]->Ok_0.path.deep_view()),
    ensures
        each_once(after, from),
        forall|k: int|
            from <= k < after.len() ==> under_one(
                list,
                n + 1,
                (#[trigger] after[k]).absolute.deep_view(),
            ),
{
    let b = list[n]->Ok_0.path.deep_view();
    assert(list[n] is Ok);
    assert forall|k: int| 0 <= k < before.len() implies #[trigger] after[k] == before[k] by {
        assert(before == after.subrange(0, before.len() as int));
    }
    assert forall|k: int| from <= k < after.len() implies under_one(
        list,
        n + 1,
        (#[trigger] after[k]).absolute.deep_view(),
    ) by {
        let q = after[k].absolute.deep_view();
        if k < before.len() {
            assert(under_one(list, n, before[k].absolute.deep_view()));
            let m = choose|m: int|
                0 <= m < n && (#[trigger] list[m]) is Ok && q.starts_with(
                    list[m]->Ok_0.path.deep_view(),
                );
            assert(list[m] is Ok);
        } else {
            assert(q.starts_with(b));
        }
    }
    assert forall|i: int, j: int| from <= i < j < after.len() implies (
    #[trigger] after[i]).absolute.deep_view() != (#[trigger] after[j]).absolute.deep_view() by {
        let p = after[i].absolute.deep_view();
        let q = after[j].absolute.deep_view();
        if j < before.len() {
            assert(before[i].absolute.deep_view() != before[j].absolute.deep_view());
        } else if i < before.len() {
            assert(under_one(list, n, before[i].absolute.deep_view()));
            let m = choose|m: int|
                0 <= m < n && (#[trigger] list[m]) is Ok && p.starts_with(
                    list[m]->Ok_0.path.deep_view(),
                );
            let a = list[m]->Ok_0.path.deep_view();
            assert(q.starts_with(b));
            lemma_apart(dir, a, b, p, q);
        }
    }
}

/// Scans what an entry of a directory stands for.
fn scan_entry<F: FileSystem>(
    fs: &mut F,
    root: &FilePath,
    dir: &FilePath,
    entry: &DirEntry,
    cfg: &Config,
    z: Reach,
    next: Option<Reach>,
    visited: &mut Vec<FileId>,
    out: &mut Vec<ScannedFile>,
    notes: &mut Vec<Diagnostic>,
)
    requires
        tells_of(old(fs).tree(), dir.deep_view(), *entry),
        goes_within(
            next,
            onward(old(fs).tree(), root.deep_view(), dir.deep_view(), *cfg, z),
        ),
    ensures
        old(fs).is_steady() ==> final(fs).is_steady(),
        visits_more(old(visited)@, final(visited)@),
        only_asks(old(fs).history(), final(fs).history()),
        final(fs).tree() == old(fs).tree(),
        old(out)@.is_prefix_of(final(out)@),
        sound(
            old(fs).tree(),
            root.deep_view(),
            dir.deep_view(),
            *cfg,
            z,
            final(out)@,
            old(out)@.len() as int,
        ),
        exists|unread: Seq<(PathView, IoErrorView)>| #[trigger]
            told(old(notes).deep_view(), final(notes).deep_view(), unread) && covered(
                old(fs).tree(),
                root.deep_view(),
                *cfg,
                next,
                unread,
                final(out)@,
                entry.path.deep_view(),
            ) && unread_rightly(
                old(fs).tree(),
                old(fs).history(),
                final(fs).history(),
                unread,
                old(fs).is_steady(),
            ),
        old(fs).is_steady() && walks_once(old(fs).tree(), *cfg) ==> each_once(
            final(out)@,
            old(out)@.len() as int,
        ) && all_under(final(out)@, old(out)@.len() as int, entry.path.deep_view()),
    decreases rank_of(next), 1int,
{
    let ghost h0 = fs.history();
    let ghost t = fs.tree();
    let ghost rv = root.deep_view();
    let ghost dv = dir.deep_view();
    let ghost p = entry.path.deep_view();
    let ghost held = out@;
    let ghost heard = notes.deep_view();
    let ghost steady = fs.is_steady();
    proof {
        assert(held =~= held.subrange(0, held.len() as int));
        assert(unread_notes(Seq::empty()) =~= Seq::empty());
        assert(heard =~= heard + unread_notes(Seq::empty()));
        assert(told(heard, heard, Seq::empty()));
        assert(p.parts.take(p.parts.len() as int) =~= p.parts);
        assert forall|e: IoErrorView| #[trigger] excused(seq![(p, e)], p) by {
            assert(seq![(p, e)][0].0 == p);
        }
    }
    let rel = make_relative(root, &entry.path);
    if is_ignored(&rel, &entry.file_name) {
        return;
    }
    if entry.is_symlink && cfg.behaviour.symlinks == SymlinkPolicy::Skip {
        return;
    }
    if entry.is_symlink && cfg.behaviour.symlinks == SymlinkPolicy::Follow {
        match follow_link(fs, root, dir, entry, rel, cfg, z, next, visited, out, notes) {
            Ok(()) => {},
            Err(e) => {
                let ghost midway = notes.deep_view();
                note_unread(notes, &entry.path, &e);
                proof {
                    let u = choose|u: Seq<(PathView, IoErrorView)>| #[trigger]
                        told(heard, midway, u) && unread_rightly(t, h0, fs.history(), u, steady);
                    let more = seq![(p, e.deep_view())];
                    lemma_told_more(heard, midway, notes.deep_view(), u, more);
                    assert(more[0].0 == p);
                    let h1 = fs.history();
                    assert(unread_rightly(t, h1, h1, more, steady));
                    lemma_more_unread(t, h0, h1, h1, u, more, steady);
                }
            },
        }
        return;
    }
    if entry.is_dir {
        if let Some(n) = next {
            let r = scan_dir(fs, root, &entry.path, cfg, n, visited, out, notes);
            proof {
                if r is Ok {
                    lemma_deeper_is_sound(t, rv, dv, p, *cfg, z, n, held, out@);
                }
            }
            if let Err(e) = r {
                note_unread(notes, &entry.path, &e);
                proof {
                    let u = seq![(p, e.deep_view())];
                    assert(told(heard, notes.deep_view(), u));
                    assert(u[0].0 == p);
                    assert(fails_at(fs.history()[h0.len() as int], p));
                    assert(asked_in_vain(h0, fs.history(), p));
                    assert(unread_rightly(t, h0, fs.history(), u, steady));
                    assert(excused(u, p));
                    assert forall|q: PathView|
                        is_file(t, q) && #[trigger] reaches(
                            t,
                            rv,
                            p,
                            q,
                            *cfg,
                            n,
                        ) implies listed(out@, q) || excused(u, q) by {
                        lemma_reached_lies_under(t, rv, p, q, *cfg, n);
                        assert(u[0].0 == p);
                    }
                }
            }
        }
        return;
    }
    match fs.metadata(&entry.path) {
        Ok(meta) => {
            out.push(
                ScannedFile {
                    absolute: entry.path.duplicate(),
                    relative: rel,
                    class: FileClass::Unknown,
                    meta,
                },
            );
            proof {
                assert(out@[held.len() as int].absolute.deep_view() == p);
                assert(finds(t, rv, dv, out@[held.len() as int].deep_view(), *cfg, z));
                assert(held =~= out@.subrange(0, held.len() as int));
            }
        },
        Err(e) => {
            note_unread(notes, &entry.path, &e);
            proof {
                assert(fails_at(fs.history()[h0.len() as int], p));
                assert(asked_in_vain(h0, fs.history(), p));
                assert(unread_rightly(
                    t,
                    h0,
                    fs.history(),
                    seq![(p, e.deep_view())],
                    steady,
                ));
                assert(told(heard, notes.deep_view(), seq![(p, e.deep_view())]));
                assert(excused(seq![(p, e.deep_view())], p));
            }
        },
    }
}

/// Whether an entry tells rightly of something directly under a directory.
pub open spec fn tells_of(t: Tree, dir: PathView, e: DirEntry) -> bool {
    &&& t.dom().contains(e.path.deep_view())
    &&& e.path.deep_view().is_child_of(dir)
    &&& e.path.deep_view().parts.last() == e.file_name@
    &&& t[e.path.deep_view()] is Dir ==> e.is_dir && !e.is_symlink
    &&& t[e.path.deep_view()] is File ==> !e.is_dir && !e.is_symlink
    &&& t[e.path.deep_view()] is Symlink ==> e.is_symlink
}

/// What is sound in two parts is sound.
proof fn lemma_more_is_sound(
    t: Tree,
    root: PathView,
    dir: PathView,
    cfg: Config,
    z: Reach,
    before: Seq<ScannedFile>,
    after: Seq<ScannedFile>,
    from: int,
)
    requires
        before.is_prefix_of(after),
        0 <= from <= before.len(),
        sound(t, root, dir, cfg, z, before, from),
        sound(t, root, dir, cfg, z, after, before.len() as int),
    ensures
        sound(t, root, dir, cfg, z, after, from),
{
    assert forall|k: int| from <= k < after.len() implies {
        let f = #[trigger] after[k].deep_view();
        &&& finds(t, root, dir, f, cfg, z)
        &&& f.class == FileClass::Unknown
        &&& describes(f.meta, t[f.absolute])
    } by {
        if k < before.len() {
            assert(after[k] == before[k]);
            assert(after[k].deep_view() == before[k].deep_view());
        }
    }
}

/// What is sound one level further down is sound.
proof fn lemma_deeper_is_sound(
    t: Tree,
    root: PathView,
    dir: PathView,
    d: PathView,
    cfg: Config,
    z: Reach,
    n: Reach,
    before: Seq<ScannedFile>,
    after: Seq<ScannedFile>,
)
    requires
        goes_within(Some(n), onward(t, root, dir, cfg, z)),
        opens_by(t, root, dir, d, cfg.behaviour.symlinks),
        before.is_prefix_of(after),
        sound(t, root, d, cfg, n, after, before.len() as int),
    ensures
        sound(t, root, dir, cfg, z, after, before.len() as int),
{
    assert forall|k: int| before.len() <= k < after.len() implies {
        let f = #[trigger] after[k].deep_view();
        &&& finds(t, root, dir, f, cfg, z)
        &&& f.class == FileClass::Unknown
        &&& describes(f.meta, t[f.absolute])
    } by {
        let f = after[k].deep_view();
        lemma_further_finds(t, root, d, f, cfg, n, onward(t, root, dir, cfg, z)->0);
    }
}

/// Whether a path is that of a link that leads to a file or a directory.
pub open spec fn leads_somewhere(t: Tree, l: PathView) -> bool {
    t.dom().contains(l) && (t[l] matches NodeView::Symlink { target } && (is_file(t, target)
        || is_dir(t, target)))
}

/// Whether a link was followed once only: its identity is asked for first, what
/// had been visited is not scanned again, and what had not has been visited now.
spec fn followed(
    h0: Seq<Call>,
    h1: Seq<Call>,
    link: PathView,
    before: Seq<FileId>,
    after: Seq<FileId>,
    held: Seq<ScannedFile>,
    out: Seq<ScannedFile>,
) -> bool {
    &&& h0.len() < h1.len()
    &&& h1[h0.len() as int] matches Call::Identify { path, id: Some(id) } && {
        &&& path == link
        &&& before.contains(id) ==> out == held && after == before
        &&& !before.contains(id) ==> visits_more(before.push(id), after)
    }
}

/// Whether nothing that had been visited is forgotten.
spec fn visits_more(before: Seq<FileId>, after: Seq<FileId>) -> bool {
    &&& before.len() <= after.len()
    &&& forall|k: int| 0 <= k < before.len() ==> #[trigger] after[k] == before[k]
}

/// Scans what a link leads to, unless it has been followed before.
fn follow_link<F: FileSystem>(
    fs: &mut F,
    root: &FilePath,
    dir: &FilePath,
    entry: &DirEntry,
    rel: FilePath,
    cfg: &Config,
    z: Reach,
    next: Option<Reach>,
    visited: &mut Vec<FileId>,
    out: &mut Vec<ScannedFile>,
    notes: &mut Vec<Diagnostic>,
) -> (r: Result<(), IoError>)
    requires
        cfg.behaviour.symlinks == SymlinkPolicy::Follow,
        entry.path.deep_view().is_child_of(dir.deep_view()),
        !hidden(root.deep_view(), entry.path.deep_view()),
        rel.deep_view() == from_root(root.deep_view(), entry.path.deep_view()),
        goes_within(
            next,
            onward(old(fs).tree(), root.deep_view(), dir.deep_view(), *cfg, z),
        ),
    ensures
        old(fs).is_steady() ==> final(fs).is_steady(),
        visits_more(old(visited)@, final(visited)@),
        only_asks(old(fs).history(), final(fs).history()),
        final(fs).tree() == old(fs).tree(),
        old(fs).is_steady() && leads_somewhere(old(fs).tree(), entry.path.deep_view()) ==> r is Ok,
        old(out)@.is_prefix_of(final(out)@),
        sound(
            old(fs).tree(),
            root.deep_view(),
            dir.deep_view(),
            *cfg,
            z,
            final(out)@,
            old(out)@.len() as int,
        ),
        exists|unread: Seq<(PathView, IoErrorView)>| #[trigger]
            told(old(notes).deep_view(), final(notes).deep_view(), unread) && unread_rightly(
                old(fs).tree(),
                old(fs).history(),
                final(fs).history(),
                unread,
                old(fs).is_steady(),
            ),
        // What has been followed before is not followed again.
        r is Ok ==> followed(
            old(fs).history(),
            final(fs).history(),
            entry.path.deep_view(),
            old(visited)@,
            final(visited)@,
            old(out)@,
            final(out)@,
        ),
    decreases rank_of(next), 0int,
{
    let ghost h0 = fs.history();
    let ghost seen = visited@;
    let ghost t = fs.tree();
    let ghost rv = root.deep_view();
    let ghost dv = dir.deep_view();
    let ghost policy = cfg.behaviour.symlinks;
    let ghost held = out@;
    let ghost heard = notes.deep_view();
    proof {
        assert(held =~= held.subrange(0, held.len() as int));
        assert(unread_notes(Seq::empty()) =~= Seq::empty());
        assert(heard =~= heard + unread_notes(Seq::empty()));
        assert(told(heard, heard, Seq::empty()));
    }
    let target = match fs.read_link(&entry.path) {
        Ok(p) => p,
        Err(e) => {
            return Err(e);
        },
    };
    let ghost goal = target.deep_view();
    proof {
        assert(links(t, rv, dv, entry.path.deep_view(), goal));
    }
    let id = match fs.file_id(&entry.path) {
        Ok(x) => x,
        Err(e) => {
            return Err(e);
        },
    };
    if !first_visit(visited, id) {
        return Ok(());
    }
    let meta = match fs.metadata(&target) {
        Ok(m) => m,
        Err(e) => {
            return Err(e);
        },
    };
    if meta.is_dir {
        if let Some(n) = next {
            let r = scan_dir(fs, root, &target, cfg, n, visited, out, notes);
            proof {
                if r is Ok {
                    assert(opens_by(t, rv, dv, goal, policy));
                    lemma_deeper_is_sound(t, rv, dv, goal, *cfg, z, n, held, out@);
                }
            }
            return r;
        }
        return Ok(());
    }
    out.push(ScannedFile { absolute: target, relative: rel, class: FileClass::Unknown, meta });
    proof {
        assert(held =~= out@.subrange(0, held.len() as int));
        assert(finds(t, rv, dv, out@[held.len() as int].deep_view(), *cfg, z));
    }
    Ok(())
}

/// Scan `root` recursively using the provided file system and config.
///
/// What is found is what the walk from the root finds. What cannot be read
/// under the root is reported and passed over. The scan fails only where the
/// root itself cannot be listed, which is the first thing that is tried.
pub fn scan_noting<F: FileSystem>(
    fs: &mut F,
    root: &FilePath,
    cfg: &Config,
    notes: &mut Vec<Diagnostic>,
) -> (r: Result<Vec<ScannedFile>, IoError>)
    ensures
        old(fs).is_steady() ==> final(fs).is_steady(),
        only_asks(old(fs).history(), final(fs).history()),
        lists_first(
            old(fs).history(),
            final(fs).history(),
            root.deep_view(),
            r is Ok,
        ),
        final(fs).tree() == old(fs).tree(),
        old(fs).is_steady() ==> r is Ok == is_dir(old(fs).tree(), root.deep_view()),
        r is Err ==> final(notes).deep_view() == old(notes).deep_view(),
        r matches Ok(list) ==> {
            &&& sound(
                old(fs).tree(),
                root.deep_view(),
                root.deep_view(),
                *cfg,
                Reach::Containers(CONTAINER_LEVELS),
                list@,
                0,
            )
            &&& exists|unread: Seq<(PathView, IoErrorView)>| #[trigger]
                told(old(notes).deep_view(), final(notes).deep_view(), unread) && complete(
                    old(fs).tree(),
                    root.deep_view(),
                    root.deep_view(),
                    *cfg,
                    Reach::Containers(CONTAINER_LEVELS),
                    unread,
                    list@,
                ) && unread_rightly(
                    old(fs).tree(),
                    old(fs).history(),
                    final(fs).history(),
                    unread,
                    old(fs).is_steady(),
                )
            &&& old(fs).is_steady() && walks_once(old(fs).tree(), *cfg) ==> each_once(list@, 0)
        },
{
    let mut out: Vec<ScannedFile> = Vec::new();
    let mut visited: Vec<FileId> = Vec::new();
    let z = Reach::Containers(CONTAINER_LEVELS);
    match scan_dir(fs, root, root, cfg, z, &mut visited, &mut out, notes) {
        Ok(()) => Ok(out),
        Err(e) => Err(e),
    }
}

/// Scan `root` recursively using the provided file system and config. What
/// cannot be read under the root is passed over: the scan fails only where the
/// root itself cannot be listed. Where links are not followed no path is listed
/// twice.
pub fn scan<F: FileSystem>(fs: &mut F, root: &FilePath, cfg: &Config) -> (r: Result<
    Vec<ScannedFile>,
    IoError,
>)
    ensures
        old(fs).is_steady() ==> final(fs).is_steady(),
        only_asks(old(fs).history(), final(fs).history()),
        lists_first(
            old(fs).history(),
            final(fs).history(),
            root.deep_view(),
            r is Ok,
        ),
        final(fs).tree() == old(fs).tree(),
        old(fs).is_steady() ==> r is Ok == is_dir(old(fs).tree(), root.deep_view()),
        r matches Ok(list) ==> {
            &&& sound(
                old(fs).tree(),
                root.deep_view(),
                root.deep_view(),
                *cfg,
                Reach::Containers(CONTAINER_LEVELS),
                list@,
                0,
            )
            &&& exists|unread: Seq<(PathView, IoErrorView)>| #[trigger]
                complete(
                    old(fs).tree(),
                    root.deep_view(),
                    root.deep_view(),
                    *cfg,
                    Reach::Containers(CONTAINER_LEVELS),
                    unread,
                    list@,
                ) && unread_rightly(
                    old(fs).tree(),
                    old(fs).history(),
                    final(fs).history(),
                    unread,
                    old(fs).is_steady(),
                )
            &&& old(fs).is_steady() && walks_once(old(fs).tree(), *cfg) ==> each_once(list@, 0)
        },
{
    let mut notes: Vec<Diagnostic> = Vec::new();
    scan_noting(fs, root, cfg, &mut notes)
}

/// Whether a pattern has neither `*` nor `?`.
pub open spec fn is_literal(pat: Seq<char>) -> bool {
    forall|i: int| 0 <= i < pat.len() ==> #[trigger] pat[i] != '*' && pat[i] != '?'
}

/// A pattern without `*` and `?` matches itself and nothing else.
pub proof fn law_literal_pattern_matches_itself(pat: Seq<char>, s: Seq<char>)
    requires
        is_literal(pat),
    ensures
        glob(pat, s) == (pat == s),
    decreases pat.len(),
{
    if pat.len() == 0 {
        assert(s.len() == 0 ==> pat =~= s);
    } else if s.len() > 0 {
        let p = pat.skip(1);
        let t = s.skip(1);
        assert forall|i: int| 0 <= i < p.len() implies #[trigger] p[i] != '*' && p[i] != '?' by {
            assert(p[i] == pat[i + 1]);
        }
        law_literal_pattern_matches_itself(p, t);
        if glob(pat, s) {
            assert(pat =~= seq![pat[0]] + p);
            assert(s =~= seq![s[0]] + t);
        }
    }
}

/// A star and a literal behind it match what ends in the literal.
proof fn lemma_star_then_literal(tail: Seq<char>, s: Seq<char>)
    requires
        is_literal(tail),
    ensures
        glob(seq!['*'] + tail, s) == tail.is_suffix_of(s),
    decreases s.len(),
{
    let pat = seq!['*'] + tail;
    assert(pat.skip(1) =~= tail);
    law_literal_pattern_matches_itself(tail, s);
    if s.len() > 0 {
        lemma_star_then_literal(tail, s.skip(1));
        if tail.is_suffix_of(s.skip(1)) {
            assert(tail.is_suffix_of(s)) by {
                assert(s.subrange(s.len() - tail.len(), s.len() as int) =~= s.skip(1).subrange(
                    s.skip(1).len() - tail.len(),
                    s.skip(1).len() as int,
                ));
            }
        }
        if tail.is_suffix_of(s) && tail != s {
            assert(tail.len() < s.len()) by {
                if tail.len() == s.len() {
                    assert(tail =~= s);
                }
            }
            assert(s.subrange(s.len() - tail.len(), s.len() as int) =~= s.skip(1).subrange(
                s.skip(1).len() - tail.len(),
                s.skip(1).len() as int,
            ));
        }
    } else {
        assert(tail.is_suffix_of(s) == (tail == s)) by {
            if tail.is_suffix_of(s) {
                assert(tail =~= s);
            }
        }
    }
}

/// A pattern with one star matches just what begins with what stands before the
/// star and, behind that, ends in what stands behind the star.
pub proof fn law_star_matches_anything_between(
    head: Seq<char>,
    tail: Seq<char>,
    s: Seq<char>,
)
    requires
        is_literal(head),
        is_literal(tail),
    ensures
        glob(head + seq!['*'] + tail, s) == (head.is_prefix_of(s) && tail.is_suffix_of(
            s.skip(head.len() as int),
        )),
    decreases head.len(),
{
    let pat = head + seq!['*'] + tail;
    if head.len() == 0 {
        assert(pat =~= seq!['*'] + tail);
        assert(s.skip(0) =~= s);
        lemma_star_then_literal(tail, s);
        assert(head.is_prefix_of(s));
    } else {
        let less = head.skip(1);
        assert(pat[0] == head[0]);
        assert(head[0] != '*' && head[0] != '?');
        assert(pat.skip(1) =~= less + seq!['*'] + tail);
        if s.len() > 0 {
            let t = s.skip(1);
            assert forall|i: int| 0 <= i < less.len() implies #[trigger] less[i] != '*' && less[i]
                != '?' by {
                assert(less[i] == head[i + 1]);
            }
            law_star_matches_anything_between(less, tail, t);
            if head.len() <= s.len() {
                assert(t.skip(less.len() as int) =~= s.skip(head.len() as int));
            }
            assert(head.is_prefix_of(s) == (head[0] == s[0] && less.is_prefix_of(t))) by {
                if head.is_prefix_of(s) {
                    assert(s.take(head.len() as int)[0] == s[0]);
                    assert(t.take(less.len() as int) =~= s.take(head.len() as int).skip(1));
                }
                if head[0] == s[0] && less.is_prefix_of(t) {
                    assert(s.take(head.len() as int) =~= seq![s[0]] + t.take(less.len() as int));
                    assert(head =~= seq![head[0]] + less);
                }
            }
        }
    }
}

} // verus!
