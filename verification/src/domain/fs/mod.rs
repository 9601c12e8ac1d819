//! The file system interface.
//!
//! Everything that touches a disk goes through [`FileSystem`], so that
//! permission failures, read-only mounts and failures halfway through can be
//! brought about at will. The contracts speak of a file system that nobody
//! else changes meanwhile.

pub mod detect;
pub mod faulty;
pub mod keep;
pub mod mem;

use crate::domain::duplicate::Duplicate;
use crate::domain::path::{FilePath, PathView};
use crate::domain::volume::{NoReplaceStrategy, VolumeSemantics};
use crate::hashing;
use std::sync::atomic::AtomicBool;
use std::sync::Arc;
use vstd::prelude::*;

verus! {

/// The kind of a file system error.
#[derive(Debug, Clone, Copy, PartialEq, Eq, Hash, Structural)]
pub enum IoKind {
    NotFound,
    PermissionDenied,
    AlreadyExists,
    Interrupted,
    CrossesDevices,
    ReadOnlyFilesystem,
    StorageFull,
    InvalidInput,
    NotADirectory,
    IsADirectory,
    DirectoryNotEmpty,
    Other,
}

impl IoKind {
    /// The name of the kind.
    pub open spec fn label(self) -> Seq<char> {
        match self {
            IoKind::NotFound => "NotFound"@,
            IoKind::PermissionDenied => "PermissionDenied"@,
            IoKind::AlreadyExists => "AlreadyExists"@,
            IoKind::Interrupted => "Interrupted"@,
            IoKind::CrossesDevices => "CrossesDevices"@,
            IoKind::ReadOnlyFilesystem => "ReadOnlyFilesystem"@,
            IoKind::StorageFull => "StorageFull"@,
            IoKind::InvalidInput => "InvalidInput"@,
            IoKind::NotADirectory => "NotADirectory"@,
            IoKind::IsADirectory => "IsADirectory"@,
            IoKind::DirectoryNotEmpty => "DirectoryNotEmpty"@,
            IoKind::Other => "Other"@,
        }
    }

    /// The name of the kind.
    pub fn as_str(self) -> (r: &'static str)
        ensures
            r@ == self.label(),
    {
        match self {
            IoKind::NotFound => "NotFound",
            IoKind::PermissionDenied => "PermissionDenied",
            IoKind::AlreadyExists => "AlreadyExists",
            IoKind::Interrupted => "Interrupted",
            IoKind::CrossesDevices => "CrossesDevices",
            IoKind::ReadOnlyFilesystem => "ReadOnlyFilesystem",
            IoKind::StorageFull => "StorageFull",
            IoKind::InvalidInput => "InvalidInput",
            IoKind::NotADirectory => "NotADirectory",
            IoKind::IsADirectory => "IsADirectory",
            IoKind::DirectoryNotEmpty => "DirectoryNotEmpty",
            IoKind::Other => "Other",
        }
    }
}

/// A file system error: its kind, the code of the operating system where there
/// is one, and what it says.
#[derive(Debug, Clone, PartialEq, Eq)]
pub struct IoError {
    pub kind: IoKind,
    pub raw_os: Option<i32>,
    pub message: String,
}

/// The contents of an [`IoError`].
#[verifier::ext_equal]
pub struct IoErrorView {
    pub kind: IoKind,
    pub raw_os: Option<i32>,
    pub message: Seq<char>,
}

impl DeepView for IoError {
    type V = IoErrorView;

    open spec fn deep_view(&self) -> IoErrorView {
        IoErrorView { kind: self.kind, raw_os: self.raw_os, message: self.message@ }
    }
}

impl Duplicate for IoError {
    fn duplicate(&self) -> (r: Self) {
        IoError { kind: self.kind, raw_os: self.raw_os, message: self.message.clone() }
    }
}

impl IoError {
    /// An error of a kind that says no more than its kind.
    pub fn of(kind: IoKind) -> (r: Self)
        ensures
            r.deep_view() == (IoErrorView { kind, raw_os: None, message: kind.label() }),
    {
        IoError { kind, raw_os: None, message: kind.as_str().to_string() }
    }

    /// An error of a kind, with a message.
    pub fn new(kind: IoKind, message: &str) -> (r: Self)
        ensures
            r.deep_view() == (IoErrorView { kind, raw_os: None, message: message@ }),
    {
        IoError { kind, raw_os: None, message: message.to_string() }
    }
}

impl IoErrorView {
    /// Whether the error is that source and destination are on different
    /// devices.
    pub open spec fn crosses_devices(self) -> bool {
        self.kind == IoKind::CrossesDevices || self.raw_os == Some(18i32)
    }

    /// Whether the error is that a destination is taken. A refused access
    /// counts: on some systems it is how a directory in the way is reported.
    pub open spec fn is_occupied(self) -> bool {
        !self.crosses_devices() && (self.kind == IoKind::AlreadyExists || self.raw_os == Some(17i32)
            || self.raw_os == Some(5i32) || self.raw_os == Some(80i32) || self.raw_os == Some(
            183i32,
        ))
    }
}

/// Whether an optional code is the given one.
fn has_code(code: Option<i32>, n: i32) -> (r: bool)
    ensures
        r == (code == Some(n)),
{
    match code {
        Some(c) => c == n,
        None => false,
    }
}

/// `true` if this error indicates a cross-device link or rename.
pub fn is_cross_device(e: &IoError) -> (r: bool)
    ensures
        r == e.deep_view().crosses_devices(),
{
    e.kind == IoKind::CrossesDevices || has_code(e.raw_os, 18)
}

/// `true` if this error means that the destination is taken.
pub fn destination_occupied_error(e: &IoError) -> (r: bool)
    ensures
        r == e.deep_view().is_occupied(),
{
    if is_cross_device(e) {
        return false;
    }
    e.kind == IoKind::AlreadyExists || has_code(e.raw_os, 17) || has_code(e.raw_os, 5) || has_code(
        e.raw_os,
        80,
    ) || has_code(e.raw_os, 183)
}

/// Who may cancel.
#[derive(Debug, Clone)]
enum Cancelling {
    /// Whoever shares the flag.
    Shared(Arc<AtomicBool>),
    /// Nobody.
    Nobody,
    /// It has been done.
    Done,
}

/// A cancellation token, checked between operations and inside long ones. It
/// is shared with whoever may cancel, so what it says is not known beforehand,
/// unless it is one that nobody can set or one that has been set for good.
#[derive(Debug, Clone)]
pub struct CancelToken {
    inner: Cancelling,
}

impl Default for CancelToken {
    fn default() -> (r: Self)
        ensures
            !r.is_idle(),
            !r.is_spent(),
    {
        CancelToken { inner: Cancelling::Shared(Arc::new(AtomicBool::new(false))) }
    }
}

impl CancelToken {
    /// Whether nobody can set the token.
    pub closed spec fn is_idle(&self) -> bool {
        self.inner is Nobody
    }

    /// Whether the token has been set for good.
    pub closed spec fn is_spent(&self) -> bool {
        self.inner is Done
    }

    /// A token that has not been set.
    pub fn new() -> (r: Self)
        ensures
            !r.is_idle(),
            !r.is_spent(),
    {
        Self::default()
    }

    /// A token that nobody can set.
    pub fn never() -> (r: Self)
        ensures
            r.is_idle(),
    {
        CancelToken { inner: Cancelling::Nobody }
    }

    /// A token that has been set for good.
    pub fn spent() -> (r: Self)
        ensures
            r.is_spent(),
    {
        CancelToken { inner: Cancelling::Done }
    }

    /// Asks for cancellation, unless nobody can.
    pub fn set(&self) {
        if let Cancelling::Shared(flag) = &self.inner {
            flag.store(true, std::sync::atomic::Ordering::Relaxed);
        }
    }

    /// Whether cancellation has been asked for.
    pub fn is_cancelled(&self) -> (r: bool)
        ensures
            self.is_idle() ==> !r,
            self.is_spent() ==> r,
    {
        match &self.inner {
            Cancelling::Shared(flag) => flag.load(std::sync::atomic::Ordering::Relaxed),
            Cancelling::Nobody => false,
            Cancelling::Done => true,
        }
    }

    /// `Err(Interrupted)` if cancelled.
    pub fn check(&self) -> (r: Result<(), IoError>)
        ensures
            self.is_idle() ==> r is Ok,
            self.is_spent() ==> r is Err,
            r matches Err(e) ==> e.deep_view() == (IoErrorView {
                kind: IoKind::Interrupted,
                raw_os: None,
                message: "cancelled"@,
            }),
    {
        if self.is_cancelled() {
            Err(IoError::new(IoKind::Interrupted, "cancelled"))
        } else {
            Ok(())
        }
    }
}

/// A point in time: seconds and nanoseconds since the Unix epoch.
#[derive(Debug, Clone, Copy, PartialEq, Eq, Hash, Structural)]
pub struct Stamp {
    pub secs: i64,
    pub nanos: u32,
}

/// File metadata.
#[derive(Debug, Clone, Copy, PartialEq, Eq)]
pub struct FileMeta {
    pub is_dir: bool,
    pub is_symlink: bool,
    pub len: u64,
    pub modified: Option<Stamp>,
    pub read_only: bool,
}

/// A filesystem-unique identifier.
#[derive(Debug, Clone, Copy, PartialEq, Eq, Hash, Structural)]
pub struct FileId {
    pub device: u64,
    pub inode: u64,
}

/// A content hash.
#[derive(Debug, Clone, PartialEq, Eq, Hash)]
pub struct Hash(pub String);

impl DeepView for Hash {
    type V = Seq<char>;

    open spec fn deep_view(&self) -> Seq<char> {
        self.0@
    }
}

/// One directory entry.
#[derive(Debug, Clone, PartialEq, Eq)]
pub struct DirEntry {
    pub path: FilePath,
    pub file_name: String,
    pub is_dir: bool,
    pub is_symlink: bool,
    pub len: u64,
}

/// What stands at a path.
pub enum NodeView {
    File { data: Seq<u8>, modified: Option<Stamp> },
    Dir,
    Symlink { target: PathView },
}

/// The contents of a file system: what stands at each path.
pub type Tree = Map<PathView, NodeView>;

/// Whether a file stands at a path.
pub open spec fn is_file(t: Tree, p: PathView) -> bool {
    t.dom().contains(p) && t[p] is File
}

/// Whether a directory stands at a path.
pub open spec fn is_dir(t: Tree, p: PathView) -> bool {
    t.dom().contains(p) && t[p] is Dir
}

/// The bytes of the file at a path.
pub open spec fn bytes(t: Tree, p: PathView) -> Seq<u8> {
    t[p]->data
}

/// Whether nothing stands at a path or under it.
pub open spec fn vacant(t: Tree, p: PathView) -> bool {
    forall|q: PathView| #[trigger] t.dom().contains(q) ==> !q.starts_with(p)
}

/// The path made of the first components of another.
pub open spec fn lineage(p: PathView, n: int) -> PathView {
    PathView { absolute: p.absolute, parts: p.parts.take(n) }
}

/// Whether something that is no directory stands at the path made of the first
/// components of another.
pub open spec fn blocked_at(t: Tree, p: PathView, n: int) -> bool {
    t.dom().contains(lineage(p, n)) && !is_dir(t, lineage(p, n))
}

/// Whether something that is no directory stands at a path or on the way to it.
pub open spec fn obstructed(t: Tree, p: PathView) -> bool {
    exists|n: int| 0 <= n <= p.parts.len() && #[trigger] blocked_at(t, p, n)
}

/// Where nothing but directories has been added, the same paths are obstructed.
pub proof fn lemma_obstruction_stays(a: Tree, b: Tree, p: PathView)
    requires
        only_adds_dirs(a, b),
    ensures
        obstructed(a, p) == obstructed(b, p),
{
    if obstructed(a, p) {
        let n = choose|n: int| 0 <= n <= p.parts.len() && #[trigger] blocked_at(a, p, n);
        assert(b.dom().contains(lineage(p, n)));
        assert(blocked_at(b, p, n));
    }
    if obstructed(b, p) {
        let n = choose|n: int| 0 <= n <= p.parts.len() && #[trigger] blocked_at(b, p, n);
        assert(b.dom().contains(lineage(p, n)));
        assert(blocked_at(a, p, n));
    }
}

/// Whether nothing but directories has been added.
pub open spec fn only_adds_dirs(before: Tree, after: Tree) -> bool {
    &&& forall|q: PathView| #[trigger]
        before.dom().contains(q) ==> after.dom().contains(q) && after[q] == before[q]
    &&& forall|q: PathView| #[trigger]
        after.dom().contains(q) && !before.dom().contains(q) ==> after[q] is Dir
}

/// Whether nothing has been added but at a path and above it.
pub open spec fn adds_only_above(before: Tree, after: Tree, p: PathView) -> bool {
    forall|q: PathView| #[trigger]
        after.dom().contains(q) && !before.dom().contains(q) ==> p.starts_with(q)
}

/// Whether nothing has changed but what stands at one path.
pub open spec fn same_but_at(before: Tree, after: Tree, p: PathView) -> bool {
    forall|q: PathView|
        q != p ==> (before.dom().contains(q) <==> #[trigger] after.dom().contains(q)) && (
        before.dom().contains(q) ==> after[q] == before[q])
}

impl PathView {
    /// The path with the beginning `from` replaced by `to`.
    pub open spec fn rebase(self, from: PathView, to: PathView) -> PathView {
        PathView {
            absolute: to.absolute,
            parts: to.parts + self.parts.skip(from.parts.len() as int),
        }
    }

    /// Whether this is directly under a path.
    pub open spec fn is_child_of(self, p: PathView) -> bool {
        self.parent() == Some(p)
    }
}

/// A file system in which what stood at `from`, and under it, stands at `to`.
pub open spec fn relocated(t: Tree, from: PathView, to: PathView) -> Tree {
    Map::new(
        |q: PathView|
            if q.starts_with(to) {
                t.dom().contains(q.rebase(to, from))
            } else {
                t.dom().contains(q) && !q.starts_with(from)
            },
        |q: PathView|
            if q.starts_with(to) {
                t[q.rebase(to, from)]
            } else {
                t[q]
            },
    )
}

/// Whether metadata is that of what stands at a path.
pub open spec fn describes(m: FileMeta, node: NodeView) -> bool {
    match node {
        NodeView::File { data, modified } => !m.is_dir && !m.is_symlink && m.len as nat
            == data.len() && m.modified == modified,
        NodeView::Dir => m.is_dir && !m.is_symlink,
        NodeView::Symlink { .. } => true,
    }
}

/// Whether a directory listing tells what stands under a path: each entry is
/// something directly under it, told rightly, and nothing is left out unless
/// an entry could not be read.
pub open spec fn lists_dir(list: Seq<Result<DirEntry, IoError>>, t: Tree, p: PathView) -> bool {
    &&& forall|i: int|
        0 <= i < list.len() ==> (#[trigger] list[i] matches Ok(e) ==> {
            &&& t.dom().contains(e.path.deep_view())
            &&& e.path.deep_view().is_child_of(p)
            &&& e.path.deep_view().parts.last() == e.file_name@
            &&& (t[e.path.deep_view()] is Dir ==> e.is_dir && !e.is_symlink)
            &&& (t[e.path.deep_view()] is File ==> !e.is_dir && !e.is_symlink)
            &&& (t[e.path.deep_view()] is Symlink ==> e.is_symlink)
        })
    &&& (forall|i: int| 0 <= i < list.len() ==> #[trigger] list[i] is Ok) ==> forall|q: PathView|
        #[trigger] t.dom().contains(q) && q.is_child_of(p) ==> exists|i: int|
            0 <= i < list.len() && (#[trigger] list[i])->Ok_0.path.deep_view() == q
}

/// Whether a listing has no entry that could not be read, and none twice.
pub open spec fn lists_each_once(list: Seq<Result<DirEntry, IoError>>) -> bool {
    &&& forall|i: int| 0 <= i < list.len() ==> #[trigger] list[i] is Ok
    &&& forall|i: int, j: int|
        0 <= i < j < list.len() ==> (#[trigger] list[i])->Ok_0.path.deep_view() != (
        #[trigger] list[j])->Ok_0.path.deep_view()
}

/// Something that was asked of a file system, and what came of it.
#[verifier::ext_equal]
pub enum Call {
    /// The length of what stands at a path, where it could be learnt.
    Stat { path: PathView, len: Option<u64> },
    /// The hash of a file, or why it could not be had.
    Hash { path: PathView, hash: Result<Seq<char>, IoErrorView> },
    /// A new file.
    Create { path: PathView, done: bool },
    /// A copy of the bytes of a file.
    Copy { from: PathView, to: PathView, done: bool },
    /// A time of modification.
    Stamp { path: PathView, at: Stamp, done: bool },
    /// A rename that does not replace.
    Rename { from: PathView, to: PathView, done: bool },
    /// A rename that replaces.
    Place { from: PathView, to: PathView, done: bool },
    /// The removal of a file.
    Remove { path: PathView, done: bool },
    /// What stands directly under a path, and whether every entry could be
    /// read.
    List { path: PathView, done: bool, whole: bool },
    /// The identity of what stands at a path, where it could be learnt.
    Identify { path: PathView, id: Option<FileId> },
    /// The no-replace strategy that the volume of a path calls for.
    Advise { path: PathView, strategy: NoReplaceStrategy },
    /// Whether nothing stands under a directory, where it could be learnt.
    Look { path: PathView, empty: Option<bool> },
    /// A directory and those above it.
    MakeDir { path: PathView, done: bool },
    /// The removal of a directory.
    RemoveDir { path: PathView, done: bool },
}

/// What was asked about the metadata of a path.
pub open spec fn stat_call(p: PathView, r: Result<FileMeta, IoError>) -> Call {
    Call::Stat {
        path: p,
        len: match r {
            Ok(m) => Some(m.len),
            Err(_) => None,
        },
    }
}

/// What was asked about what stands directly under a path.
pub open spec fn list_call(
    p: PathView,
    r: Result<Vec<Result<DirEntry, IoError>>, IoError>,
) -> Call {
    Call::List {
        path: p,
        done: r is Ok,
        whole: match r {
            Ok(list) => is_whole(list@),
            Err(_) => false,
        },
    }
}

/// Whether every entry of a listing could be read.
pub open spec fn is_whole(list: Seq<Result<DirEntry, IoError>>) -> bool {
    forall|i: int| 0 <= i < list.len() ==> #[trigger] list[i] is Ok
}

/// What was asked about an identity.
pub open spec fn id_call(p: PathView, r: Result<FileId, IoError>) -> Call {
    Call::Identify {
        path: p,
        id: match r {
            Ok(id) => Some(id),
            Err(_) => None,
        },
    }
}

/// What was asked about whether nothing stands under a directory.
pub open spec fn look_call(p: PathView, r: Result<bool, IoError>) -> Call {
    Call::Look {
        path: p,
        empty: match r {
            Ok(b) => Some(b),
            Err(_) => None,
        },
    }
}

/// The contents of a hash or of the error in its place.
pub open spec fn hash_view(found: Result<Hash, IoError>) -> Result<Seq<char>, IoErrorView> {
    match found {
        Ok(h) => Ok(h.deep_view()),
        Err(e) => Err(e.deep_view()),
    }
}

/// Whether calls have been made after others, which were made as they were.
pub open spec fn goes_on(a: Seq<Call>, b: Seq<Call>) -> bool {
    &&& a.len() <= b.len()
    &&& forall|k: int| 0 <= k < a.len() ==> #[trigger] b[k] == a[k]
}

/// Whether the calls that have been made after others changed nothing.
pub open spec fn only_asks(a: Seq<Call>, b: Seq<Call>) -> bool {
    &&& goes_on(a, b)
    &&& forall|k: int|
        a.len() <= k < b.len() ==> #[trigger] asks(b[k])
}

/// Whether a call changes nothing.
pub open spec fn asks(c: Call) -> bool {
    c is Stat || c is Hash || c is List || c is Look || c is Identify || c is Advise
}

/// Whether a path was found to have an identity.
pub open spec fn identifies(c: Call, p: PathView, id: FileId) -> bool {
    c == (Call::Identify { path: p, id: Some(id) })
}

/// Whether every identity that was told was told by a file system underneath.
pub open spec fn told_below(past: Seq<Call>, under: Seq<Call>) -> bool {
    forall|k: int|
        0 <= k < past.len() && (#[trigger] past[k] matches Call::Identify { id: Some(_), .. })
            ==> under.contains(past[k])
}

/// What a file system underneath has told it has told for good.
pub broadcast proof fn lemma_told_stays(past: Seq<Call>, under: Seq<Call>, c: Call, d: Call)
    requires
        told_below(past, under),
        c matches Call::Identify { id: Some(_), .. } ==> c == d,
    ensures
        #[trigger] told_below(past.push(c), under.push(d)),
{
    let (a, b) = (past.push(c), under.push(d));
    assert forall|k: int|
        0 <= k < a.len() && (#[trigger] a[k] matches Call::Identify { id: Some(_), .. }) implies
        b.contains(a[k]) by {
        if k < past.len() {
            let j = choose|j: int| 0 <= j < under.len() && under[j] == past[k];
            assert(b[j] == a[k]);
        } else {
            assert(b[under.len() as int] == a[k]);
        }
    }
}

/// Whether the first call that has been made after others listed a path, and
/// whether it could be.
pub open spec fn lists_first(a: Seq<Call>, b: Seq<Call>, p: PathView, done: bool) -> bool {
    &&& goes_on(a, b)
    &&& a.len() < b.len()
    &&& b[a.len() as int] matches Call::List { path, done: d, .. } && path == p && d == done
}

/// The file system.
///
/// What a method promises it promises where it succeeds; a failure may have
/// any cause, and leaves the files as they were unless its contract says
/// otherwise.
pub trait FileSystem: Sized {
    /// A file that has just been created and may be written to.
    type Handle;

    /// What stands where. Left open where an implementation does not say.
    open spec fn tree(&self) -> Tree {
        arbitrary()
    }

    /// The path of the file behind a handle. Left open where an implementation
    /// does not say.
    open spec fn target(h: Self::Handle) -> PathView {
        arbitrary()
    }

    /// What the volume of a path makes of names. Left open where an
    /// implementation does not say.
    open spec fn volume_at(&self, p: PathView) -> VolumeSemantics {
        arbitrary()
    }

    /// Whether it does what it is asked wherever what stands where allows it,
    /// unless it is cancelled. Not claimed where an implementation does not say.
    open spec fn is_steady(&self) -> bool {
        false
    }

    /// What has been asked of it so far, and what came of it, but for questions
    /// about links and about what a volume makes of names, and for waiting and
    /// syncing. Left open where an implementation does not say.
    open spec fn history(&self) -> Seq<Call> {
        arbitrary()
    }

    /// Metadata of what stands at a path, links followed.
    fn metadata(&mut self, p: &FilePath) -> (r: Result<FileMeta, IoError>)
        ensures
            old(self).is_steady() ==> final(self).is_steady(),
            final(self).history() == old(self).history().push(
                stat_call(p.deep_view(), r),
            ),
            old(self).is_steady() ==> r is Ok == old(self).tree().dom().contains(p.deep_view()),
            final(self).tree() == old(self).tree(),
            r matches Ok(m) ==> old(self).tree().dom().contains(p.deep_view()) && describes(
                m,
                old(self).tree()[p.deep_view()],
            ),
    ;

    /// Metadata of what stands at a path, links not followed.
    fn symlink_metadata(&mut self, p: &FilePath) -> (r: Result<FileMeta, IoError>)
        ensures
            old(self).is_steady() ==> final(self).is_steady(),
            old(self).is_steady() ==> r is Ok == old(self).tree().dom().contains(p.deep_view()),
            final(self).history() == old(self).history(),
            final(self).tree() == old(self).tree(),
            r matches Ok(m) ==> old(self).tree().dom().contains(p.deep_view()) && describes(
                m,
                old(self).tree()[p.deep_view()],
            ) && (old(self).tree()[p.deep_view()] is Symlink ==> m.is_symlink),
    ;

    /// Where a link leads.
    fn read_link(&mut self, p: &FilePath) -> (r: Result<FilePath, IoError>)
        ensures
            old(self).is_steady() ==> final(self).is_steady(),
            final(self).history() == old(self).history(),
            old(self).is_steady() ==> r is Ok == (old(self).tree().dom().contains(p.deep_view())
                && old(self).tree()[p.deep_view()] is Symlink),
            final(self).tree() == old(self).tree(),
            r matches Ok(t) ==> old(self).tree().dom().contains(p.deep_view()) && old(
                self,
            ).tree()[p.deep_view()] == (NodeView::Symlink { target: t.deep_view() }),
    ;

    /// The identity of what stands at a path.
    fn file_id(&mut self, p: &FilePath) -> (r: Result<FileId, IoError>)
        ensures
            old(self).is_steady() ==> final(self).is_steady(),
            final(self).history() == old(self).history().push(id_call(p.deep_view(), r)),
            old(self).is_steady() ==> r is Ok == old(self).tree().dom().contains(p.deep_view()),
            // A path has one identity.
            old(self).is_steady() ==> (r matches Ok(id) ==> forall|k: int, other: FileId|
                0 <= k < old(self).history().len() && #[trigger] identifies(
                    old(self).history()[k],
                    p.deep_view(),
                    other,
                ) ==> other == id),
            final(self).tree() == old(self).tree(),
            r is Ok ==> old(self).tree().dom().contains(p.deep_view()),
    ;

    /// What stands directly under a path. Entries may fail one by one.
    fn read_dir(&mut self, p: &FilePath) -> (r: Result<Vec<Result<DirEntry, IoError>>, IoError>)
        ensures
            old(self).is_steady() ==> final(self).is_steady(),
            final(self).history() == old(self).history().push(
                list_call(p.deep_view(), r),
            ),
            old(self).is_steady() ==> r is Ok == is_dir(old(self).tree(), p.deep_view()),
            old(self).is_steady() ==> (r matches Ok(list) ==> lists_each_once(list@)),
            final(self).tree() == old(self).tree(),
            r matches Ok(list) ==> is_dir(old(self).tree(), p.deep_view()) && lists_dir(
                list@,
                old(self).tree(),
                p.deep_view(),
            ),
    ;

    /// Whether nothing stands under a directory.
    fn is_dir_empty(&mut self, p: &FilePath) -> (r: Result<bool, IoError>)
        ensures
            old(self).is_steady() ==> final(self).is_steady(),
            final(self).history() == old(self).history().push(look_call(p.deep_view(), r)),
            old(self).is_steady() ==> r is Ok == is_dir(old(self).tree(), p.deep_view()),
            final(self).tree() == old(self).tree(),
            r matches Ok(b) ==> is_dir(old(self).tree(), p.deep_view()) && b == (forall|
                q: PathView,
            | #[trigger]
                old(self).tree().dom().contains(q) ==> !q.is_child_of(p.deep_view())),
    ;

    /// What the volume of a path makes of names.
    fn volume_semantics(&mut self, p: &FilePath) -> (r: Result<VolumeSemantics, IoError>)
        ensures
            old(self).is_steady() ==> final(self).is_steady(),
            final(self).history() == old(self).history(),
            final(self).tree() == old(self).tree(),
            r matches Ok(v) ==> v == old(self).volume_at(p.deep_view()),
            old(self).is_steady() ==> r is Ok,
    ;

    /// Creates a directory and those above it that are missing.
    fn create_dir_all(&mut self, p: &FilePath) -> (r: Result<(), IoError>)
        ensures
            old(self).is_steady() ==> final(self).is_steady(),
            old(self).is_steady() ==> r is Ok == !obstructed(old(self).tree(), p.deep_view()),
            final(self).history() == old(self).history().push(
                (Call::MakeDir { path: p.deep_view(), done: r is Ok }),
            ),
            only_adds_dirs(old(self).tree(), final(self).tree()),
            adds_only_above(old(self).tree(), final(self).tree(), p.deep_view()),
            r is Ok ==> is_dir(final(self).tree(), p.deep_view()),
    ;

    /// Renames, unless something stands at the new path.
    fn rename_no_replace(&mut self, from: &FilePath, to: &FilePath) -> (r: Result<(), IoError>)
        ensures
            old(self).is_steady() ==> final(self).is_steady(),
            old(self).is_steady() ==> r is Ok == (old(self).tree().dom().contains(
                from.deep_view(),
            ) && vacant(old(self).tree(), to.deep_view()) && !to.deep_view().starts_with(
                from.deep_view(),
            )),
            final(self).history() == old(self).history().push(
                (Call::Rename { from: from.deep_view(), to: to.deep_view(), done: r is Ok }),
            ),
            match r {
                Ok(()) => {
                    &&& old(self).tree().dom().contains(from.deep_view())
                    &&& vacant(old(self).tree(), to.deep_view())
                    &&& !to.deep_view().starts_with(from.deep_view())
                    &&& final(self).tree() == relocated(
                        old(self).tree(),
                        from.deep_view(),
                        to.deep_view(),
                    )
                },
                Err(_) => final(self).tree() == old(self).tree(),
            },
    ;

    /// Renames a file, replacing a file that stands at the new path.
    fn rename_replace(&mut self, from: &FilePath, to: &FilePath) -> (r: Result<(), IoError>)
        ensures
            old(self).is_steady() ==> final(self).is_steady(),
            old(self).is_steady() ==> r is Ok == (is_file(old(self).tree(), from.deep_view())
                && !is_dir(old(self).tree(), to.deep_view()) && from.deep_view()
                != to.deep_view()),
            final(self).history() == old(self).history().push(
                (Call::Place { from: from.deep_view(), to: to.deep_view(), done: r is Ok }),
            ),
            match r {
                Ok(()) => {
                    &&& is_file(old(self).tree(), from.deep_view())
                    &&& !is_dir(old(self).tree(), to.deep_view())
                    &&& from.deep_view() != to.deep_view()
                    &&& final(self).tree() == old(self).tree().remove(from.deep_view()).insert(
                        to.deep_view(),
                        old(self).tree()[from.deep_view()],
                    )
                },
                Err(_) => final(self).tree() == old(self).tree(),
            },
    ;

    /// Creates an empty file, unless something stands at the path. Missing
    /// directories above it may be created on the way.
    fn create_new(&mut self, p: &FilePath) -> (r: Result<Self::Handle, IoError>)
        ensures
            old(self).is_steady() ==> final(self).is_steady(),
            old(self).is_steady() ==> r is Ok == (vacant(old(self).tree(), p.deep_view()) && !(
            p.deep_view().parent() matches Some(up) && obstructed(old(self).tree(), up))),
            final(self).history() == old(self).history().push(
                (Call::Create { path: p.deep_view(), done: r is Ok }),
            ),
            match r {
                Ok(h) => {
                    &&& Self::target(h) == p.deep_view()
                    &&& vacant(old(self).tree(), p.deep_view())
                    &&& is_file(final(self).tree(), p.deep_view())
                    &&& bytes(final(self).tree(), p.deep_view()).len() == 0
                    &&& only_adds_dirs(
                        old(self).tree(),
                        final(self).tree().remove(p.deep_view()),
                    )
                },
                Err(_) => only_adds_dirs(old(self).tree(), final(self).tree()),
            },
    ;

    /// Copies the bytes of a file into one that has just been created. Where
    /// it fails, that one may hold anything.
    fn copy_into(
        &mut self,
        from: &FilePath,
        handle: &mut Self::Handle,
        cancel: &CancelToken,
    ) -> (r: Result<u64, IoError>)
        requires
            is_file(old(self).tree(), Self::target(*old(handle))),
            from.deep_view() != Self::target(*old(handle)),
        ensures
            old(self).is_steady() ==> final(self).is_steady(),
            final(self).history() == old(self).history().push(
                (Call::Copy { from: from.deep_view(), to: Self::target(*old(handle)), done: r is Ok }),
            ),
            old(self).is_steady() ==> (r matches Err(e) ==> !is_file(
                old(self).tree(),
                from.deep_view(),
            ) || !cancel.is_idle() && e.kind == IoKind::Interrupted),
            old(self).is_steady() && cancel.is_idle() ==> (r matches Err(e) ==> e.kind
                != IoKind::Interrupted),
            Self::target(*final(handle)) == Self::target(*old(handle)),
            same_but_at(old(self).tree(), final(self).tree(), Self::target(*old(handle))),
            is_file(final(self).tree(), Self::target(*old(handle))),
            r matches Ok(n) ==> {
                &&& is_file(old(self).tree(), from.deep_view())
                &&& bytes(final(self).tree(), Self::target(*old(handle))) == bytes(
                    old(self).tree(),
                    from.deep_view(),
                )
                &&& n as nat == bytes(old(self).tree(), from.deep_view()).len()
            },
    ;

    /// Makes a directory durable.
    fn sync_dir(&mut self, p: &FilePath) -> (r: Result<(), IoError>)
        ensures
            old(self).is_steady() ==> final(self).is_steady(),
            final(self).history() == old(self).history(),
            final(self).tree() == old(self).tree(),
    ;

    /// Sets the time at which a file was last modified.
    fn set_mtime(&mut self, p: &FilePath, t: Stamp) -> (r: Result<(), IoError>)
        ensures
            old(self).is_steady() ==> final(self).is_steady(),
            old(self).is_steady() ==> r is Ok == is_file(old(self).tree(), p.deep_view()),
            final(self).history() == old(self).history().push(
                (Call::Stamp { path: p.deep_view(), at: t, done: r is Ok }),
            ),
            match r {
                Ok(()) => {
                    &&& is_file(old(self).tree(), p.deep_view())
                    &&& final(self).tree() == old(self).tree().insert(
                        p.deep_view(),
                        NodeView::File {
                            data: bytes(old(self).tree(), p.deep_view()),
                            modified: Some(t),
                        },
                    )
                },
                Err(_) => final(self).tree() == old(self).tree(),
            },
    ;

    /// Removes a file or a link.
    fn remove_file(&mut self, p: &FilePath) -> (r: Result<(), IoError>)
        ensures
            old(self).is_steady() ==> final(self).is_steady(),
            final(self).history() == old(self).history().push(
                (Call::Remove { path: p.deep_view(), done: r is Ok }),
            ),
            old(self).is_steady() ==> r is Ok == (old(self).tree().dom().contains(
                p.deep_view(),
            ) && !is_dir(old(self).tree(), p.deep_view())),
            match r {
                Ok(()) => {
                    &&& old(self).tree().dom().contains(p.deep_view())
                    &&& !is_dir(old(self).tree(), p.deep_view())
                    &&& final(self).tree() == old(self).tree().remove(p.deep_view())
                },
                Err(_) => final(self).tree() == old(self).tree(),
            },
    ;

    /// Removes a directory, unless something stands in it.
    fn remove_dir(&mut self, p: &FilePath) -> (r: Result<(), IoError>)
        ensures
            old(self).is_steady() ==> final(self).is_steady(),
            old(self).is_steady() ==> r is Ok == (is_dir(old(self).tree(), p.deep_view()) && forall|
                q: PathView,
            | #[trigger]
                old(self).tree().dom().contains(q) ==> !q.is_child_of(p.deep_view())),
            final(self).history() == old(self).history().push(
                (Call::RemoveDir { path: p.deep_view(), done: r is Ok }),
            ),
            match r {
                Ok(()) => {
                    &&& is_dir(old(self).tree(), p.deep_view())
                    &&& forall|q: PathView| #[trigger]
                        old(self).tree().dom().contains(q) ==> !q.is_child_of(p.deep_view())
                    &&& final(self).tree() == old(self).tree().remove(p.deep_view())
                },
                Err(_) => final(self).tree() == old(self).tree(),
            },
    ;

    /// The hash of the bytes of a file.
    fn hash(&mut self, p: &FilePath, cancel: &CancelToken) -> (r: Result<Hash, IoError>)
        ensures
            old(self).is_steady() ==> final(self).is_steady(),
            final(self).history() == old(self).history().push(
                (Call::Hash { path: p.deep_view(), hash: hash_view(r) }),
            ),
            old(self).is_steady() ==> (r matches Err(e) ==> !is_file(
                old(self).tree(),
                p.deep_view(),
            ) || !cancel.is_idle() && e.kind == IoKind::Interrupted),
            old(self).is_steady() && cancel.is_idle() ==> (r matches Err(e) ==> e.kind
                != IoKind::Interrupted),
            final(self).tree() == old(self).tree(),
            r matches Ok(h) ==> is_file(old(self).tree(), p.deep_view()) && h.deep_view()
                == hashing::blake3_hex(bytes(old(self).tree(), p.deep_view())),
    ;

    /// The no-replace strategy that the volume of a path calls for.
    fn no_replace_strategy(&mut self, p: &FilePath) -> (r: NoReplaceStrategy)
        ensures
            old(self).is_steady() ==> final(self).is_steady(),
            final(self).history() == old(self).history().push(
                (Call::Advise { path: p.deep_view(), strategy: r }),
            ),
            final(self).tree() == old(self).tree(),
    ;

    /// Waits a moment before something is tried again.
    fn pause(&mut self)
        ensures
            old(self).is_steady() ==> final(self).is_steady(),
            final(self).history() == old(self).history(),
            final(self).tree() == old(self).tree(),
    ;
}

/// What stood under a path stands, after it has been relocated, under the new
/// one, and everything else where it stood.
pub proof fn law_relocation_loses_nothing(t: Tree, from: PathView, to: PathView, p: PathView)
    requires
        vacant(t, to),
        t.dom().contains(p),
    ensures
        !p.starts_with(from) ==> relocated(t, from, to).dom().contains(p) && relocated(
            t,
            from,
            to,
        )[p] == t[p],
        p.starts_with(from) ==> relocated(t, from, to).dom().contains(p.rebase(from, to))
            && relocated(t, from, to)[p.rebase(from, to)] == t[p],
{
    if p.starts_with(from) {
        let q = p.rebase(from, to);
        assert(q.parts.take(to.parts.len() as int) =~= to.parts);
        assert(q.parts.skip(to.parts.len() as int) =~= p.parts.skip(from.parts.len() as int));
        assert(from.parts + p.parts.skip(from.parts.len() as int) =~= p.parts);
        assert(q.rebase(to, from) == p);
        assert(relocated(t, from, to).dom().contains(q));
    } else {
        assert(relocated(t, from, to).dom().contains(p));
    }
}

} // verus!
