//! Fault injection: wraps a file system and lets chosen calls fail, so that it
//! can be shown that no source file is lost and that a failure does not abort
//! a run.

use crate::domain::fs::{
    hash_view, id_call, list_call, look_call, stat_call, told_below, Call, CancelToken, DirEntry,
    FileId, FileMeta, FileSystem, IoError, IoErrorView, IoKind, Stamp, Tree,
};
use crate::domain::path::{FilePath, PathView};
use crate::domain::volume::{NoReplaceStrategy, VolumeSemantics};
use vstd::prelude::*;

verus! {

broadcast use crate::domain::fs::lemma_told_stays;

/// Which method to inject a fault into.
#[derive(Debug, Clone, Copy, PartialEq, Eq, Hash, Structural)]
pub enum Method {
    Metadata,
    SymlinkMetadata,
    FileId,
    ReadDir,
    IsDirEmpty,
    CreateDirAll,
    RenameNoReplace,
    RenameReplace,
    CreateNew,
    CopyInto,
    SyncDir,
    SetMtime,
    RemoveFile,
    RemoveDir,
    Hash,
}

/// The kind of error to inject.
#[derive(Debug, Clone, Copy, PartialEq, Eq, Structural)]
pub enum InjectErr {
    PermissionDenied,
    ReadOnlyFilesystem,
    CrossesDevices,
    NotFound,
    AlreadyExists,
    StorageFull,
    Interrupted,
    Other,
}

impl InjectErr {
    /// The kind of error that is injected.
    pub open spec fn kind(self) -> IoKind {
        match self {
            InjectErr::PermissionDenied => IoKind::PermissionDenied,
            InjectErr::ReadOnlyFilesystem => IoKind::ReadOnlyFilesystem,
            InjectErr::CrossesDevices => IoKind::CrossesDevices,
            InjectErr::NotFound => IoKind::NotFound,
            InjectErr::AlreadyExists => IoKind::AlreadyExists,
            InjectErr::StorageFull => IoKind::StorageFull,
            InjectErr::Interrupted => IoKind::Interrupted,
            InjectErr::Other => IoKind::Other,
        }
    }

    /// The error that is injected.
    pub open spec fn error(self) -> IoErrorView {
        IoErrorView { kind: self.kind(), raw_os: None, message: self.kind().label() }
    }

    /// The error that is injected.
    fn into_io(self) -> (r: IoError)
        ensures
            r.deep_view() == self.error(),
    {
        match self {
            InjectErr::PermissionDenied => IoError::of(IoKind::PermissionDenied),
            InjectErr::ReadOnlyFilesystem => IoError::of(IoKind::ReadOnlyFilesystem),
            InjectErr::CrossesDevices => IoError::of(IoKind::CrossesDevices),
            InjectErr::NotFound => IoError::of(IoKind::NotFound),
            InjectErr::AlreadyExists => IoError::of(IoKind::AlreadyExists),
            InjectErr::StorageFull => IoError::of(IoKind::StorageFull),
            InjectErr::Interrupted => IoError::of(IoKind::Interrupted),
            InjectErr::Other => IoError::of(IoKind::Other),
        }
    }
}

/// One injected fault: the `call_index`th call to `method` returns `err`.
#[derive(Debug, Clone, Copy, PartialEq, Eq, Structural)]
pub struct Fault {
    pub call_index: u64,
    pub method: Method,
    pub err: InjectErr,
}

/// How often a method is among the calls.
pub open spec fn calls_to(calls: Seq<Method>, m: Method) -> nat
    decreases calls.len(),
{
    if calls.len() == 0 {
        0
    } else {
        calls_to(calls.drop_last(), m) + if calls.last() == m {
            1nat
        } else {
            0nat
        }
    }
}

/// The first fault that is set for the `nth` call to a method.
pub open spec fn fault_at(faults: Seq<Fault>, m: Method, nth: nat) -> Option<InjectErr>
    decreases faults.len(),
{
    if faults.len() == 0 {
        None
    } else if faults[0].method == m && faults[0].call_index as nat == nth {
        Some(faults[0].err)
    } else {
        fault_at(faults.skip(1), m, nth)
    }
}

/// The failure of a chosen operation, whatever its method.
pub open spec fn hard_failure() -> IoErrorView {
    IoErrorView { kind: IoKind::Other, raw_os: None, message: "hard fail at op n"@ }
}

/// A wrapper that injects faults into an underlying file system.
pub struct FaultyFs<F: FileSystem> {
    inner: F,
    faults: Vec<Fault>,
    calls: Vec<Method>,
    hard_fail_at: Option<u64>,
    past: Ghost<Seq<Call>>,
}

impl<F: FileSystem> FaultyFs<F> {
    /// The faults that are set.
    pub closed spec fn set_faults(&self) -> Seq<Fault> {
        self.faults@
    }

    /// The calls so far, in order.
    pub closed spec fn made(&self) -> Seq<Method> {
        self.calls@
    }

    /// The operation that fails whatever its method, if one is set.
    pub closed spec fn hard_fail(&self) -> Option<u64> {
        self.hard_fail_at
    }

    /// The file system underneath.
    pub closed spec fn under(&self) -> F {
        self.inner
    }

    /// The error that the next call brings if it is to a method.
    pub open spec fn next_fault(&self, m: Method) -> Option<IoErrorView> {
        if self.hard_fail() matches Some(n) && n as nat == self.made().len() + 1 {
            Some(hard_failure())
        } else {
            match fault_at(self.set_faults(), m, calls_to(self.made(), m) + 1) {
                Some(e) => Some(e.error()),
                None => None,
            }
        }
    }

    /// Whether a call to a method has been counted, and the faults are as they
    /// were.
    pub open spec fn counts(&self, before: &Self, m: Method) -> bool {
        &&& self.made() == before.made().push(m)
        &&& self.set_faults() == before.set_faults()
        &&& self.hard_fail() == before.hard_fail()
    }

    /// A file system without faults.
    pub fn new(inner: F) -> (r: Self)
        ensures
            r.under() == inner,
            r.tree() == inner.tree(),
            r.set_faults() == Seq::<Fault>::empty(),
            r.made() == Seq::<Method>::empty(),
            r.hard_fail() is None,
            r.history() == Seq::<Call>::empty(),
    {
        FaultyFs {
            inner,
            faults: Vec::new(),
            calls: Vec::new(),
            hard_fail_at: None,
            past: Ghost(Seq::empty()),
        }
    }

    /// A file system with faults.
    pub fn with_faults(inner: F, faults: Vec<Fault>) -> (r: Self)
        ensures
            r.under() == inner,
            r.tree() == inner.tree(),
            r.set_faults() == faults@,
            r.made() == Seq::<Method>::empty(),
            r.hard_fail() is None,
            r.history() == Seq::<Call>::empty(),
    {
        FaultyFs {
            inner,
            faults,
            calls: Vec::new(),
            hard_fail_at: None,
            past: Ghost(Seq::empty()),
        }
    }

    /// Make the *n*th operation (any method) fail hard.
    pub fn fail_at_nth(self, n: u64) -> (r: Self)
        ensures
            r.under() == self.under(),
            r.tree() == self.tree(),
            r.set_faults() == self.set_faults(),
            r.made() == self.made(),
            r.hard_fail() == Some(n),
    {
        FaultyFs {
            inner: self.inner,
            faults: self.faults,
            calls: self.calls,
            hard_fail_at: Some(n),
            past: self.past,
        }
    }

    /// The file system underneath.
    pub fn inner(&self) -> (r: &F)
        ensures
            *r == self.under(),
            r.tree() == self.tree(),
    {
        &self.inner
    }

    /// Counts a call, and tells whether it fails.
    fn check(&mut self, m: Method) -> (r: Option<IoError>)
        ensures
            r.deep_view() == old(self).next_fault(m),
            final(self).under() == old(self).under(),
            final(self).set_faults() == old(self).set_faults(),
            final(self).hard_fail() == old(self).hard_fail(),
            final(self).made() == old(self).made().push(m),
            final(self).history() == old(self).history(),
    {
        let ghost before = self.calls@;
        self.calls.push(m);
        let mut nth: u64 = 0;
        let mut i: usize = 0;
        while i < self.calls.len()
            invariant
                i <= self.calls@.len(),
                nth as nat == calls_to(self.calls@.take(i as int), m),
                nth <= i,
                self.calls@ == before.push(m),
                self.inner == old(self).inner,
                self.faults == old(self).faults,
                self.hard_fail_at == old(self).hard_fail_at,
                self.past == old(self).past,
            decreases self.calls@.len() - i,
        {
            proof {
                assert(self.calls@.take(i + 1).drop_last() =~= self.calls@.take(i as int));
                assert(self.calls@.take(i + 1).last() == self.calls@[i as int]);
            }
            if self.calls[i] == m {
                nth = nth + 1;
            }
            i = i + 1;
        }
        proof {
            assert(self.calls@.take(i as int) =~= self.calls@);
            assert(self.calls@.drop_last() =~= before);
        }
        if let Some(n) = self.hard_fail_at {
            if self.calls.len() as u64 == n {
                return Some(IoError::new(IoKind::Other, "hard fail at op n"));
            }
        }
        let ghost all = self.faults@;
        let mut k: usize = 0;
        proof {
            assert(all.skip(0) =~= all);
        }
        while k < self.faults.len()
            invariant
                k <= self.faults@.len(),
                all == self.faults@,
                fault_at(all, m, nth as nat) == fault_at(all.skip(k as int), m, nth as nat),
                nth as nat == calls_to(before, m) + 1,
                before == old(self).calls@,
                self.calls@ == before.push(m),
                self.inner == old(self).inner,
                self.faults == old(self).faults,
                self.hard_fail_at == old(self).hard_fail_at,
                self.past == old(self).past,
                !(self.hard_fail_at matches Some(n) && n as nat == before.len() + 1),
            decreases self.faults@.len() - k,
        {
            proof {
                assert(all.skip(k as int)[0] == all[k as int]);
                assert(all.skip(k as int).skip(1) =~= all.skip(k + 1));
            }
            if self.faults[k].method == m && self.faults[k].call_index == nth {
                return Some(self.faults[k].err.into_io());
            }
            k = k + 1;
        }
        proof {
            assert(all.skip(k as int) =~= Seq::empty());
        }
        None
    }
}

impl<F: FileSystem> FileSystem for FaultyFs<F> {
    type Handle = F::Handle;

    closed spec fn tree(&self) -> Tree {
        self.inner.tree()
    }

    closed spec fn target(h: F::Handle) -> PathView {
        F::target(h)
    }

    open spec fn is_steady(&self) -> bool {
        &&& self.under().is_steady()
        &&& self.set_faults().len() == 0
        &&& self.hard_fail() is None
        &&& told_below(self.history(), self.under().history())
    }

    closed spec fn history(&self) -> Seq<Call> {
        self.past@
    }

    closed spec fn volume_at(&self, p: PathView) -> VolumeSemantics {
        self.inner.volume_at(p)
    }

    fn metadata(&mut self, p: &FilePath) -> (r: Result<FileMeta, IoError>)
        ensures
            final(self).counts(old(self), Method::Metadata),
            old(self).next_fault(Method::Metadata) matches Some(f) ==> (r matches Err(e)
                && e.deep_view() == f && final(self).tree() == old(self).tree()),
    {
        if let Some(e) = self.check(Method::Metadata) {
            let r = Err(e);
            self.past = Ghost(self.past@.push(stat_call(p.deep_view(), r)));
            return r;
        }
        let r = self.inner.metadata(p);
        self.past = Ghost(self.past@.push(stat_call(p.deep_view(), r)));
        r
    }

    fn symlink_metadata(&mut self, p: &FilePath) -> (r: Result<FileMeta, IoError>)
        ensures
            final(self).counts(old(self), Method::SymlinkMetadata),
            old(self).next_fault(Method::SymlinkMetadata) matches Some(f) ==> (r matches Err(e)
                && e.deep_view() == f && final(self).tree() == old(self).tree()),
    {
        if let Some(e) = self.check(Method::SymlinkMetadata) {
            return Err(e);
        }
        self.inner.symlink_metadata(p)
    }

    fn read_link(&mut self, p: &FilePath) -> (r: Result<FilePath, IoError>) {
        self.inner.read_link(p)
    }

    fn file_id(&mut self, p: &FilePath) -> (r: Result<FileId, IoError>)
        ensures
            final(self).counts(old(self), Method::FileId),
            old(self).next_fault(Method::FileId) matches Some(f) ==> (r matches Err(e)
                && e.deep_view() == f && final(self).tree() == old(self).tree()),
    {
        if let Some(e) = self.check(Method::FileId) {
            let r = Err(e);
            self.past = Ghost(self.past@.push(id_call(p.deep_view(), r)));
            return r;
        }
        let r = self.inner.file_id(p);
        self.past = Ghost(self.past@.push(id_call(p.deep_view(), r)));
        r
    }

    fn read_dir(&mut self, p: &FilePath) -> (r: Result<Vec<Result<DirEntry, IoError>>, IoError>)
        ensures
            final(self).counts(old(self), Method::ReadDir),
            old(self).next_fault(Method::ReadDir) matches Some(f) ==> (r matches Err(e)
                && e.deep_view() == f && final(self).tree() == old(self).tree()),
    {
        if let Some(e) = self.check(Method::ReadDir) {
            let r = Err(e);
            self.past = Ghost(self.past@.push(list_call(p.deep_view(), r)));
            return r;
        }
        let r = self.inner.read_dir(p);
        self.past = Ghost(self.past@.push(list_call(p.deep_view(), r)));
        r
    }

    fn is_dir_empty(&mut self, p: &FilePath) -> (r: Result<bool, IoError>)
        ensures
            final(self).counts(old(self), Method::IsDirEmpty),
            old(self).next_fault(Method::IsDirEmpty) matches Some(f) ==> (r matches Err(e)
                && e.deep_view() == f && final(self).tree() == old(self).tree()),
    {
        if let Some(e) = self.check(Method::IsDirEmpty) {
            let r = Err(e);
            self.past = Ghost(self.past@.push(look_call(p.deep_view(), r)));
            return r;
        }
        let r = self.inner.is_dir_empty(p);
        self.past = Ghost(self.past@.push(look_call(p.deep_view(), r)));
        r
    }

    fn volume_semantics(&mut self, p: &FilePath) -> (r: Result<VolumeSemantics, IoError>) {
        self.inner.volume_semantics(p)
    }

    fn create_dir_all(&mut self, p: &FilePath) -> (r: Result<(), IoError>)
        ensures
            final(self).counts(old(self), Method::CreateDirAll),
            old(self).next_fault(Method::CreateDirAll) matches Some(f) ==> (r matches Err(e)
                && e.deep_view() == f && final(self).tree() == old(self).tree()),
    {
        if let Some(e) = self.check(Method::CreateDirAll) {
            let r = Err(e);
            self.past = Ghost(self.past@.push(Call::MakeDir { path: p.deep_view(), done: r is Ok }));
            return r;
        }
        let r = self.inner.create_dir_all(p);
        self.past = Ghost(self.past@.push(Call::MakeDir { path: p.deep_view(), done: r is Ok }));
        r
    }

    fn rename_no_replace(&mut self, from: &FilePath, to: &FilePath) -> (r: Result<(), IoError>)
        ensures
            final(self).counts(old(self), Method::RenameNoReplace),
            old(self).next_fault(Method::RenameNoReplace) matches Some(f) ==> (r matches Err(e)
                && e.deep_view() == f && final(self).tree() == old(self).tree()),
    {
        if let Some(e) = self.check(Method::RenameNoReplace) {
            let r = Err(e);
            self.past = Ghost(self.past@.push(Call::Rename { from: from.deep_view(), to: to.deep_view(), done: r is Ok }));
            return r;
        }
        let r = self.inner.rename_no_replace(from, to);
        self.past = Ghost(self.past@.push(Call::Rename { from: from.deep_view(), to: to.deep_view(), done: r is Ok }));
        r
    }

    fn rename_replace(&mut self, from: &FilePath, to: &FilePath) -> (r: Result<(), IoError>)
        ensures
            final(self).counts(old(self), Method::RenameReplace),
            old(self).next_fault(Method::RenameReplace) matches Some(f) ==> (r matches Err(e)
                && e.deep_view() == f && final(self).tree() == old(self).tree()),
    {
        if let Some(e) = self.check(Method::RenameReplace) {
            let r = Err(e);
            self.past = Ghost(self.past@.push(Call::Place { from: from.deep_view(), to: to.deep_view(), done: r is Ok }));
            return r;
        }
        let r = self.inner.rename_replace(from, to);
        self.past = Ghost(self.past@.push(Call::Place { from: from.deep_view(), to: to.deep_view(), done: r is Ok }));
        r
    }

    fn create_new(&mut self, p: &FilePath) -> (r: Result<F::Handle, IoError>)
        ensures
            final(self).counts(old(self), Method::CreateNew),
            old(self).next_fault(Method::CreateNew) matches Some(f) ==> (r matches Err(e)
                && e.deep_view() == f && final(self).tree() == old(self).tree()),
    {
        if let Some(e) = self.check(Method::CreateNew) {
            let r = Err(e);
            self.past = Ghost(self.past@.push(Call::Create { path: p.deep_view(), done: r is Ok }));
            return r;
        }
        let r = self.inner.create_new(p);
        self.past = Ghost(self.past@.push(Call::Create { path: p.deep_view(), done: r is Ok }));
        r
    }

    fn copy_into(&mut self, from: &FilePath, handle: &mut F::Handle, cancel: &CancelToken) -> (r: Result<u64, IoError>)
        ensures
            final(self).counts(old(self), Method::CopyInto),
            old(self).next_fault(Method::CopyInto) matches Some(f) ==> (r matches Err(e)
                && e.deep_view() == f && final(self).tree() == old(self).tree()),
    {
        if let Some(e) = self.check(Method::CopyInto) {
            let r = Err(e);
            self.past = Ghost(self.past@.push(Call::Copy { from: from.deep_view(), to: F::target(*old(handle)), done: r is Ok }));
            return r;
        }
        let r = self.inner.copy_into(from, handle, cancel);
        self.past = Ghost(self.past@.push(Call::Copy { from: from.deep_view(), to: F::target(*old(handle)), done: r is Ok }));
        r
    }

    fn sync_dir(&mut self, p: &FilePath) -> (r: Result<(), IoError>)
        ensures
            final(self).counts(old(self), Method::SyncDir),
            old(self).next_fault(Method::SyncDir) matches Some(f) ==> (r matches Err(e)
                && e.deep_view() == f && final(self).tree() == old(self).tree()),
    {
        if let Some(e) = self.check(Method::SyncDir) {
            return Err(e);
        }
        self.inner.sync_dir(p)
    }

    fn set_mtime(&mut self, p: &FilePath, t: Stamp) -> (r: Result<(), IoError>)
        ensures
            final(self).counts(old(self), Method::SetMtime),
            old(self).next_fault(Method::SetMtime) matches Some(f) ==> (r matches Err(e)
                && e.deep_view() == f && final(self).tree() == old(self).tree()),
    {
        if let Some(e) = self.check(Method::SetMtime) {
            let r = Err(e);
            self.past = Ghost(self.past@.push(Call::Stamp { path: p.deep_view(), at: t, done: r is Ok }));
            return r;
        }
        let r = self.inner.set_mtime(p, t);
        self.past = Ghost(self.past@.push(Call::Stamp { path: p.deep_view(), at: t, done: r is Ok }));
        r
    }

    fn remove_file(&mut self, p: &FilePath) -> (r: Result<(), IoError>)
        ensures
            final(self).counts(old(self), Method::RemoveFile),
            old(self).next_fault(Method::RemoveFile) matches Some(f) ==> (r matches Err(e)
                && e.deep_view() == f && final(self).tree() == old(self).tree()),
    {
        if let Some(e) = self.check(Method::RemoveFile) {
            let r = Err(e);
            self.past = Ghost(self.past@.push(Call::Remove { path: p.deep_view(), done: r is Ok }));
            return r;
        }
        let r = self.inner.remove_file(p);
        self.past = Ghost(self.past@.push(Call::Remove { path: p.deep_view(), done: r is Ok }));
        r
    }

    fn remove_dir(&mut self, p: &FilePath) -> (r: Result<(), IoError>)
        ensures
            final(self).counts(old(self), Method::RemoveDir),
            old(self).next_fault(Method::RemoveDir) matches Some(f) ==> (r matches Err(e)
                && e.deep_view() == f && final(self).tree() == old(self).tree()),
    {
        if let Some(e) = self.check(Method::RemoveDir) {
            let r = Err(e);
            self.past = Ghost(self.past@.push(Call::RemoveDir { path: p.deep_view(), done: r is Ok }));
            return r;
        }
        let r = self.inner.remove_dir(p);
        self.past = Ghost(self.past@.push(Call::RemoveDir { path: p.deep_view(), done: r is Ok }));
        r
    }

    fn hash(&mut self, p: &FilePath, cancel: &CancelToken) -> (r: Result<crate::domain::fs::Hash, IoError>)
        ensures
            final(self).counts(old(self), Method::Hash),
            old(self).next_fault(Method::Hash) matches Some(f) ==> (r matches Err(e)
                && e.deep_view() == f && final(self).tree() == old(self).tree()),
    {
        if let Some(e) = self.check(Method::Hash) {
            let r = Err(e);
            self.past = Ghost(self.past@.push(Call::Hash { path: p.deep_view(), hash: hash_view(r) }));
            return r;
        }
        let r = self.inner.hash(p, cancel);
        self.past = Ghost(self.past@.push(Call::Hash { path: p.deep_view(), hash: hash_view(r) }));
        r
    }

    fn no_replace_strategy(&mut self, p: &FilePath) -> (r: NoReplaceStrategy) {
        let r = self.inner.no_replace_strategy(p);
        self.past = Ghost(self.past@.push(Call::Advise { path: p.deep_view(), strategy: r }));
        r
    }

    fn pause(&mut self) {
        self.inner.pause()
    }
}

} // verus!
