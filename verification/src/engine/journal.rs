//! Append-only journal.
//!
//! Two records per operation: the intent before it, the outcome after it.
//! Every record carries the run, the root and the configuration digest, so
//! that an intent without an outcome can be told to belong to a run.

use crate::domain::duplicate::Duplicate;
use crate::domain::error::FatalReason;
use crate::domain::path::{FilePath, PathView};
use crate::domain::plan::{Plan, PlanView};
use crate::domain::run_id::RunId;
use crate::engine::calendar::{is_time, rfc3339_now};
use crate::text;
use crate::text::{CharClass, Class};
use vstd::prelude::*;

verus! {

/// Intent or outcome of a journaled operation.
#[derive(Debug, Clone, Copy, PartialEq, Eq, Structural)]
pub enum JournalPhase {
    Intent,
    Outcome,
}

/// Kind of journaled operation.
#[derive(Debug, Clone, Copy, PartialEq, Eq, Structural)]
pub enum JournalOp {
    Move,
    DirCreate,
    DirRename,
    DirRemove,
    Reclaim,
}

/// One record. An outcome has the number of its intent.
#[derive(Debug, Clone, PartialEq, Eq)]
pub struct JournalEntry {
    pub ts: String,
    pub run_id: RunId,
    pub root: FilePath,
    pub config_digest: String,
    pub seq: u64,
    pub phase: JournalPhase,
    pub op: JournalOp,
    pub from: Option<FilePath>,
    pub to: Option<FilePath>,
    pub status: Option<String>,
    pub bytes: Option<u64>,
    pub message: Option<String>,
}

/// What a [`JournalEntry`] says: all of it but the time.
#[verifier::ext_equal]
pub struct RecordView {
    pub run_id: RunId,
    pub root: PathView,
    pub config_digest: Seq<char>,
    pub seq: u64,
    pub phase: JournalPhase,
    pub op: JournalOp,
    pub from: Option<PathView>,
    pub to: Option<PathView>,
    pub status: Option<Seq<char>>,
    pub bytes: Option<u64>,
    pub message: Option<Seq<char>>,
}

/// The contents of a [`JournalEntry`]: what it says and when it was written.
#[verifier::ext_equal]
pub struct EntryView {
    pub ts: Seq<char>,
    pub record: RecordView,
}

/// What some entries say, in order.
pub open spec fn said(entries: Seq<EntryView>) -> Seq<RecordView> {
    Seq::new(entries.len(), |i: int| entries[i].record)
}

impl JournalEntry {
    /// What the entry says.
    pub open spec fn record(&self) -> RecordView {
        RecordView {
            run_id: self.run_id,
            root: self.root.deep_view(),
            config_digest: self.config_digest@,
            seq: self.seq,
            phase: self.phase,
            op: self.op,
            from: self.from.deep_view(),
            to: self.to.deep_view(),
            status: self.status.deep_view(),
            bytes: self.bytes,
            message: self.message.deep_view(),
        }
    }
}

impl DeepView for JournalEntry {
    type V = EntryView;

    open spec fn deep_view(&self) -> EntryView {
        EntryView { ts: self.ts@, record: self.record() }
    }
}

impl Duplicate for JournalEntry {
    fn duplicate(&self) -> (r: Self) {
        JournalEntry {
            ts: self.ts.clone(),
            run_id: self.run_id,
            root: self.root.duplicate(),
            config_digest: self.config_digest.clone(),
            seq: self.seq,
            phase: self.phase,
            op: self.op,
            from: self.from.duplicate(),
            to: self.to.duplicate(),
            status: self.status.duplicate(),
            bytes: self.bytes,
            message: self.message.duplicate(),
        }
    }
}

/// Where entries and plans are written through to. Unless it takes all that it
/// is given, whether it does is not known beforehand.
pub trait JournalStore {
    /// Whether the store takes all that it is given. Left open where an
    /// implementation does not say.
    open spec fn takes_all(&self) -> bool {
        arbitrary()
    }

    /// The entries that the store has taken, in order: each was written through
    /// before the store said so. Left open where an implementation does not
    /// say.
    open spec fn written(&self) -> Seq<EntryView> {
        arbitrary()
    }

    /// The plans that the store has taken, in order, each with the place that
    /// it was written to. Left open where an implementation does not say.
    open spec fn plans(&self) -> Seq<(PathView, PlanView)> {
        arbitrary()
    }

    /// Writes one entry through; an error says why it could not.
    fn append(&mut self, entry: &JournalEntry) -> (r: Result<(), String>)
        ensures
            old(self).takes_all() ==> r is Ok && final(self).takes_all(),
            r is Ok ==> final(self).written() == old(self).written().push(entry.deep_view()),
            r is Err ==> final(self).written() == old(self).written(),
            final(self).plans() == old(self).plans(),
    ;

    /// Writes a plan through; an error says why it could not.
    fn save_plan(&mut self, dest: &FilePath, plan: &Plan) -> (r: Result<(), String>)
        ensures
            old(self).takes_all() ==> r is Ok && final(self).takes_all(),
            r is Ok ==> final(self).plans() == old(self).plans().push(
                (dest.deep_view(), plan.deep_view()),
            ),
            r is Err ==> final(self).plans() == old(self).plans(),
            final(self).written() == old(self).written(),
    ;
}

/// A store that takes everything and holds on to nothing when the program
/// runs: the journal itself holds the entries.
pub struct NoStore {
    written: Ghost<Seq<EntryView>>,
    plans: Ghost<Seq<(PathView, PlanView)>>,
}

impl NoStore {
    /// A store that has taken nothing yet.
    pub fn new() -> (r: Self)
        ensures
            r.takes_all(),
            r.written() == Seq::<EntryView>::empty(),
            r.plans() == Seq::<(PathView, PlanView)>::empty(),
    {
        NoStore { written: Ghost(Seq::empty()), plans: Ghost(Seq::empty()) }
    }
}

impl JournalStore for NoStore {
    open spec fn takes_all(&self) -> bool {
        true
    }

    closed spec fn written(&self) -> Seq<EntryView> {
        self.written@
    }

    closed spec fn plans(&self) -> Seq<(PathView, PlanView)> {
        self.plans@
    }

    fn append(&mut self, entry: &JournalEntry) -> (r: Result<(), String>)
        ensures
            r is Ok,
    {
        proof {
            self.written@ = self.written@.push(entry.deep_view());
        }
        Ok(())
    }

    fn save_plan(&mut self, dest: &FilePath, plan: &Plan) -> (r: Result<(), String>)
        ensures
            r is Ok,
    {
        proof {
            self.plans@ = self.plans@.push((dest.deep_view(), plan.deep_view()));
        }
        Ok(())
    }
}

/// What a journal began with: how many entries were read, and what the store
/// had taken by then.
pub struct Opening {
    pub count: nat,
    pub written: Seq<EntryView>,
}

/// Append-only journal: a store plus the records so far.
pub struct Journal<S: JournalStore> {
    path: FilePath,
    dir: FilePath,
    store: S,
    entries: Vec<JournalEntry>,
    next_seq: u64,
    run_id: RunId,
    root: FilePath,
    config_digest: String,
    opened: Ghost<Opening>,
}

/// Whether an entry says what is given, and has a time.
pub open spec fn is_stamped(e: EntryView, record: RecordView) -> bool {
    e.record == record && is_time(e.ts)
}

/// Whether an intent has an outcome among records.
pub open spec fn has_outcome(entries: Seq<RecordView>, e: RecordView) -> bool {
    exists|i: int|
        0 <= i < entries.len() && (#[trigger] entries[i]).phase == JournalPhase::Outcome
            && entries[i].run_id == e.run_id && entries[i].seq == e.seq
}

/// Whether a record says that what an intent has left over was deleted: one of
/// the same destination that came later, whichever move it was written for.
pub open spec fn reclaims(o: RecordView, e: RecordView) -> bool {
    &&& o.phase == JournalPhase::Outcome
    &&& o.op == JournalOp::Reclaim
    &&& o.status == Some("SUCCESS"@)
    &&& o.seq > e.seq
    &&& o.to == e.to
}

/// Whether records say that what an intent has left over was deleted. What
/// stands there since then is not of its making.
pub open spec fn is_reclaimed(entries: Seq<RecordView>, e: RecordView) -> bool {
    exists|i: int| 0 <= i < entries.len() && reclaims(#[trigger] entries[i], e)
}

/// Whether a record is an intent without an outcome, of the given root where
/// one is given.
pub open spec fn is_unmatched(
    entries: Seq<RecordView>,
    e: RecordView,
    root: Option<PathView>,
) -> bool {
    &&& e.phase == JournalPhase::Intent
    &&& root matches Some(r) ==> e.root == r
    &&& !has_outcome(entries, e)
}

/// The intents without an outcome among the first `n` records, in order.
pub open spec fn unmatched_upto(
    entries: Seq<RecordView>,
    n: int,
    root: Option<PathView>,
) -> Seq<RecordView>
    decreases n,
{
    if n <= 0 || n > entries.len() {
        Seq::empty()
    } else {
        let rest = unmatched_upto(entries, n - 1, root);
        if is_unmatched(entries, entries[n - 1], root) {
            rest.push(entries[n - 1])
        } else {
            rest
        }
    }
}

/// The intents without an outcome, in order.
pub open spec fn unmatched(entries: Seq<RecordView>, root: Option<PathView>) -> Seq<RecordView> {
    unmatched_upto(entries, entries.len() as int, root)
}

/// The number after the greatest of the records.
pub open spec fn next_number(entries: Seq<RecordView>) -> u64
    decreases entries.len(),
{
    if entries.len() == 0 {
        1
    } else {
        let rest = next_number(entries.drop_last());
        let n = entries.last().seq;
        if n < rest {
            rest
        } else if n < u64::MAX {
            (n + 1) as u64
        } else {
            n
        }
    }
}

impl<S: JournalStore> Journal<S> {
    /// The entries so far.
    pub closed spec fn kept(&self) -> Seq<EntryView> {
        self.entries.deep_view()
    }

    /// What the entries so far say.
    pub closed spec fn records(&self) -> Seq<RecordView> {
        said(self.entries.deep_view())
    }

    /// The entries that the store has taken.
    pub closed spec fn written(&self) -> Seq<EntryView> {
        self.store.written()
    }

    /// The plans that the store has taken, each with its place.
    pub closed spec fn plans(&self) -> Seq<(PathView, PlanView)> {
        self.store.plans()
    }

    /// What the journal began with.
    pub closed spec fn opening(&self) -> Opening {
        self.opened@
    }

    /// Whether the store holds, behind what it held when the journal was
    /// opened, every entry that the journal has kept since then and nothing
    /// else, and each of them has the time at which it was written.
    pub closed spec fn is_synced(&self) -> bool {
        let n = self.opening().count as int;
        &&& n <= self.kept().len()
        &&& self.written() == self.opening().written + self.kept().skip(n)
        &&& forall|k: int| n <= k < self.kept().len() ==> is_time((#[trigger] self.kept()[k]).ts)
    }

    /// The number of the next intent.
    pub closed spec fn next(&self) -> u64 {
        self.next_seq
    }

    /// The run that records are written for.
    pub closed spec fn run(&self) -> RunId {
        self.run_id
    }

    /// The root that records are written for.
    pub closed spec fn bound_root(&self) -> PathView {
        self.root.deep_view()
    }

    /// The configuration digest that records are written with.
    pub closed spec fn digest(&self) -> Seq<char> {
        self.config_digest@
    }

    /// Where the journal is kept.
    pub closed spec fn location(&self) -> PathView {
        self.path.deep_view()
    }

    /// The directory that the journal is kept in.
    pub closed spec fn directory(&self) -> PathView {
        self.dir.deep_view()
    }

    /// Whether the store behind the journal takes all that it is given.
    pub closed spec fn is_reliable(&self) -> bool {
        self.store.takes_all()
    }

    /// Whether it is the same journal, over the same store, which is as true to
    /// the journal as it was.
    pub open spec fn same_store(&self, other: &Self) -> bool {
        &&& other.is_reliable() ==> self.is_reliable()
        &&& other.is_synced() ==> self.is_synced()
        &&& self.opening() == other.opening()
        &&& self.location() == other.location()
        &&& self.directory() == other.directory()
    }

    /// Whether nothing but the records, the next number and the plans differs.
    pub open spec fn bound_alike(&self, other: &Self) -> bool {
        &&& self.same_store(other)
        &&& self.run() == other.run()
        &&& self.bound_root() == other.bound_root()
        &&& self.digest() == other.digest()
    }

    /// Whether nothing but the records and the next number differs.
    pub open spec fn same_binding(&self, other: &Self) -> bool {
        &&& self.bound_alike(other)
        &&& self.plans() == other.plans()
    }

    /// Whether one entry was added to the journal and to its store alike, which
    /// says what is given and has the time.
    pub open spec fn adds(&self, before: &Self, record: RecordView) -> bool {
        exists|e: EntryView| #[trigger]
            is_stamped(e, record) && self.kept() == before.kept().push(e) && self.written()
                == before.written().push(e)
    }

    /// Whether neither the journal nor its store has taken an entry.
    pub open spec fn adds_nothing(&self, before: &Self) -> bool {
        self.kept() == before.kept() && self.written() == before.written()
    }

    /// The intent that is written next.
    pub open spec fn intent(
        &self,
        op: JournalOp,
        from: Option<PathView>,
        to: Option<PathView>,
    ) -> RecordView {
        RecordView {
            run_id: self.run(),
            root: self.bound_root(),
            config_digest: self.digest(),
            seq: self.next(),
            phase: JournalPhase::Intent,
            op,
            from,
            to,
            status: None,
            bytes: None,
            message: None,
        }
    }

    /// The outcome of an intent.
    pub open spec fn outcome(
        &self,
        seq: u64,
        op: JournalOp,
        from: Option<PathView>,
        to: Option<PathView>,
        status: Seq<char>,
        bytes: Option<u64>,
        message: Option<Seq<char>>,
    ) -> RecordView {
        RecordView {
            run_id: self.run(),
            root: self.bound_root(),
            config_digest: self.digest(),
            seq,
            phase: JournalPhase::Outcome,
            op,
            from,
            to,
            status: Some(status),
            bytes,
            message,
        }
    }

    /// A journal without records.
    pub fn create(path: &FilePath, store: S) -> (r: Self)
        ensures
            r.kept() == Seq::<EntryView>::empty(),
            r.records() == Seq::<RecordView>::empty(),
            r.next() == 1,
            r.is_reliable() == store.takes_all(),
            r.is_synced(),
            r.written() == store.written(),
            r.plans() == store.plans(),
            r.opening() == (Opening { count: 0, written: store.written() }),
            r.location() == path.deep_view(),
            r.directory() == (match path.deep_view().parent() {
                Some(d) => d,
                None => PathView::empty(),
            }),
    {
        let entries: Vec<JournalEntry> = Vec::new();
        proof {
            assert(entries.deep_view() =~= Seq::empty());
            assert(said(entries.deep_view()) =~= Seq::empty());
        }
        Journal::open(path, entries, store)
    }

    /// A journal with the records that were read. New intents are numbered
    /// after them.
    pub fn open(path: &FilePath, entries: Vec<JournalEntry>, store: S) -> (r: Self)
        ensures
            r.kept() == entries.deep_view(),
            r.records() == said(entries.deep_view()),
            r.next() == next_number(said(entries.deep_view())),
            r.is_reliable() == store.takes_all(),
            r.is_synced(),
            r.written() == store.written(),
            r.plans() == store.plans(),
            r.opening() == (Opening { count: entries@.len(), written: store.written() }),
            r.location() == path.deep_view(),
            r.directory() == (match path.deep_view().parent() {
                Some(d) => d,
                None => PathView::empty(),
            }),
    {
        let ghost v = said(entries.deep_view());
        let mut next_seq: u64 = 1;
        let mut i: usize = 0;
        while i < entries.len()
            invariant
                i <= entries@.len(),
                v == said(entries.deep_view()),
                next_seq == next_number(v.take(i as int)),
            decreases entries@.len() - i,
        {
            proof {
                assert(v.take(i + 1).drop_last() =~= v.take(i as int));
                assert(v.take(i + 1).last() == entries@[i as int].record());
            }
            let n: u64 = entries[i].seq;
            if n >= next_seq {
                next_seq = if n < u64::MAX {
                    n + 1
                } else {
                    n
                };
            }
            i = i + 1;
        }
        proof {
            assert(v.take(i as int) =~= v);
        }
        let dir = match path.parent() {
            Some(d) => d,
            None => FilePath::empty(),
        };
        let ghost taken = store.written();
        let ghost kept = entries.deep_view();
        proof {
            assert(taken =~= taken + kept.skip(kept.len() as int));
        }
        Journal {
            path: path.duplicate(),
            dir,
            store,
            entries,
            next_seq,
            run_id: RunId::nil(),
            root: FilePath::empty(),
            config_digest: String::new(),
            opened: Ghost(Opening { count: kept.len(), written: taken }),
        }
    }

    /// Bind subsequent records to a run.
    pub fn bind(&mut self, run_id: RunId, root: FilePath, config_digest: String)
        ensures
            final(self).run() == run_id,
            final(self).bound_root() == root.deep_view(),
            final(self).digest() == config_digest@,
            final(self).records() == old(self).records(),
            final(self).next() == old(self).next(),
            final(self).is_reliable() == old(self).is_reliable(),
            final(self).is_synced() == old(self).is_synced(),
            final(self).same_store(old(self)),
            final(self).adds_nothing(old(self)),
            final(self).plans() == old(self).plans(),
    {
        self.run_id = run_id;
        self.root = root;
        self.config_digest = config_digest;
    }

    /// Where the journal is kept.
    pub fn path(&self) -> (r: &FilePath)
        ensures
            r.deep_view() == self.location(),
    {
        &self.path
    }

    /// The directory that the journal is kept in.
    pub fn dir(&self) -> (r: &FilePath)
        ensures
            r.deep_view() == self.directory(),
    {
        &self.dir
    }

    /// The entries so far.
    pub fn entries(&self) -> (r: &Vec<JournalEntry>)
        ensures
            r.deep_view() == self.kept(),
            said(r.deep_view()) == self.records(),
    {
        &self.entries
    }

    /// Where the plan of a run is kept: beside the journal, under the run.
    pub open spec fn plan_path(&self, run_id: RunId) -> PathView {
        self.directory().child("plans"@).child(run_id.hyphenated_text() + ".json"@)
    }

    /// Persist `plan` next to the journal.
    pub fn persist_plan(&mut self, plan: &Plan) -> (r: Result<FilePath, FatalReason>)
        ensures
            final(self).records() == old(self).records(),
            final(self).next() == old(self).next(),
            final(self).bound_alike(old(self)),
            final(self).adds_nothing(old(self)),
            match r {
                Ok(p) => {
                    &&& p.deep_view() == old(self).plan_path(plan.run_id)
                    &&& final(self).plans() == old(self).plans().push(
                        (p.deep_view(), plan.deep_view()),
                    )
                },
                Err(f) => {
                    &&& f matches FatalReason::JournalUnwritable { path, .. } && path.deep_view()
                        == old(self).plan_path(plan.run_id)
                    &&& !old(self).is_reliable()
                    &&& final(self).plans() == old(self).plans()
                },
            },
    {
        let name = plan.run_id.hyphenated().concat(".json");
        let dest = self.dir.child("plans").child(&name);
        match self.store.save_plan(&dest, plan) {
            Ok(()) => Ok(dest),
            Err(why) => Err(FatalReason::JournalUnwritable { path: dest, why }),
        }
    }

    /// Writes an entry through and keeps it.
    fn append(&mut self, entry: JournalEntry) -> (r: Result<(), FatalReason>)
        requires
            is_time(entry.ts@),
        ensures
            final(self).next() == old(self).next(),
            final(self).same_binding(old(self)),
            match r {
                Ok(()) => {
                    &&& final(self).records() == old(self).records().push(entry.record())
                    &&& final(self).adds(old(self), entry.record())
                },
                Err(f) => {
                    &&& final(self).records() == old(self).records()
                    &&& final(self).adds_nothing(old(self))
                    &&& !old(self).is_reliable()
                    &&& f matches FatalReason::JournalUnwritable { path, .. } && path.deep_view()
                        == old(self).location()
                },
            },
    {
        match self.store.append(&entry) {
            Ok(()) => {
                let ghost before = self.entries.deep_view();
                self.entries.push(entry);
                proof {
                    let e = entry.deep_view();
                    let after = self.entries.deep_view();
                    assert(after =~= before.push(e));
                    assert(said(after) =~= said(before).push(e.record));
                    assert(is_stamped(e, entry.record()));
                    if old(self).is_synced() {
                        let n = self.opened@.count as int;
                        assert(after.skip(n) =~= before.skip(n).push(e));
                        assert(self.opened@.written + after.skip(n) =~= (self.opened@.written
                            + before.skip(n)).push(e));
                        assert forall|k: int| n <= k < after.len() implies is_time(
                            (#[trigger] after[k]).ts,
                        ) by {
                            if k < before.len() {
                                assert(after[k] == before[k]);
                            }
                        }
                    }
                }
                Ok(())
            },
            Err(why) => Err(FatalReason::JournalUnwritable { path: self.path.duplicate(), why }),
        }
    }

    /// Write an intent. Returns its number. Where the numbers are used up, the
    /// journal takes no more.
    pub fn write_intent(
        &mut self,
        op: JournalOp,
        from: Option<&FilePath>,
        to: Option<&FilePath>,
    ) -> (r: Result<u64, FatalReason>)
        ensures
            final(self).same_binding(old(self)),
            match r {
                Ok(seq) => {
                    &&& seq == old(self).next()
                    &&& final(self).next() == seq + 1
                    &&& final(self).records() == old(self).records().push(
                        old(self).intent(op, from.deep_view(), to.deep_view()),
                    )
                    &&& final(self).adds(
                        old(self),
                        old(self).intent(op, from.deep_view(), to.deep_view()),
                    )
                },
                Err(f) => {
                    &&& final(self).records() == old(self).records()
                    &&& final(self).adds_nothing(old(self))
                    &&& old(self).is_reliable() ==> final(self).next() == u64::MAX
                    &&& f matches FatalReason::JournalUnwritable { path, .. } && path.deep_view()
                        == old(self).location()
                },
            },
    {
        let seq: u64 = self.next_seq;
        if seq == u64::MAX {
            return Err(
                FatalReason::JournalUnwritable {
                    path: self.path.duplicate(),
                    why: "sequence numbers used up".to_string(),
                },
            );
        }
        self.next_seq = seq + 1;
        let entry = JournalEntry {
            ts: rfc3339_now(),
            run_id: self.run_id,
            root: self.root.duplicate(),
            config_digest: self.config_digest.clone(),
            seq,
            phase: JournalPhase::Intent,
            op,
            from: copy_path(from),
            to: copy_path(to),
            status: None,
            bytes: None,
            message: None,
        };
        match self.append(entry) {
            Ok(()) => Ok(seq),
            Err(f) => Err(f),
        }
    }

    /// Write the outcome of the intent with the given number.
    pub fn write_outcome(
        &mut self,
        seq: u64,
        op: JournalOp,
        from: Option<&FilePath>,
        to: Option<&FilePath>,
        status: &str,
        bytes: Option<u64>,
        message: Option<&str>,
    ) -> (r: Result<(), FatalReason>)
        ensures
            final(self).next() == old(self).next(),
            final(self).same_binding(old(self)),
            match r {
                Ok(()) => {
                    &&& final(self).records() == old(self).records().push(
                        old(self).outcome(
                            seq,
                            op,
                            from.deep_view(),
                            to.deep_view(),
                            status@,
                            bytes,
                            message.deep_view(),
                        ),
                    )
                    &&& final(self).adds(
                        old(self),
                        old(self).outcome(
                            seq,
                            op,
                            from.deep_view(),
                            to.deep_view(),
                            status@,
                            bytes,
                            message.deep_view(),
                        ),
                    )
                },
                Err(f) => {
                    &&& final(self).records() == old(self).records()
                    &&& final(self).adds_nothing(old(self))
                    &&& !old(self).is_reliable()
                    &&& f matches FatalReason::JournalUnwritable { path, .. } && path.deep_view()
                        == old(self).location()
                },
            },
    {
        let entry = JournalEntry {
            ts: rfc3339_now(),
            run_id: self.run_id,
            root: self.root.duplicate(),
            config_digest: self.config_digest.clone(),
            seq,
            phase: JournalPhase::Outcome,
            op,
            from: copy_path(from),
            to: copy_path(to),
            status: Some(status.to_string()),
            bytes,
            message: match message {
                Some(m) => Some(m.to_string()),
                None => None,
            },
        };
        self.append(entry)
    }

    /// Whether an intent has an outcome.
    fn is_matched(&self, e: &JournalEntry) -> (r: bool)
        ensures
            r == has_outcome(self.records(), e.record()),
    {
        let ghost v = said(self.entries.deep_view());
        let mut i: usize = 0;
        while i < self.entries.len()
            invariant
                i <= self.entries@.len(),
                v == said(self.entries.deep_view()),
                forall|k: int|
                    0 <= k < i ==> !((#[trigger] v[k]).phase == JournalPhase::Outcome
                        && v[k].run_id == e.run_id && v[k].seq == e.seq),
            decreases self.entries@.len() - i,
        {
            proof {
                assert(v[i as int] == self.entries@[i as int].record());
            }
            let o = &self.entries[i];
            if o.phase == JournalPhase::Outcome && o.run_id == e.run_id && o.seq == e.seq {
                return true;
            }
            i = i + 1;
        }
        false
    }

    /// Intents with no matching outcome, optionally scoped to `root`.
    pub fn unmatched_intents(&self, root: Option<&FilePath>) -> (r: Vec<JournalEntry>)
        ensures
            said(r.deep_view()) == unmatched(self.records(), root.deep_view()),
            forall|k: int| 0 <= k < r@.len() ==> self.kept().contains(#[trigger] r.deep_view()[k]),
    {
        let ghost kept = self.entries.deep_view();
        let ghost v = said(kept);
        let mut out: Vec<JournalEntry> = Vec::new();
        let mut i: usize = 0;
        proof {
            assert(said(out.deep_view()) =~= Seq::empty());
        }
        while i < self.entries.len()
            invariant
                i <= self.entries@.len(),
                kept == self.entries.deep_view(),
                v == said(kept),
                v == self.records(),
                said(out.deep_view()) == unmatched_upto(v, i as int, root.deep_view()),
                forall|k: int| 0 <= k < out@.len() ==> kept.contains(#[trigger] out.deep_view()[k]),
            decreases self.entries@.len() - i,
        {
            let ghost before = out.deep_view();
            proof {
                assert(kept[i as int] == self.entries@[i as int].deep_view());
                assert(v[i as int] == self.entries@[i as int].record());
            }
            let e = &self.entries[i];
            let here = match root {
                Some(r) => e.root.same(r),
                None => true,
            };
            if e.phase == JournalPhase::Intent && here && !self.is_matched(e) {
                out.push(e.duplicate());
                proof {
                    assert(out.deep_view() =~= before.push(e.deep_view()));
                    assert(said(out.deep_view()) =~= said(before).push(e.record()));
                    assert(kept.contains(e.deep_view()));
                }
            }
            i = i + 1;
        }
        out
    }

    /// Whether what an intent has left over was deleted.
    fn is_settled(&self, e: &JournalEntry) -> (r: bool)
        ensures
            r == is_reclaimed(self.records(), e.record()),
    {
        let ghost v = said(self.entries.deep_view());
        let mut i: usize = 0;
        while i < self.entries.len()
            invariant
                i <= self.entries@.len(),
                v == said(self.entries.deep_view()),
                forall|k: int| 0 <= k < i ==> !reclaims(#[trigger] v[k], e.record()),
            decreases self.entries@.len() - i,
        {
            proof {
                assert(v[i as int] == self.entries@[i as int].record());
            }
            let o = &self.entries[i];
            let done = match &o.status {
                Some(s) => text::same_text(s.as_str(), "SUCCESS"),
                None => false,
            };
            if done && o.phase == JournalPhase::Outcome && o.op == JournalOp::Reclaim && o.seq
                > e.seq && same_place(&o.to, &e.to) {
                return true;
            }
            i = i + 1;
        }
        false
    }

    /// For each of some intents, whether what it has left over was deleted.
    pub fn settled_among(&self, intents: &Vec<JournalEntry>) -> (r: Vec<bool>)
        ensures
            r@.len() == intents@.len(),
            forall|k: int|
                0 <= k < r@.len() ==> #[trigger] r@[k] == is_reclaimed(
                    self.records(),
                    intents@[k].record(),
                ),
    {
        let mut out: Vec<bool> = Vec::new();
        let mut i: usize = 0;
        while i < intents.len()
            invariant
                i <= intents@.len(),
                out@.len() == i,
                forall|k: int|
                    0 <= k < i ==> #[trigger] out@[k] == is_reclaimed(
                        self.records(),
                        intents@[k].record(),
                    ),
            decreases intents@.len() - i,
        {
            out.push(self.is_settled(&intents[i]));
            i = i + 1;
        }
        out
    }
}

/// What the store of a journal has taken since an earlier time is what the
/// journal says since then, and each of it has a time.
pub proof fn law_store_follows_journal<S: JournalStore>(j0: Journal<S>, j1: Journal<S>)
    requires
        j0.is_synced(),
        j1.same_store(&j0),
        j0.records().is_prefix_of(j1.records()),
    ensures
        said(j1.written()) == said(j0.written()) + j1.records().skip(j0.records().len() as int),
        forall|k: int|
            j0.written().len() <= k < j1.written().len() ==> is_time(
                (#[trigger] j1.written()[k]).ts,
            ),
{
    let n = j0.opening().count as int;
    let first = j0.opening().written;
    assert(j1.is_synced());
    assert(j0.records().len() == j0.kept().len() && j1.records().len() == j1.kept().len());
    let more = j1.records().skip(j0.records().len() as int);
    assert forall|k: int| 0 <= k < said(j1.written()).len() implies said(j1.written())[k] == (said(
        j0.written(),
    ) + more)[k] by {
        if first.len() <= k < j0.written().len() {
            assert(j0.records()[k - first.len() + n] == j1.records()[k - first.len() + n]);
        }
    }
    assert(said(j1.written()) =~= said(j0.written()) + more);
}

/// Whether two paths are the same, where there are any.
fn same_place(a: &Option<FilePath>, b: &Option<FilePath>) -> (r: bool)
    ensures
        r == (a.deep_view() == b.deep_view()),
{
    match (a, b) {
        (Some(x), Some(y)) => x.same(y),
        (None, None) => true,
        _ => false,
    }
}

/// Copies a path where there is one.
fn copy_path(p: Option<&FilePath>) -> (r: Option<FilePath>)
    ensures
        r.deep_view() == p.deep_view(),
{
    match p {
        Some(x) => Some(x.duplicate()),
        None => None,
    }
}

/// What is unmatched is among the records, and is an intent without an
/// outcome.
pub proof fn lemma_unmatched(entries: Seq<RecordView>, n: int, root: Option<PathView>, k: int)
    requires
        0 <= n <= entries.len(),
        0 <= k < unmatched_upto(entries, n, root).len(),
    ensures
        is_unmatched(entries, unmatched_upto(entries, n, root)[k], root),
        exists|i: int|
            0 <= i < n && #[trigger] entries[i] == unmatched_upto(entries, n, root)[k],
    decreases n,
{
    if n > 0 {
        let rest = unmatched_upto(entries, n - 1, root);
        if k < rest.len() {
            lemma_unmatched(entries, n - 1, root, k);
        } else {
            assert(entries[n - 1] == unmatched_upto(entries, n, root)[k]);
        }
    }
}

/// Every intent without an outcome is found.
pub proof fn law_every_unmatched_intent_is_found(
    entries: Seq<RecordView>,
    i: int,
    root: Option<PathView>,
)
    requires
        0 <= i < entries.len(),
        is_unmatched(entries, entries[i], root),
    ensures
        unmatched(entries, root).contains(entries[i]),
{
    lemma_unmatched_contains(entries, entries.len() as int, i, root);
}

/// Every intent without an outcome among the first records is found.
proof fn lemma_unmatched_contains(
    entries: Seq<RecordView>,
    n: int,
    i: int,
    root: Option<PathView>,
)
    requires
        0 <= i < n <= entries.len(),
        is_unmatched(entries, entries[i], root),
    ensures
        unmatched_upto(entries, n, root).contains(entries[i]),
    decreases n,
{
    let rest = unmatched_upto(entries, n - 1, root);
    let all = unmatched_upto(entries, n, root);
    if i == n - 1 {
        assert(all[all.len() - 1] == entries[i]);
    } else {
        lemma_unmatched_contains(entries, n - 1, i, root);
        let k = choose|k: int| 0 <= k < rest.len() && rest[k] == entries[i];
        assert(all[k] == entries[i]);
    }
}

/// Whether a record is the intent of a move of a run that has no outcome.
pub open spec fn is_open(entries: Seq<RecordView>, i: int, run: RunId, root: PathView) -> bool {
    &&& 0 <= i < entries.len()
    &&& entries[i].op == JournalOp::Move
    &&& entries[i].run_id == run
    &&& is_unmatched(entries, entries[i], Some(root))
}

/// Whether every move of a run has an outcome.
pub open spec fn nothing_open(entries: Seq<RecordView>, run: RunId, root: PathView) -> bool {
    forall|i: int| !is_open(entries, i, run, root)
}

/// A record that is not the intent of a move opens nothing.
pub proof fn lemma_record_opens_nothing(
    entries: Seq<RecordView>,
    e: RecordView,
    i: int,
    run: RunId,
    root: PathView,
)
    requires
        e.op != JournalOp::Move || e.phase == JournalPhase::Outcome,
        is_open(entries.push(e), i, run, root),
    ensures
        is_open(entries, i, run, root),
{
    let more = entries.push(e);
    assert(i < entries.len());
    assert(more[i] == entries[i]);
    if has_outcome(entries, entries[i]) {
        law_outcome_settles_intent(entries, more, entries[i]);
    }
}

/// An intent opens nothing but itself.
pub proof fn lemma_intent_opens_itself(
    entries: Seq<RecordView>,
    e: RecordView,
    i: int,
    run: RunId,
    root: PathView,
)
    requires
        nothing_open(entries, run, root),
        is_open(entries.push(e), i, run, root),
    ensures
        i == entries.len(),
{
    let more = entries.push(e);
    if i < entries.len() {
        assert(more[i] == entries[i]);
        if has_outcome(entries, entries[i]) {
            law_outcome_settles_intent(entries, more, entries[i]);
        }
        assert(is_open(entries, i, run, root));
    }
}

/// An intent and its outcome open nothing.
pub proof fn lemma_settled_pair_opens_nothing(
    entries: Seq<RecordView>,
    e: RecordView,
    o: RecordView,
    run: RunId,
    root: PathView,
)
    requires
        nothing_open(entries, run, root),
        o.phase == JournalPhase::Outcome,
        o.run_id == e.run_id,
        o.seq == e.seq,
    ensures
        nothing_open(entries.push(e).push(o), run, root),
{
    let more = entries.push(e);
    let all = more.push(o);
    assert forall|i: int| !is_open(all, i, run, root) by {
        if is_open(all, i, run, root) {
            lemma_record_opens_nothing(more, o, i, run, root);
            lemma_intent_opens_itself(entries, e, i, run, root);
            assert(all[i] == e);
            assert(all[entries.len() as int + 1] == o);
            assert(has_outcome(all, e));
        }
    }
}

/// Once an outcome has been written for an intent, the intent is matched,
/// whatever is written later.
pub proof fn law_outcome_settles_intent(before: Seq<RecordView>, after: Seq<RecordView>, e: RecordView)
    requires
        has_outcome(before, e),
        before.is_prefix_of(after),
    ensures
        has_outcome(after, e),
{
    let i = choose|i: int|
        0 <= i < before.len() && (#[trigger] before[i]).phase == JournalPhase::Outcome
            && before[i].run_id == e.run_id && before[i].seq == e.seq;
    assert(after[i] == before[i]);
}

/// The records in the lines of a journal: what stands on each line, without
/// the whitespace round it, where anything does.
pub open spec fn record_texts(lines: Seq<Seq<char>>) -> Seq<Seq<char>>
    decreases lines.len(),
{
    if lines.len() == 0 {
        Seq::empty()
    } else {
        let t = text::trim(lines[0], CharClass::Space);
        (if t.len() > 0 {
            seq![t]
        } else {
            Seq::empty()
        }) + record_texts(lines.skip(1))
    }
}

/// Finds the records in the text of a journal file, in order.
pub fn record_lines(file: &str) -> (r: Vec<String>)
    ensures
        r.deep_view() == record_texts(text::split(file@, CharClass::Is('\n'))),
{
    let s = text::to_chars(file);
    let size: usize = s.len();
    let mut out: Vec<String> = Vec::new();
    let mut start: usize = 0;
    let mut i: usize = 0;
    let ghost k = CharClass::Is('\n');
    proof {
        assert(s@.skip(0) =~= s@);
        assert(out.deep_view() =~= Seq::empty());
        assert(out.deep_view() + record_texts(text::split(s@, k)) =~= record_texts(
            text::split(s@, k),
        ));
    }
    while i < size
        invariant
            start <= i <= size,
            size == s@.len(),
            k == CharClass::Is('\n'),
            forall|j: int| start <= j < i ==> #[trigger] s@[j] != '\n',
            out.deep_view() + record_texts(text::split(s@.skip(start as int), k)) == record_texts(
                text::split(s@, k),
            ),
        decreases size - i,
    {
        if s[i] == '\n' {
            let ghost rest = s@.skip(start as int);
            let n: usize = i - start;
            proof {
                assert forall|j: int| 0 <= j < n implies k.holds(#[trigger] rest[j]) != true by {
                    assert(rest[j] == s@[start + j]);
                }
                assert(rest[n as int] == s@[i as int]);
                text::lemma_first_where_is(rest, k, true, n as int);
                assert(rest.skip(n + 1) =~= s@.skip(i + 1));
                let pieces = text::split(rest, k);
                assert(pieces[0] == rest.take(n as int));
                assert(pieces.skip(1) =~= text::split(s@.skip(i + 1), k));
            }
            push_record(&mut out, &s, start, i);
            start = i + 1;
        }
        i = i + 1;
    }
    proof {
        let rest = s@.skip(start as int);
        assert forall|j: int| 0 <= j < rest.len() implies k.holds(#[trigger] rest[j]) != true by {
            assert(rest[j] == s@[start + j]);
        }
        text::lemma_first_where_is(rest, k, true, rest.len() as int);
        let pieces = text::split(rest, k);
        assert(pieces =~= seq![rest]);
        assert(rest =~= rest.take(rest.len() as int));
        assert(pieces.skip(1) =~= Seq::empty());
        assert(record_texts(pieces.skip(1)) =~= Seq::empty());
    }
    push_record(&mut out, &s, start, size);
    out
}

/// Adds what stands between two places, without the whitespace round it,
/// where anything does.
fn push_record(out: &mut Vec<String>, s: &Vec<char>, from: usize, to: usize)
    requires
        from <= to <= s@.len(),
    ensures
        final(out).deep_view() == old(out).deep_view() + (if text::trim(
            s@.skip(from as int).take(to - from),
            CharClass::Space,
        ).len() > 0 {
            seq![text::trim(s@.skip(from as int).take(to - from), CharClass::Space)]
        } else {
            Seq::empty()
        }),
{
    let line = text::slice_of(s, from, to);
    proof {
        assert(line@ =~= s@.skip(from as int).take(to - from));
    }
    let t = text::trimmed(&line, Class::Space);
    if t.len() > 0 {
        let ghost before = out.deep_view();
        out.push(text::to_text(&t));
        proof {
            assert(out.deep_view() =~= before + seq![t@]);
        }
    } else {
        proof {
            assert(out.deep_view() =~= old(out).deep_view() + Seq::empty());
        }
    }
}

} // verus!
