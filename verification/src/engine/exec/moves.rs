//! Moving one file.
//!
//! A move never lands on a path at which something stands, unless replacing
//! has been allowed, and a source goes only once its bytes stand at the
//! destination. Every attempt is journaled: the intent before, the outcome
//! after.

use crate::domain::config::{Config, ConflictPolicy, VerifyMode};
use crate::domain::duplicate::Duplicate;
use crate::domain::error::FatalReason;
use crate::domain::fs::keep::{
    all_stay, keeps_files, landed, lemma_adding_dirs_is_transitive, lemma_adding_dirs_stays,
    lemma_keeping_is_transitive, lemma_landing_after_adding_dirs, lemma_moved_file_is_kept,
    lemma_relocation_keeps_files, lemma_relocation_lands, lemma_removing_new_path_stays,
    lemma_staying_keeps_files, others_stay,
};
use crate::domain::fs::{
    adds_only_above, bytes, describes, destination_occupied_error, goes_on, hash_view,
    is_cross_device, is_dir, is_file, lemma_obstruction_stays, obstructed, only_adds_dirs, vacant,
    Call, CancelToken, FileMeta, FileSystem, IoError, IoErrorView, IoKind, Tree,
};
use crate::domain::path::{FilePath, PathView};
use crate::domain::plan::Plan;
use crate::domain::run_id::{hex, RunId};
use crate::domain::volume::{NoReplaceStrategy, VolumeSemantics};
use crate::engine::calendar::is_time;
use crate::engine::exec::trace::{
    arrived, checked_as, copy_calls, finding, hashes, keeps_time,
    law_destination_is_replaced_by_verified_copy, law_renamed_file_is_verified,
    law_source_goes_after_verified_copy, lemma_arrived_stays, lemma_asking_before,
    lemma_asking_removes_nothing, lemma_nothing_removed, made_calls, native_calls, native_traced,
    read_calls, removes_arrived, replace_calls, replace_seen, replace_traced, reserve_calls,
    reserve_seen, reserve_traced, room_calls, Finding, Seen,
};
use crate::engine::exec::ExecOptions;
use crate::engine::journal::{
    is_open, law_store_follows_journal, lemma_intent_opens_itself, lemma_settled_pair_opens_nothing,
    nothing_open, said, Journal, JournalOp, JournalPhase, JournalStore, RecordView,
};
use crate::engine::reconcile::{
    decide_occupied, decided, is_next_copy, looks, same_path, same_place, DecisionView, Footing,
    Look, OccupiedDecision,
};
use crate::hashing;
use crate::text;
use vstd::prelude::*;

verus! {

/// What became of a move.
#[derive(Debug, Clone, PartialEq)]
pub enum MoveResult {
    /// The file stands at its destination; the directory it came from.
    Moved { source_dir: Option<FilePath> },
    Skipped,
    Conflicted,
    Failed { message: String, io_kind: Option<String> },
    Cancelled,
    NoOp,
}

/// The contents of a [`MoveResult`].
#[verifier::ext_equal]
pub enum MoveResultView {
    Moved { source_dir: Option<PathView> },
    Skipped,
    Conflicted,
    Failed { message: Seq<char>, io_kind: Option<Seq<char>> },
    Cancelled,
    NoOp,
}

impl DeepView for MoveResult {
    type V = MoveResultView;

    open spec fn deep_view(&self) -> MoveResultView {
        match *self {
            MoveResult::Moved { source_dir } => MoveResultView::Moved {
                source_dir: source_dir.deep_view(),
            },
            MoveResult::Skipped => MoveResultView::Skipped,
            MoveResult::Conflicted => MoveResultView::Conflicted,
            MoveResult::Failed { message, io_kind } => MoveResultView::Failed {
                message: message@,
                io_kind: io_kind.deep_view(),
            },
            MoveResult::Cancelled => MoveResultView::Cancelled,
            MoveResult::NoOp => MoveResultView::NoOp,
        }
    }
}

/// A failure that no file system error stands behind.
pub fn fail(message: &str) -> (r: MoveResult)
    ensures
        r.deep_view() == (MoveResultView::Failed { message: message@, io_kind: None }),
{
    MoveResult::Failed { message: message.to_string(), io_kind: None }
}

/// The failure that a file system error amounts to.
pub open spec fn io_failure(e: IoErrorView, context: Seq<char>) -> MoveResultView {
    MoveResultView::Failed {
        message: context + ": "@ + e.message,
        io_kind: Some(e.kind.label()),
    }
}

/// The failure that a file system error amounts to.
pub fn io_fail(e: &IoError, context: &str) -> (r: MoveResult)
    ensures
        r.deep_view() == io_failure(e.deep_view(), context@),
{
    MoveResult::Failed {
        message: context.to_string().concat(": ").concat(&e.message),
        io_kind: Some(e.kind.as_str().to_string()),
    }
}

/// The journal as it was.
pub open spec fn untouched<S: JournalStore>(a: Journal<S>, b: Journal<S>) -> bool {
    &&& b.same_binding(&a)
    &&& b.records() == a.records()
    &&& b.next() == a.next()
}

/// The journal with the intent to move.
pub open spec fn opened<S: JournalStore>(
    a: Journal<S>,
    b: Journal<S>,
    from: PathView,
    to: PathView,
) -> bool {
    &&& b.same_binding(&a)
    &&& b.records() == a.records().push(a.intent(JournalOp::Move, Some(from), Some(to)))
}

/// The journal with the intent to move and what became of it.
pub open spec fn closed_as<S: JournalStore>(
    a: Journal<S>,
    b: Journal<S>,
    from: PathView,
    to: PathView,
    status: Seq<char>,
    bytes: Option<u64>,
    message: Option<Seq<char>>,
) -> bool {
    &&& b.same_binding(&a)
    &&& b.records() == a.records().push(
        a.intent(JournalOp::Move, Some(from), Some(to)),
    ).push(a.outcome(a.next(), JournalOp::Move, Some(from), Some(to), status, bytes, message))
}

/// The journal with the intent to move and that it failed, and why.
pub open spec fn failed_with<S: JournalStore>(
    a: Journal<S>,
    b: Journal<S>,
    from: PathView,
    to: PathView,
    why: Seq<char>,
) -> bool {
    closed_as(a, b, from, to, "FAIL"@, None, Some(why))
}

/// The journal with the intent to move and that it failed.
pub open spec fn failed<S: JournalStore>(
    a: Journal<S>,
    b: Journal<S>,
    from: PathView,
    to: PathView,
) -> bool {
    exists|why: Seq<char>| failed_with(a, b, from, to, why)
}

/// Whether a reason is that the journal could not be written: its store may
/// refuse, or the numbers are used up.
pub open spec fn unwritable<S: JournalStore>(
    f: FatalReason,
    j0: Journal<S>,
    j1: Journal<S>,
) -> bool {
    &&& f matches FatalReason::JournalUnwritable { path, .. } && path.deep_view() == j0.location()
    &&& j0.is_reliable() ==> j1.next() == u64::MAX
}

/// Whether a journal holds more than it did: what was begun since then has its
/// intent there.
pub open spec fn has_begun<S: JournalStore>(j0: Journal<S>, j1: Journal<S>) -> bool {
    j0.records().len() < j1.records().len()
}

/// Whether nothing has changed unrecorded: where a journal holds no more than it
/// did, nothing is different but for new directories.
pub open spec fn records_changes<S: JournalStore>(
    t0: Tree,
    t1: Tree,
    j0: Journal<S>,
    j1: Journal<S>,
) -> bool {
    has_begun(j0, j1) || only_adds_dirs(t0, t1)
}

/// Where nothing changes unrecorded twice, nothing does.
pub proof fn lemma_recording_is_transitive<S: JournalStore>(
    t0: Tree,
    t1: Tree,
    t2: Tree,
    j0: Journal<S>,
    j1: Journal<S>,
    j2: Journal<S>,
)
    requires
        records_changes(t0, t1, j0, j1),
        records_changes(t1, t2, j1, j2),
        j0.records().len() <= j1.records().len() <= j2.records().len(),
    ensures
        records_changes(t0, t2, j0, j2),
{
    if !has_begun(j0, j2) {
        lemma_adding_dirs_is_transitive(t0, t1, t2);
    }
}

/// Journals that a move failed.
fn close_failed<S: JournalStore>(
    journal: &mut Journal<S>,
    seq: u64,
    from: &FilePath,
    to: &FilePath,
    why: &str,
) -> (r: Result<(), FatalReason>)
    ensures
        final(journal).same_binding(old(journal)),
        match r {
            Ok(()) => final(journal).records() == old(journal).records().push(
                old(journal).outcome(
                    seq,
                    JournalOp::Move,
                    Some(from.deep_view()),
                    Some(to.deep_view()),
                    "FAIL"@,
                    None,
                    Some(why@),
                ),
            ),
            Err(f) => final(journal).records() == old(journal).records() && unwritable(
                f,
                *old(journal),
                *final(journal),
            ),
        },
{
    journal.write_outcome(seq, JournalOp::Move, Some(from), Some(to), "FAIL", None, Some(why))
}

/// Journals that a move succeeded.
fn close_moved<S: JournalStore>(
    journal: &mut Journal<S>,
    seq: u64,
    from: &FilePath,
    to: &FilePath,
    len: u64,
) -> (r: Result<(), FatalReason>)
    ensures
        final(journal).same_binding(old(journal)),
        match r {
            Ok(()) => final(journal).records() == old(journal).records().push(
                old(journal).outcome(
                    seq,
                    JournalOp::Move,
                    Some(from.deep_view()),
                    Some(to.deep_view()),
                    "SUCCESS"@,
                    Some(len),
                    None,
                ),
            ),
            Err(f) => final(journal).records() == old(journal).records() && unwritable(
                f,
                *old(journal),
                *final(journal),
            ),
        },
{
    journal.write_outcome(seq, JournalOp::Move, Some(from), Some(to), "SUCCESS", Some(len), None)
}

/// What the journal holds of a move in the end.
#[derive(Debug, Clone, PartialEq)]
pub enum Closing {
    /// Nothing at all.
    Silent,
    /// The intent alone.
    Open,
    /// The intent, that the move failed and why.
    Failed(String),
    /// The intent and that the move succeeded.
    Moved,
}

/// The contents of a [`Closing`].
#[verifier::ext_equal]
pub enum ClosingView {
    Silent,
    Open,
    Failed(Seq<char>),
    Moved,
}

impl DeepView for Closing {
    type V = ClosingView;

    open spec fn deep_view(&self) -> ClosingView {
        match *self {
            Closing::Silent => ClosingView::Silent,
            Closing::Open => ClosingView::Open,
            Closing::Failed(why) => ClosingView::Failed(why@),
            Closing::Moved => ClosingView::Moved,
        }
    }
}

/// The journal with what it holds of a move, given the length of the source.
pub open spec fn closed_with<S: JournalStore>(
    a: Journal<S>,
    b: Journal<S>,
    from: PathView,
    to: PathView,
    closing: ClosingView,
    len: u64,
) -> bool {
    match closing {
        ClosingView::Silent => untouched(a, b),
        ClosingView::Open => opened(a, b, from, to),
        ClosingView::Failed(why) => failed_with(a, b, from, to, why),
        ClosingView::Moved => closed_as(a, b, from, to, "SUCCESS"@, Some(len), None),
    }
}

/// Journals what became of a move whose intent is journaled.
fn close_move<S: JournalStore>(
    journal: &mut Journal<S>,
    seq: u64,
    from: &FilePath,
    to: &FilePath,
    closing: &Closing,
    len: u64,
    start: Ghost<Journal<S>>,
) -> (r: Result<(), FatalReason>)
    requires
        opened(start@, *old(journal), from.deep_view(), to.deep_view()),
        seq == start@.next(),
        closing.deep_view() != ClosingView::Silent,
    ensures
        final(journal).same_binding(old(journal)),
        match r {
            Ok(()) => closed_with(
                start@,
                *final(journal),
                from.deep_view(),
                to.deep_view(),
                closing.deep_view(),
                len,
            ),
            Err(f) => final(journal).records() == old(journal).records() && unwritable(
                f,
                *old(journal),
                *final(journal),
            ),
        },
{
    match closing {
        Closing::Silent | Closing::Open => Ok(()),
        Closing::Failed(why) => close_failed(journal, seq, from, to, why),
        Closing::Moved => close_moved(journal, seq, from, to, len),
    }
}

/// What was learnt of a source before it is moved.
pub enum Source {
    Fine { meta: FileMeta, hash: Option<String> },
    StatFailed(IoError),
    HashFailed { len: u64, error: IoError },
}

impl Source {
    /// What was read of the source.
    pub open spec fn found(self) -> Finding {
        match self {
            Source::Fine { meta, hash } => finding(meta.len, hash.deep_view()),
            Source::StatFailed(_) => Finding { size: None, hash: None },
            Source::HashFailed { len, error } => Finding {
                size: Some(len),
                hash: Some(Err(error.deep_view())),
            },
        }
    }
}

/// Looks at a source before it is moved.
fn inspect<F: FileSystem>(fs: &mut F, cfg: &Config, from: &FilePath, cancel: &CancelToken) -> (r:
    Source)
    ensures
        old(fs).is_steady() ==> final(fs).is_steady(),
        final(fs).tree() == old(fs).tree(),
        final(fs).history() == old(fs).history() + read_calls(from.deep_view(), r.found()),
        old(fs).is_steady() && cancel.is_idle() && is_file(old(fs).tree(), from.deep_view())
            ==> r is Fine,
        r is HashFailed ==> old(fs).tree().dom().contains(from.deep_view()),
        old(fs).is_steady() && cancel.is_idle() ==> (r matches Source::HashFailed { error, .. }
            ==> error.kind != IoKind::Interrupted),
        r matches Source::Fine { meta, hash } ==> {
            &&& old(fs).tree().dom().contains(from.deep_view())
            &&& describes(meta, old(fs).tree()[from.deep_view()])
            &&& (cfg.moves.verify == VerifyMode::Hash) == (hash is Some)
            &&& hash matches Some(h) ==> is_file(old(fs).tree(), from.deep_view()) && h@
                == hashing::blake3_hex(bytes(old(fs).tree(), from.deep_view()))
        },
{
    let ghost h0 = fs.history();
    let meta = match fs.metadata(from) {
        Ok(m) => m,
        Err(e) => {
            proof {
                assert(fs.history() =~= h0 + read_calls(
                    from.deep_view(),
                    Source::StatFailed(e).found(),
                ));
            }
            return Source::StatFailed(e);
        },
    };
    let r = if cfg.moves.verify == VerifyMode::Hash {
        match fs.hash(from, cancel) {
            Ok(h) => Source::Fine { meta, hash: Some(h.0) },
            Err(e) => Source::HashFailed { len: meta.len, error: e },
        }
    } else {
        Source::Fine { meta, hash: None }
    };
    proof {
        assert(fs.history() =~= h0 + read_calls(from.deep_view(), r.found()));
    }
    r
}

/// The verdict on what stands at a destination.
#[derive(Debug, Clone, PartialEq)]
pub enum Verify {
    Intact,
    Fail(String),
    Cancelled,
}

/// The contents of a [`Verify`].
#[verifier::ext_equal]
pub enum VerifyView {
    Intact,
    Fail(Seq<char>),
    Cancelled,
}

impl DeepView for Verify {
    type V = VerifyView;

    open spec fn deep_view(&self) -> VerifyView {
        match *self {
            Verify::Intact => VerifyView::Intact,
            Verify::Fail(s) => VerifyView::Fail(s@),
            Verify::Cancelled => VerifyView::Cancelled,
        }
    }
}

/// The verdict on a size, given the size of the destination if it is there.
pub open spec fn size_verdict(found: Option<u64>, expected: u64) -> VerifyView {
    match found {
        None => VerifyView::Fail("destination missing after move"@),
        Some(n) => if n == expected {
            VerifyView::Intact
        } else {
            VerifyView::Fail(
                "size mismatch: dest "@ + text::decimal(n as nat) + " != source "@ + text::decimal(
                    expected as nat,
                ),
            )
        },
    }
}

/// The verdict on a size, given the size of the destination if it is there.
pub fn judge_size(found: Option<u64>, expected: u64) -> (r: Verify)
    ensures
        r.deep_view() == size_verdict(found, expected),
{
    match found {
        None => Verify::Fail("destination missing after move".to_string()),
        Some(n) => if n == expected {
            Verify::Intact
        } else {
            Verify::Fail(
                "size mismatch: dest ".to_string().concat(&text::decimal_text(n)).concat(
                    " != source ",
                ).concat(&text::decimal_text(expected)),
            )
        },
    }
}

/// The verdict on a hash, given the hash of the destination or why there is
/// none.
pub open spec fn hash_verdict(
    found: Result<Seq<char>, IoErrorView>,
    expected: Option<Seq<char>>,
) -> VerifyView {
    match found {
        Ok(h) => if expected matches Some(e) && h != e {
            VerifyView::Fail("hash mismatch"@)
        } else {
            VerifyView::Intact
        },
        Err(e) => if e.kind == IoKind::Interrupted {
            VerifyView::Cancelled
        } else {
            VerifyView::Fail("hash dest: "@ + e.message)
        },
    }
}

/// The verdict on a hash, given the hash of the destination or why there is
/// none.
pub fn judge_hash(found: Result<crate::domain::fs::Hash, IoError>, expected: Option<&String>) -> (r:
    Verify)
    ensures
        r.deep_view() == hash_verdict(hash_view(found), expected.deep_view()),
{
    match found {
        Ok(h) => {
            if let Some(e) = expected {
                if !text::same_text(&h.0, e) {
                    return Verify::Fail("hash mismatch".to_string());
                }
            }
            Verify::Intact
        },
        Err(e) => if e.kind == IoKind::Interrupted {
            Verify::Cancelled
        } else {
            Verify::Fail("hash dest: ".to_string().concat(&e.message))
        },
    }
}

/// Whether a file has a length and, where it is known, a hash.
pub open spec fn is_source_of(t: Tree, p: PathView, len: u64, hash: Option<Seq<char>>) -> bool {
    &&& is_file(t, p)
    &&& bytes(t, p).len() == len
    &&& hash matches Some(h) ==> h == hashing::blake3_hex(bytes(t, p))
}

/// Verifies what stands at a destination.
pub fn verify_dest<F: FileSystem>(
    fs: &mut F,
    cfg: &Config,
    dest: &FilePath,
    expected_len: u64,
    expected_hash: Option<&String>,
    cancel: &CancelToken,
) -> (r: Verify)
    ensures
        old(fs).is_steady() ==> final(fs).is_steady(),
        final(fs).tree() == old(fs).tree(),
        r.deep_view() == VerifyView::Intact ==> {
            &&& old(fs).tree().dom().contains(dest.deep_view())
            &&& is_file(old(fs).tree(), dest.deep_view()) ==> bytes(
                old(fs).tree(),
                dest.deep_view(),
            ).len() == expected_len
            &&& cfg.moves.verify == VerifyMode::Hash && expected_hash is Some ==> is_file(
                old(fs).tree(),
                dest.deep_view(),
            ) && hashing::blake3_hex(bytes(old(fs).tree(), dest.deep_view())) == expected_hash->0@
        },
        r.deep_view() == VerifyView::Cancelled ==> cfg.moves.verify == VerifyMode::Hash,
        old(fs).is_steady() && cancel.is_idle() ==> r.deep_view() != VerifyView::Cancelled,
        !old(fs).tree().dom().contains(dest.deep_view()) ==> r.deep_view() == VerifyView::Fail(
            "destination missing after move"@,
        ),
        old(fs).is_steady() && cancel.is_idle() && is_source_of(
            old(fs).tree(),
            dest.deep_view(),
            expected_len,
            expected_hash.deep_view(),
        ) ==> r.deep_view() == VerifyView::Intact,
        exists|found: Finding| #[trigger]
            checked_as(
                found,
                hashes(*cfg),
                expected_len,
                expected_hash.deep_view(),
                r.deep_view(),
            ) && final(fs).history() == old(fs).history() + read_calls(dest.deep_view(), found),
{
    let ghost h0 = fs.history();
    let ghost d = dest.deep_view();
    let found: Option<u64> = match fs.metadata(dest) {
        Ok(m) => Some(m.len),
        Err(_) => None,
    };
    let ghost plain = Finding { size: found, hash: None };
    proof {
        assert(fs.history() =~= h0 + read_calls(d, plain));
    }
    let verdict = judge_size(found, expected_len);
    match verdict {
        Verify::Intact => {},
        other => {
            proof {
                assert(checked_as(
                    plain,
                    hashes(*cfg),
                    expected_len,
                    expected_hash.deep_view(),
                    other.deep_view(),
                ));
            }
            return other;
        },
    }
    if cfg.moves.verify == VerifyMode::Hash {
        let hash = fs.hash(dest, cancel);
        let ghost full = Finding { size: found, hash: Some(hash_view(hash)) };
        let r = judge_hash(hash, expected_hash);
        proof {
            assert(fs.history() =~= h0 + read_calls(d, full));
            assert(checked_as(
                full,
                hashes(*cfg),
                expected_len,
                expected_hash.deep_view(),
                r.deep_view(),
            ));
        }
        return r;
    }
    proof {
        assert(checked_as(
            plain,
            hashes(*cfg),
            expected_len,
            expected_hash.deep_view(),
            VerifyView::Intact,
        ));
    }
    Verify::Intact
}

/// What a refused rename amounts to: what the journal says of it, and the
/// result.
pub open spec fn rename_refusal(e: IoErrorView) -> (Seq<char>, MoveResultView) {
    if e.crosses_devices() {
        (
            "cross-device"@,
            MoveResultView::Failed {
                message: "cross-device"@,
                io_kind: Some("CrossesDevices"@),
            },
        )
    } else if e.is_occupied() {
        ("occupied"@, MoveResultView::Conflicted)
    } else {
        (e.message, io_failure(e, "rename_no_replace"@))
    }
}

/// What a refused rename amounts to.
pub fn rename_refused(e: &IoError) -> (r: (String, MoveResult))
    ensures
        (r.0@, r.1.deep_view()) == rename_refusal(e.deep_view()),
{
    if is_cross_device(e) {
        let r = MoveResult::Failed {
            message: "cross-device".to_string(),
            io_kind: Some("CrossesDevices".to_string()),
        };
        ("cross-device".to_string(), r)
    } else if destination_occupied_error(e) {
        ("occupied".to_string(), MoveResult::Conflicted)
    } else {
        (e.message.clone(), io_fail(e, "rename_no_replace"))
    }
}

/// What a refused reservation amounts to.
pub open spec fn reserve_refusal(e: IoErrorView) -> (Seq<char>, MoveResultView) {
    if e.is_occupied() {
        ("occupied"@, MoveResultView::Conflicted)
    } else {
        (e.message, io_failure(e, "create_new"@))
    }
}

/// What a refused reservation amounts to.
pub fn reserve_refused(e: &IoError) -> (r: (String, MoveResult))
    ensures
        (r.0@, r.1.deep_view()) == reserve_refusal(e.deep_view()),
{
    if destination_occupied_error(e) {
        ("occupied".to_string(), MoveResult::Conflicted)
    } else {
        (e.message.clone(), io_fail(e, "create_new"))
    }
}

/// How far a move by a rename has got, and what the file system said there:
/// nothing could be learnt of the source, the source could not be hashed, the
/// rename was refused, or what stands at the destination was verified.
#[derive(Debug, Clone, PartialEq)]
pub enum NativeAnswer {
    Unseen(IoError),
    Unhashed(IoError),
    Refused(IoError),
    Checked(Verify),
}

/// What a move by a rename amounts to: what the journal holds of it, and the
/// result.
pub open spec fn native_verdict(a: NativeAnswer, from: PathView) -> (ClosingView, MoveResultView) {
    match a {
        NativeAnswer::Unseen(e) => (
            ClosingView::Silent,
            io_failure(e.deep_view(), "stat source"@),
        ),
        NativeAnswer::Unhashed(e) => if e.kind == IoKind::Interrupted {
            (ClosingView::Silent, MoveResultView::Cancelled)
        } else {
            (ClosingView::Silent, io_failure(e.deep_view(), "hash source"@))
        },
        NativeAnswer::Refused(e) => {
            let (why, result) = rename_refusal(e.deep_view());
            (ClosingView::Failed(why), result)
        },
        NativeAnswer::Checked(Verify::Intact) => (
            ClosingView::Moved,
            MoveResultView::Moved { source_dir: from.parent() },
        ),
        NativeAnswer::Checked(Verify::Cancelled) => (
            ClosingView::Open,
            MoveResultView::Cancelled,
        ),
        NativeAnswer::Checked(Verify::Fail(m)) => (
            ClosingView::Failed(m@),
            MoveResultView::Failed { message: m@, io_kind: None },
        ),
    }
}

/// What a move by a rename amounts to.
pub fn settle_native(a: &NativeAnswer, from: &FilePath) -> (r: (Closing, MoveResult))
    ensures
        (r.0.deep_view(), r.1.deep_view()) == native_verdict(*a, from.deep_view()),
{
    match a {
        NativeAnswer::Unseen(e) => (Closing::Silent, io_fail(e, "stat source")),
        NativeAnswer::Unhashed(e) => if e.kind == IoKind::Interrupted {
            (Closing::Silent, MoveResult::Cancelled)
        } else {
            (Closing::Silent, io_fail(e, "hash source"))
        },
        NativeAnswer::Refused(e) => {
            let (why, result) = rename_refused(e);
            (Closing::Failed(why), result)
        },
        NativeAnswer::Checked(Verify::Intact) => (
            Closing::Moved,
            MoveResult::Moved { source_dir: from.parent() },
        ),
        NativeAnswer::Checked(Verify::Cancelled) => (Closing::Open, MoveResult::Cancelled),
        NativeAnswer::Checked(Verify::Fail(m)) => (Closing::Failed(m.clone()), fail(m)),
    }
}

/// What comes of a move by a rename, given how far it has got: the file stands
/// at the destination, at which nothing stood, once the rename is done, and
/// before that nothing has changed.
pub open spec fn native_outcome<S: JournalStore>(
    t0: Tree,
    t1: Tree,
    j0: Journal<S>,
    j1: Journal<S>,
    from: PathView,
    to: PathView,
    r: MoveResultView,
    a: NativeAnswer,
    len: u64,
) -> bool {
    &&& r == native_verdict(a, from).1
    &&& closed_with(j0, j1, from, to, native_verdict(a, from).0, len)
    &&& if a is Checked {
        &&& landed(t0, t1, from, to)
        &&& is_file(t0, from) ==> len == bytes(t0, from).len()
    } else {
        t1 == t0
    }
}

/// What may come of moving by a rename. Whatever the file system says, no file
/// is lost and everything but the source stays.
pub open spec fn native_result<S: JournalStore>(
    t0: Tree,
    t1: Tree,
    j0: Journal<S>,
    j1: Journal<S>,
    from: PathView,
    to: PathView,
    r: Result<MoveResultView, FatalReason>,
) -> bool {
    &&& j0.records().is_prefix_of(j1.records())
    &&& keeps_files(t0, t1)
    &&& others_stay(t0, t1, from)
    &&& t1 == t0 || landed(t0, t1, from, to)
    &&& match r {
        Err(f) => {
            &&& unwritable(f, j0, j1)
            &&& j1.same_binding(&j0)
            &&& t1 == t0 || has_begun(j0, j1)
        },
        Ok(v) => exists|a: NativeAnswer, len: u64| #[trigger]
            native_outcome(t0, t1, j0, j1, from, to, v, a, len),
    }
}

/// The contents of a result.
pub open spec fn result_view(r: Result<MoveResult, FatalReason>) -> Result<
    MoveResultView,
    FatalReason,
> {
    match r {
        Ok(m) => Ok(m.deep_view()),
        Err(f) => Err(f),
    }
}

/// Moves a file by a rename that does not replace.
pub fn move_native<F: FileSystem, S: JournalStore>(
    fs: &mut F,
    cfg: &Config,
    opts: &ExecOptions,
    journal: &mut Journal<S>,
    from: &FilePath,
    to: &FilePath,
) -> (r: Result<MoveResult, FatalReason>)
    ensures
        old(fs).is_steady() ==> final(fs).is_steady(),
        native_result(
            old(fs).tree(),
            final(fs).tree(),
            *old(journal),
            *final(journal),
            from.deep_view(),
            to.deep_view(),
            result_view(r),
        ),
        // On a steady file system nothing but what stands in the way, and a
        // journal that cannot be written, keeps a file from being moved.
        old(fs).is_steady() && opts.cancel.is_idle() && is_file(
            old(fs).tree(),
            from.deep_view(),
        ) && vacant(old(fs).tree(), to.deep_view()) && !to.deep_view().starts_with(
            from.deep_view(),
        ) ==> (r matches Ok(m) ==> m is Moved),
        // Nothing is broken off that nobody can cancel.
        old(fs).is_steady() && opts.cancel.is_idle() ==> (r matches Ok(m) ==> !(m is Cancelled)),
        // The file is read, renamed, and read again.
        exists|s: Seen, answer: Option<NativeAnswer>| #[trigger]
            native_traced(
                old(fs).history(),
                final(fs).history(),
                *cfg,
                from.deep_view(),
                to.deep_view(),
                s,
                answer,
            ) && (r matches Ok(m) ==> answer is Some && m.deep_view() == native_verdict(
                answer->0,
                from.deep_view(),
            ).1),
{
    let ghost h0 = fs.history();
    let ghost t0 = fs.tree();
    let ghost j0 = *journal;
    let ghost f = from.deep_view();
    let ghost d = to.deep_view();
    proof {
        lemma_staying_keeps_files(t0, t0);
    }
    let source = inspect(fs, cfg, from, &opts.cancel);
    let ghost mut seen = Seen {
        source: source.found(),
        found: Finding { size: None, hash: None },
        modified: None,
        stamped: true,
        undone: true,
        failed: 0,
        made: false,
    };
    let (meta, hash) = match source {
        Source::Fine { meta, hash } => (meta, hash),
        Source::StatFailed(e) => {
            let answer = NativeAnswer::Unseen(e);
            let (_, result) = settle_native(&answer, from);
            proof {
                assert(native_outcome(t0, t0, j0, j0, f, d, result.deep_view(), answer, 0));
                assert(fs.history() =~= h0 + read_calls(f, seen.source) + native_calls(
                    f,
                    d,
                    seen,
                    answer,
                ));
                assert(native_traced(h0, fs.history(), *cfg, f, d, seen, Some(answer)));
            }
            return Ok(result);
        },
        Source::HashFailed { error, .. } => {
            let answer = NativeAnswer::Unhashed(error);
            let (_, result) = settle_native(&answer, from);
            proof {
                assert(native_outcome(t0, t0, j0, j0, f, d, result.deep_view(), answer, 0));
                assert(fs.history() =~= h0 + read_calls(f, seen.source) + native_calls(
                    f,
                    d,
                    seen,
                    answer,
                ));
                assert(native_traced(h0, fs.history(), *cfg, f, d, seen, Some(answer)));
            }
            return Ok(result);
        },
    };
    let seq: u64 = match journal.write_intent(JournalOp::Move, Some(from), Some(to)) {
        Ok(s) => s,
        Err(fatal) => {
            proof {
                assert(native_traced(h0, fs.history(), *cfg, f, d, seen, None));
            }
            return Err(fatal);
        },
    };
    let ghost h1 = fs.history();
    let answer = match fs.rename_no_replace(from, to) {
        Ok(()) => {
            proof {
                lemma_relocation_keeps_files(t0, f, d);
                lemma_relocation_lands(t0, f, d);
            }
            let ghost h2 = fs.history();
            let verdict = verify_dest(fs, cfg, to, meta.len, hash.as_ref(), &opts.cancel);
            proof {
                let found = choose|found: Finding| #[trigger]
                    checked_as(
                        found,
                        hashes(*cfg),
                        meta.len,
                        hash.deep_view(),
                        verdict.deep_view(),
                    ) && fs.history() == h2 + read_calls(d, found);
                seen = Seen { found, ..seen };
            }
            NativeAnswer::Checked(verdict)
        },
        Err(e) => NativeAnswer::Refused(e),
    };
    proof {
        assert(fs.history() =~= h1 + native_calls(f, d, seen, answer));
        assert(native_traced(h0, fs.history(), *cfg, f, d, seen, Some(answer)));
    }
    let (closing, result) = settle_native(&answer, from);
    match close_move(journal, seq, from, to, &closing, meta.len, Ghost(j0)) {
        Ok(()) => {},
        Err(fatal) => {
            return Err(fatal);
        },
    }
    proof {
        assert(native_outcome(
            t0,
            fs.tree(),
            j0,
            *journal,
            f,
            d,
            result.deep_view(),
            answer,
            meta.len,
        ));
    }
    Ok(result)
}

/// Whether a file can be created at a path: nothing stands there or under it,
/// and nothing but directories on the way.
pub open spec fn can_create(t: Tree, p: PathView) -> bool {
    vacant(t, p) && !(p.parent() matches Some(up) && obstructed(t, up))
}

/// Where directories are made above a path, a file can still be created there.
proof fn lemma_making_room(a: Tree, b: Tree, p: PathView)
    requires
        p.parent() is Some,
        only_adds_dirs(a, b),
        adds_only_above(a, b, p.parent()->0),
    ensures
        can_create(a, p) ==> can_create(b, p),
{
    lemma_obstruction_stays(a, b, p.parent()->0);
    if can_create(a, p) {
        assert forall|q: PathView| #[trigger] b.dom().contains(q) implies !q.starts_with(p) by {
            if !a.dom().contains(q) {
                assert(p.parent()->0.starts_with(q));
            }
        }
    }
}

/// Whether a tree differs from an earlier one by new directories and by what
/// stands at a path at which nothing stood.
pub open spec fn reserved(a: Tree, b: Tree, p: PathView) -> bool {
    only_adds_dirs(a, b.remove(p)) && !a.dom().contains(p)
}

/// Where a path has been reserved, everything stays.
pub proof fn lemma_reserving_stays(a: Tree, b: Tree, p: PathView)
    requires
        reserved(a, b, p),
    ensures
        all_stay(a, b),
        all_stay(a, b.remove(p)),
        keeps_files(a, b),
        forall|q: PathView| others_stay(a, b, q),
{
    lemma_adding_dirs_stays(a, b.remove(p));
    lemma_removing_new_path_stays(a, b, p);
    lemma_staying_keeps_files(a, b);
}

/// A source that goes once its bytes stand at a reserved path has landed.
proof fn lemma_copied_file_lands(a: Tree, b: Tree, from: PathView, to: PathView)
    requires
        reserved(a, b, to),
        vacant(a, to),
        is_file(a, from),
        is_file(b, to),
        bytes(b, to) == bytes(a, from),
    ensures
        landed(a, b.remove(from), from, to),
        keeps_files(a, b.remove(from)),
        others_stay(a, b.remove(from), from),
{
    let c = b.remove(from);
    lemma_reserving_stays(a, b, to);
    assert(from.parts.take(from.parts.len() as int) =~= from.parts);
    assert(from.starts_with(from));
    assert forall|q: PathView| #[trigger]
        a.dom().contains(q) && q != from implies c.dom().contains(q) && c[q] == a[q] by {
        assert(b.dom().contains(q));
    }
    lemma_moved_file_is_kept(a, c, from, to);
    assert(to.parts.take(to.parts.len() as int) =~= to.parts);
    assert forall|q: PathView| #[trigger]
        c.dom().contains(q) && !a.dom().contains(q) && !q.starts_with(to) && !q.starts_with(
        from,
    ) implies c[q] is Dir by {
        assert(b.remove(to).dom().contains(q));
    }
}

/// How far a move by a copy has got, and what the file system said there:
/// nothing could be learnt of the source, the source could not be hashed, the
/// reservation was refused, the copy was broken off, the copy was verified, its
/// time could not be set, or the source could not be removed.
#[derive(Debug, Clone, PartialEq)]
pub enum ReserveAnswer {
    Unseen(IoError),
    Unhashed(IoError),
    Refused(IoError),
    NotCopied(IoError),
    Checked(Verify),
    Untimed(IoError),
    Stays(IoError),
}

/// What a move by a copy amounts to: what the journal holds of it, and the
/// result.
pub open spec fn reserve_verdict(a: ReserveAnswer, from: PathView) -> (
    ClosingView,
    MoveResultView,
) {
    match a {
        ReserveAnswer::Unseen(e) => (
            ClosingView::Silent,
            io_failure(e.deep_view(), "stat source"@),
        ),
        ReserveAnswer::Unhashed(e) => if e.kind == IoKind::Interrupted {
            (ClosingView::Silent, MoveResultView::Cancelled)
        } else {
            (ClosingView::Silent, io_failure(e.deep_view(), "hash source"@))
        },
        ReserveAnswer::Refused(e) => {
            let (why, result) = reserve_refusal(e.deep_view());
            (ClosingView::Failed(why), result)
        },
        ReserveAnswer::NotCopied(e) => if e.kind == IoKind::Interrupted {
            (ClosingView::Open, MoveResultView::Cancelled)
        } else {
            (ClosingView::Failed(e.message@), io_failure(e.deep_view(), "copy_into"@))
        },
        ReserveAnswer::Checked(Verify::Intact) => (
            ClosingView::Moved,
            MoveResultView::Moved { source_dir: from.parent() },
        ),
        ReserveAnswer::Checked(Verify::Cancelled) => (
            ClosingView::Open,
            MoveResultView::Cancelled,
        ),
        ReserveAnswer::Checked(Verify::Fail(m)) => (
            ClosingView::Failed(m@),
            MoveResultView::Failed { message: m@, io_kind: None },
        ),
        ReserveAnswer::Untimed(e) => (
            ClosingView::Failed(e.message@),
            io_failure(e.deep_view(), "set_mtime"@),
        ),
        ReserveAnswer::Stays(e) => (
            ClosingView::Failed(e.message@),
            io_failure(e.deep_view(), "remove_file source"@),
        ),
    }
}

/// What a move by a copy amounts to.
pub fn settle_reserve(a: &ReserveAnswer, from: &FilePath) -> (r: (Closing, MoveResult))
    ensures
        (r.0.deep_view(), r.1.deep_view()) == reserve_verdict(*a, from.deep_view()),
{
    match a {
        ReserveAnswer::Unseen(e) => (Closing::Silent, io_fail(e, "stat source")),
        ReserveAnswer::Unhashed(e) => if e.kind == IoKind::Interrupted {
            (Closing::Silent, MoveResult::Cancelled)
        } else {
            (Closing::Silent, io_fail(e, "hash source"))
        },
        ReserveAnswer::Refused(e) => {
            let (why, result) = reserve_refused(e);
            (Closing::Failed(why), result)
        },
        ReserveAnswer::NotCopied(e) => if e.kind == IoKind::Interrupted {
            (Closing::Open, MoveResult::Cancelled)
        } else {
            (Closing::Failed(e.message.clone()), io_fail(e, "copy_into"))
        },
        ReserveAnswer::Checked(Verify::Intact) => (
            Closing::Moved,
            MoveResult::Moved { source_dir: from.parent() },
        ),
        ReserveAnswer::Checked(Verify::Cancelled) => (Closing::Open, MoveResult::Cancelled),
        ReserveAnswer::Checked(Verify::Fail(m)) => (Closing::Failed(m.clone()), fail(m)),
        ReserveAnswer::Untimed(e) => (
            Closing::Failed(e.message.clone()),
            io_fail(e, "set_mtime"),
        ),
        ReserveAnswer::Stays(e) => (
            Closing::Failed(e.message.clone()),
            io_fail(e, "remove_file source"),
        ),
    }
}

/// What comes of a move by a copy, given how far it has got.
///
/// - Before the reservation nothing has changed, but for new directories.
/// - From the reservation on everything stands where it stood, the source too,
///   and the reservation may be there.
/// - In the end the file stands at the destination, at which nothing stood.
pub open spec fn reserve_outcome<S: JournalStore>(
    t0: Tree,
    t1: Tree,
    j0: Journal<S>,
    j1: Journal<S>,
    from: PathView,
    to: PathView,
    r: MoveResultView,
    a: ReserveAnswer,
    len: u64,
) -> bool {
    &&& r == reserve_verdict(a, from).1
    &&& closed_with(j0, j1, from, to, reserve_verdict(a, from).0, len)
    &&& match a {
        ReserveAnswer::Unseen(_) | ReserveAnswer::Unhashed(_) => t1 == t0,
        ReserveAnswer::Refused(_) => only_adds_dirs(t0, t1),
        ReserveAnswer::Checked(Verify::Intact) => {
            &&& landed(t0, t1, from, to)
            &&& is_file(t0, from) ==> len == bytes(t0, from).len()
        },
        _ => reserved(t0, t1, to),
    }
}

/// What may come of moving by a copy into a reservation. Whatever the file
/// system says, no file is lost and everything but the source stays.
pub open spec fn reserve_result<S: JournalStore>(
    t0: Tree,
    t1: Tree,
    j0: Journal<S>,
    j1: Journal<S>,
    from: PathView,
    to: PathView,
    r: Result<MoveResultView, FatalReason>,
) -> bool {
    &&& j0.records().is_prefix_of(j1.records())
    &&& keeps_files(t0, t1)
    &&& others_stay(t0, t1, from)
    &&& !t0.dom().contains(from) ==> (r matches Ok(MoveResultView::Failed { .. })) && t1 == t0
        && untouched(j0, j1)
    &&& match r {
        Err(f) => {
            &&& unwritable(f, j0, j1)
            &&& j1.same_binding(&j0)
            &&& only_adds_dirs(t0, t1) || has_begun(j0, j1)
            &&& all_stay(t0, t1) || landed(t0, t1, from, to)
        },
        Ok(v) => exists|a: ReserveAnswer, len: u64| #[trigger]
            reserve_outcome(t0, t1, j0, j1, from, to, v, a, len),
    }
}

/// Copies the bytes of a source into a reservation, and closes it.
fn fill_reservation<F: FileSystem>(
    fs: &mut F,
    from: &FilePath,
    reservation: F::Handle,
    cancel: &CancelToken,
) -> (r: Result<u64, IoError>)
    requires
        is_file(old(fs).tree(), F::target(reservation)),
        from.deep_view() != F::target(reservation),
    ensures
        final(fs).history() == old(fs).history().push(
            (Call::Copy { from: from.deep_view(), to: F::target(reservation), done: r is Ok }),
        ),
        final(fs).tree().remove(F::target(reservation)) == old(fs).tree().remove(
            F::target(reservation),
        ),
        is_file(final(fs).tree(), F::target(reservation)),
        r matches Ok(n) ==> {
            &&& is_file(old(fs).tree(), from.deep_view())
            &&& bytes(final(fs).tree(), F::target(reservation)) == bytes(
                old(fs).tree(),
                from.deep_view(),
            )
            &&& n as nat == bytes(old(fs).tree(), from.deep_view()).len()
        },
        old(fs).is_steady() ==> final(fs).is_steady(),
        old(fs).is_steady() && is_file(old(fs).tree(), from.deep_view()) ==> (r matches Err(e)
            ==> !cancel.is_idle() && e.kind == IoKind::Interrupted),
        old(fs).is_steady() && cancel.is_idle() ==> (r matches Err(e) ==> e.kind
            != IoKind::Interrupted),
{
    let ghost p = F::target(reservation);
    let ghost t0 = fs.tree();
    let mut handle = reservation;
    let r = fs.copy_into(from, &mut handle, cancel);
    proof {
        let a = t0.remove(p);
        let b = fs.tree().remove(p);
        assert forall|q: PathView| #[trigger] a.dom().contains(q) == b.dom().contains(q) by {
            if q != p {
                assert(t0.dom().contains(q) == fs.tree().dom().contains(q));
            }
        }
        assert forall|q: PathView| #[trigger] a.dom().contains(q) implies a[q] == b[q] by {
            assert(fs.tree().dom().contains(q));
        }
        assert(a =~= b);
    }
    r
}

/// Moves a file by reserving the destination, copying and verifying; then the
/// source is removed.
pub fn move_reserve<F: FileSystem, S: JournalStore>(
    fs: &mut F,
    cfg: &Config,
    opts: &ExecOptions,
    journal: &mut Journal<S>,
    from: &FilePath,
    to: &FilePath,
) -> (r: Result<MoveResult, FatalReason>)
    ensures
        old(fs).is_steady() ==> final(fs).is_steady(),
        reserve_result(
            old(fs).tree(),
            final(fs).tree(),
            *old(journal),
            *final(journal),
            from.deep_view(),
            to.deep_view(),
            result_view(r),
        ),
        // On a steady file system nothing but what stands in the way, and a
        // journal that cannot be written, keeps a file from being moved.
        old(fs).is_steady() && opts.cancel.is_idle() && is_file(
            old(fs).tree(),
            from.deep_view(),
        ) && can_create(old(fs).tree(), to.deep_view()) ==> (r matches Ok(m) ==> m is Moved),
        // Nothing is broken off that nobody can cancel.
        old(fs).is_steady() && opts.cancel.is_idle() ==> (r matches Ok(m) ==> !(m is Cancelled)),
        // The source is removed only once the copy has been verified.
        exists|s: Seen, answer: Option<ReserveAnswer>| #[trigger]
            reserve_traced(
                old(fs).history(),
                final(fs).history(),
                *cfg,
                from.deep_view(),
                to.deep_view(),
                s,
                answer,
            ) && (r matches Ok(m) ==> answer is Some && m.deep_view() == reserve_verdict(
                answer->0,
                from.deep_view(),
            ).1),
        r matches Ok(MoveResult::Moved { .. }) ==> keeps_time(
            old(fs).tree(),
            final(fs).tree(),
            *cfg,
            from.deep_view(),
            to.deep_view(),
        ),
{
    let ghost h0 = fs.history();
    let ghost t0 = fs.tree();
    let ghost j0 = *journal;
    let ghost f = from.deep_view();
    let ghost d = to.deep_view();
    proof {
        lemma_staying_keeps_files(t0, t0);
    }
    let source = inspect(fs, cfg, from, &opts.cancel);
    let ghost seen = Seen {
        source: source.found(),
        found: Finding { size: None, hash: None },
        modified: None,
        stamped: true,
        undone: true,
        failed: 0,
        made: false,
    };
    let (meta, hash) = match source {
        Source::Fine { meta, hash } => (meta, hash),
        Source::StatFailed(e) => {
            let answer = ReserveAnswer::Unseen(e);
            let (_, result) = settle_reserve(&answer, from);
            proof {
                assert(reserve_outcome(t0, t0, j0, j0, f, d, result.deep_view(), answer, 0));
                assert(fs.history() =~= h0 + read_calls(f, seen.source) + reserve_calls(
                    *cfg,
                    f,
                    d,
                    seen,
                    answer,
                ));
                assert(reserve_traced(h0, fs.history(), *cfg, f, d, seen, Some(answer)));
            }
            return Ok(result);
        },
        Source::HashFailed { error, .. } => {
            let answer = ReserveAnswer::Unhashed(error);
            let (_, result) = settle_reserve(&answer, from);
            proof {
                assert(reserve_outcome(t0, t0, j0, j0, f, d, result.deep_view(), answer, 0));
                assert(fs.history() =~= h0 + read_calls(f, seen.source) + reserve_calls(
                    *cfg,
                    f,
                    d,
                    seen,
                    answer,
                ));
                assert(reserve_traced(h0, fs.history(), *cfg, f, d, seen, Some(answer)));
            }
            return Ok(result);
        },
    };
    let seq: u64 = match journal.write_intent(JournalOp::Move, Some(from), Some(to)) {
        Ok(s) => s,
        Err(fatal) => {
            proof {
                assert(reserve_traced(h0, fs.history(), *cfg, f, d, seen, None));
            }
            return Err(fatal);
        },
    };
    let ghost h1 = fs.history();
    let answer = copy_and_remove(fs, cfg, opts, from, to, &meta, hash.as_ref());
    proof {
        let s = choose|s: Seen| #[trigger]
            reserve_seen(*cfg, f, d, s, answer) && s.source == finding(meta.len, hash.deep_view())
                && s.modified == meta.modified && fs.history() == h1 + reserve_calls(
                *cfg,
                f,
                d,
                s,
                answer,
            );
        assert(reserve_traced(h0, fs.history(), *cfg, f, d, s, Some(answer)));
    }
    let (closing, result) = settle_reserve(&answer, from);
    proof {
        if only_adds_dirs(t0, fs.tree()) {
            lemma_adding_dirs_stays(t0, fs.tree());
        }
        if reserved(t0, fs.tree(), d) {
            lemma_reserving_stays(t0, fs.tree(), d);
        }
    }
    match close_move(journal, seq, from, to, &closing, meta.len, Ghost(j0)) {
        Ok(()) => {},
        Err(fatal) => {
            return Err(fatal);
        },
    }
    proof {
        assert(reserve_outcome(
            t0,
            fs.tree(),
            j0,
            *journal,
            f,
            d,
            result.deep_view(),
            answer,
            meta.len,
        ));
    }
    Ok(result)
}

/// How far a copy has got: the reservation was refused, the copy was broken
/// off, or it is whole and was verified.
#[derive(Debug, Clone, PartialEq)]
pub enum Copied {
    Refused(IoError),
    Broken(IoError),
    Whole(Verify),
}

/// The calls by which a copy is made, given how far it has got.
pub open spec fn copied_calls(from: PathView, to: PathView, found: Finding, r: Copied) -> Seq<Call> {
    match r {
        Copied::Refused(_) => seq![Call::Create { path: to, done: false }],
        Copied::Broken(_) => seq![
            Call::Create { path: to, done: true },
            Call::Copy { from, to, done: false },
        ],
        Copied::Whole(_) => copy_calls(from, to, found),
    }
}

/// What stands where after a copy, given how far it has got.
pub open spec fn copied_step(
    t0: Tree,
    t1: Tree,
    from: PathView,
    to: PathView,
    r: Copied,
) -> bool {
    match r {
        Copied::Refused(_) => only_adds_dirs(t0, t1),
        Copied::Broken(_) => from != to && reserved(t0, t1, to) && reserved(t0, t1.remove(to), to),
        Copied::Whole(_) => {
            &&& from != to
            &&& vacant(t0, to)
            &&& reserved(t0, t1, to)
            &&& reserved(t0, t1.remove(to), to)
            &&& is_file(t0, from)
            &&& is_file(t1, to)
            &&& bytes(t1, to) == bytes(t0, from)
        },
    }
}

/// Reserves a path, copies into it and verifies the copy.
fn copy_and_check<F: FileSystem>(
    fs: &mut F,
    cfg: &Config,
    opts: &ExecOptions,
    from: &FilePath,
    to: &FilePath,
    meta: &FileMeta,
    hash: Option<&String>,
) -> (r: Copied)
    requires
        old(fs).tree().dom().contains(from.deep_view()),
    ensures
        old(fs).is_steady() ==> final(fs).is_steady(),
        copied_step(old(fs).tree(), final(fs).tree(), from.deep_view(), to.deep_view(), r),
        exists|found: Finding|
            final(fs).history() == old(fs).history() + #[trigger] copied_calls(
                from.deep_view(),
                to.deep_view(),
                found,
                r,
            ) && (r matches Copied::Whole(v) ==> checked_as(
                found,
                hashes(*cfg),
                meta.len,
                hash.deep_view(),
                v.deep_view(),
            )),
        old(fs).is_steady() && opts.cancel.is_idle() && is_source_of(
            old(fs).tree(),
            from.deep_view(),
            meta.len,
            hash.deep_view(),
        ) ==> if can_create(old(fs).tree(), to.deep_view()) {
            r == Copied::Whole(Verify::Intact)
        } else {
            r is Refused
        },
        old(fs).is_steady() && opts.cancel.is_idle() ==> match r {
            Copied::Refused(_) => true,
            Copied::Broken(e) => e.kind != IoKind::Interrupted,
            Copied::Whole(v) => v.deep_view() != VerifyView::Cancelled,
        },
{
    let ghost h0 = fs.history();
    let ghost none = Finding { size: None, hash: None };
    let ghost t0 = fs.tree();
    let ghost f = from.deep_view();
    let ghost d = to.deep_view();
    let reservation = match fs.create_new(to) {
        Ok(h) => h,
        Err(e) => {
            proof {
                assert(fs.history() =~= h0 + copied_calls(f, d, none, Copied::Refused(e)));
            }
            return Copied::Refused(e);
        },
    };
    proof {
        assert(d.parts.take(d.parts.len() as int) =~= d.parts);
        assert(d.starts_with(d));
        assert(reserved(t0, fs.tree(), d));
    }
    let copied = fill_reservation(fs, from, reservation, &opts.cancel);
    let ghost t1 = fs.tree();
    proof {
        assert(reserved(t0, t1, d));
        lemma_reserving_stays(t0, t1, d);
        assert(t1.remove(d).remove(d) =~= t1.remove(d));
        assert(reserved(t0, t1.remove(d), d));
    }
    match copied {
        Ok(_) => {},
        Err(e) => {
            proof {
                assert(fs.history() =~= h0 + copied_calls(f, d, none, Copied::Broken(e)));
            }
            return Copied::Broken(e);
        },
    }
    proof {
        assert(is_file(t0, f) && bytes(t1, d) == bytes(t0, f)) by {
            assert(t1.remove(d).dom().contains(f));
        }
    }
    if let Some(parent) = to.parent() {
        let _ = fs.sync_dir(&parent);
    }
    let ghost h1 = fs.history();
    let verdict = verify_dest(fs, cfg, to, meta.len, hash, &opts.cancel);
    proof {
        let found = choose|found: Finding| #[trigger]
            checked_as(found, hashes(*cfg), meta.len, hash.deep_view(), verdict.deep_view())
                && fs.history() == h1 + read_calls(d, found);
        assert(fs.history() =~= h0 + copied_calls(f, d, found, Copied::Whole(verdict)));
    }
    Copied::Whole(verdict)
}

/// Reserves the destination, copies into it and verifies the copy; then the
/// source is removed. Says how far that has got.
fn copy_and_remove<F: FileSystem>(
    fs: &mut F,
    cfg: &Config,
    opts: &ExecOptions,
    from: &FilePath,
    to: &FilePath,
    meta: &FileMeta,
    hash: Option<&String>,
) -> (r: ReserveAnswer)
    requires
        old(fs).tree().dom().contains(from.deep_view()),
    ensures
        old(fs).is_steady() ==> final(fs).is_steady(),
        match r {
            ReserveAnswer::Unseen(_) | ReserveAnswer::Unhashed(_) => false,
            ReserveAnswer::Refused(_) => only_adds_dirs(old(fs).tree(), final(fs).tree()),
            ReserveAnswer::Checked(Verify::Intact) => {
                &&& landed(old(fs).tree(), final(fs).tree(), from.deep_view(), to.deep_view())
                &&& keeps_files(old(fs).tree(), final(fs).tree())
                &&& others_stay(old(fs).tree(), final(fs).tree(), from.deep_view())
            },
            _ => reserved(old(fs).tree(), final(fs).tree(), to.deep_view()),
        },
        exists|s: Seen| #[trigger]
            reserve_seen(*cfg, from.deep_view(), to.deep_view(), s, r) && s.source == finding(
                meta.len,
                hash.deep_view(),
            ) && s.modified == meta.modified && final(fs).history() == old(fs).history()
                + reserve_calls(*cfg, from.deep_view(), to.deep_view(), s, r),
        old(fs).is_steady() && opts.cancel.is_idle() && can_create(old(fs).tree(), to.deep_view())
            && is_source_of(old(fs).tree(), from.deep_view(), meta.len, hash.deep_view()) ==> r
            == ReserveAnswer::Checked(Verify::Intact),
        old(fs).is_steady() && opts.cancel.is_idle() ==> !(reserve_verdict(
            r,
            from.deep_view(),
        ).1 is Cancelled),
        r == ReserveAnswer::Checked(Verify::Intact) && cfg.moves.preserve_mtime
            && meta.modified is Some ==> is_file(final(fs).tree(), to.deep_view())
            && final(fs).tree()[to.deep_view()]->modified == meta.modified,
{
    let ghost h0 = fs.history();
    let ghost mut seen = Seen {
        source: finding(meta.len, hash.deep_view()),
        found: Finding { size: None, hash: None },
        modified: meta.modified,
        stamped: true,
        undone: true,
        failed: 0,
        made: false,
    };
    let ghost t0 = fs.tree();
    let ghost f = from.deep_view();
    let ghost d = to.deep_view();
    let copied = copy_and_check(fs, cfg, opts, from, to, meta, hash);
    let ghost t1 = fs.tree();
    let ghost h1 = fs.history();
    proof {
        let found = choose|found: Finding|
            h1 == h0 + #[trigger] copied_calls(f, d, found, copied) && (copied matches Copied::Whole(
                v,
            ) ==> checked_as(found, hashes(*cfg), meta.len, hash.deep_view(), v.deep_view()));
        seen = Seen { found, ..seen };
    }
    let verdict = match copied {
        Copied::Whole(v) => v,
        Copied::Refused(e) => {
            proof {
                assert(reserve_seen(*cfg, f, d, seen, ReserveAnswer::Refused(e)));
            }
            return ReserveAnswer::Refused(e);
        },
        Copied::Broken(e) => {
            let gone = fs.remove_file(to);
            proof {
                seen = Seen { undone: gone is Ok, ..seen };
                let a = ReserveAnswer::NotCopied(e);
                assert(reserve_seen(*cfg, f, d, seen, a));
                assert(fs.history() =~= h0 + reserve_calls(*cfg, f, d, seen, a));
            }
            return ReserveAnswer::NotCopied(e);
        },
    };
    proof {
        lemma_reserving_stays(t0, t1, d);
        assert(seen.gets(*cfg, verdict.deep_view()));
    }
    match verdict {
        Verify::Intact => {},
        Verify::Cancelled => {
            let gone = fs.remove_file(to);
            proof {
                seen = Seen { undone: gone is Ok, ..seen };
                let a = ReserveAnswer::Checked(Verify::Cancelled);
                assert(reserve_seen(*cfg, f, d, seen, a));
                assert(fs.history() =~= h0 + reserve_calls(*cfg, f, d, seen, a));
            }
            return ReserveAnswer::Checked(Verify::Cancelled);
        },
        Verify::Fail(message) => {
            proof {
                let a = ReserveAnswer::Checked(Verify::Fail(message));
                assert(reserve_seen(*cfg, f, d, seen, a));
            }
            return ReserveAnswer::Checked(Verify::Fail(message));
        },
    }
    if cfg.moves.preserve_mtime {
        if let Some(mtime) = meta.modified {
            match fs.set_mtime(to, mtime) {
                Ok(()) => {},
                Err(e) => {
                    proof {
                        let a = ReserveAnswer::Untimed(e);
                        assert(reserve_seen(*cfg, f, d, seen, a));
                        assert(fs.history() =~= h0 + reserve_calls(*cfg, f, d, seen, a));
                    }
                    return ReserveAnswer::Untimed(e);
                },
            }
        }
    }
    let ghost t2 = fs.tree();
    proof {
        assert(t2.remove(d) =~= t1.remove(d));
        assert(reserved(t0, t2, d));
        lemma_reserving_stays(t0, t2, d);
        lemma_copied_file_lands(t0, t2, f, d);
    }
    let r = match fs.remove_file(from) {
        Ok(()) => ReserveAnswer::Checked(Verify::Intact),
        Err(e) => ReserveAnswer::Stays(e),
    };
    proof {
        assert(reserve_seen(*cfg, f, d, seen, r));
        assert(fs.history() =~= h0 + reserve_calls(*cfg, f, d, seen, r));
    }
    r
}

/// Whether creating a directory may succeed if it is tried again.
pub open spec fn is_transient(e: IoErrorView) -> bool {
    e.kind == IoKind::PermissionDenied || e.raw_os == Some(32i32) || e.raw_os == Some(5i32)
}

/// Whether creating a directory may succeed if it is tried again: the access
/// was refused, or somebody else holds the directory.
pub fn is_transient_dir_error(e: &IoError) -> (r: bool)
    ensures
        r == is_transient(e.deep_view()),
{
    let by_code = match e.raw_os {
        Some(code) => code == 32 || code == 5,
        None => false,
    };
    e.kind == IoKind::PermissionDenied || by_code
}

/// Whether a result is what comes of trying up to five times while the error
/// may pass, given the errors on the way.
pub open spec fn retried(errors: Seq<IoErrorView>, r: Result<(), IoError>) -> bool {
    &&& forall|i: int| 0 <= i < errors.len() - 1 ==> is_transient(#[trigger] errors[i])
    &&& match r {
        Ok(()) => errors.len() < 5 && (errors.len() > 0 ==> is_transient(errors.last())),
        Err(e) => {
            &&& 1 <= errors.len() <= 5
            &&& e.deep_view() == errors.last()
            &&& errors.len() == 5 || !is_transient(e.deep_view())
        },
    }
}

/// Creates a directory and those above it, trying up to five times while the
/// error may pass.
pub fn create_dir_retry<F: FileSystem>(fs: &mut F, dir: &FilePath) -> (r: Result<(), IoError>)
    ensures
        old(fs).is_steady() ==> final(fs).is_steady(),
        old(fs).is_steady() ==> r is Ok == !obstructed(old(fs).tree(), dir.deep_view()),
        only_adds_dirs(old(fs).tree(), final(fs).tree()),
        adds_only_above(old(fs).tree(), final(fs).tree(), dir.deep_view()),
        r is Ok ==> is_dir(final(fs).tree(), dir.deep_view()),
        exists|errors: Seq<IoErrorView>| #[trigger]
            retried(errors, r) && final(fs).history() == old(fs).history() + made_calls(
                dir.deep_view(),
                errors.len(),
                r is Ok,
            ),
{
    let ghost t0 = fs.tree();
    let ghost mut errors: Seq<IoErrorView> = Seq::empty();
    let mut attempt: u32 = 1;
    assert(fs.history() =~= fs.history() + made_calls(dir.deep_view(), 0, false));
    loop
        invariant
            old(fs).is_steady() ==> fs.is_steady(),
            fs.history() == old(fs).history() + made_calls(dir.deep_view(), errors.len(), false),
            1 <= attempt <= 5,
            errors.len() == attempt - 1,
            forall|i: int| 0 <= i < errors.len() ==> is_transient(#[trigger] errors[i]),
            t0 == old(fs).tree(),
            only_adds_dirs(t0, fs.tree()),
            adds_only_above(t0, fs.tree(), dir.deep_view()),
        decreases 5 - attempt,
    {
        let ghost t1 = fs.tree();
        let r = fs.create_dir_all(dir);
        proof {
            lemma_adding_dirs_is_transitive(t0, t1, fs.tree());
            lemma_obstruction_stays(t0, t1, dir.deep_view());
        }
        match r {
            Ok(()) => {
                proof {
                    assert(fs.history() =~= old(fs).history() + made_calls(
                        dir.deep_view(),
                        errors.len(),
                        true,
                    ));
                    assert(retried(errors, Ok(())));
                }
                return Ok(());
            },
            Err(e) => {
                let ghost before = errors;
                proof {
                    errors = before.push(e.deep_view());
                    assert forall|i: int| 0 <= i < errors.len() - 1 implies is_transient(
                        #[trigger] errors[i],
                    ) by {
                        assert(errors[i] == before[i]);
                    }
                    assert(fs.history() =~= old(fs).history() + made_calls(
                        dir.deep_view(),
                        errors.len(),
                        false,
                    ));
                }
                if attempt == 5 || !is_transient_dir_error(&e) {
                    proof {
                        assert(retried(errors, Err(e)));
                    }
                    return Err(e);
                }
                fs.pause();
            },
        }
        attempt = attempt + 1;
    }
}

/// The path of the file that a replacement is written to, beside the
/// destination.
pub open spec fn replacement_path(dest: PathView, id: RunId) -> PathView {
    let parent = match dest.parent() {
        Some(p) => p,
        None => PathView::empty(),
    };
    let stem = match dest.stem() {
        Some(s) => s,
        None => "file"@,
    };
    let name = stem + ".mm-replace-"@ + hex(id.0 as nat, 32);
    match dest.extension() {
        Some(ext) => if ext.len() == 0 {
            parent.child(name)
        } else {
            parent.child(name + "."@ + ext)
        },
        None => parent.child(name),
    }
}

/// The path of the file that a replacement is written to, beside the
/// destination.
pub fn sibling_temp(dest: &FilePath, id: RunId) -> (r: FilePath)
    ensures
        r.deep_view() == replacement_path(dest.deep_view(), id),
{
    let parent = match dest.parent() {
        Some(p) => p,
        None => FilePath::empty(),
    };
    let stem = match dest.file_stem() {
        Some(s) => s,
        None => "file".to_string(),
    };
    let name = stem.concat(".mm-replace-").concat(&id.simple());
    match dest.extension() {
        Some(ext) => if text::to_chars(&ext).len() == 0 {
            parent.child(&name)
        } else {
            parent.child(&name.concat(".").concat(&ext))
        },
        None => parent.child(&name),
    }
}

/// Whether everything but what stands at two paths stands where it stood.
pub open spec fn stays_beside(a: Tree, b: Tree, p: PathView, q: PathView) -> bool {
    forall|x: PathView| #[trigger]
        a.dom().contains(x) && x != p && x != q ==> b.dom().contains(x) && b[x] == a[x]
}

/// Whether the bytes of a file stand at one path or at another.
pub open spec fn survives(a: Tree, b: Tree, from: PathView, to: PathView) -> bool {
    is_file(a, from) ==> {
        ||| is_file(b, from) && bytes(b, from) == bytes(a, from)
        ||| is_file(b, to) && bytes(b, to) == bytes(a, from)
    }
}

/// How far a replacement has got, and what the file system said there: nothing
/// could be learnt of the source, the source could not be hashed, the sibling
/// was refused, the copy was broken off, the copy was verified, it could not
/// take the place of the destination, or the source could not be removed.
#[derive(Debug, Clone, PartialEq)]
pub enum ReplaceAnswer {
    Unseen(IoError),
    Unhashed(IoError),
    Refused(IoError),
    NotCopied(IoError),
    Checked(Verify),
    NotPlaced(IoError),
    Stays(IoError),
}

/// What a replacement amounts to: what the journal holds of it, and the result.
pub open spec fn replace_verdict(a: ReplaceAnswer, from: PathView) -> (
    ClosingView,
    MoveResultView,
) {
    match a {
        ReplaceAnswer::Unseen(e) => (
            ClosingView::Silent,
            io_failure(e.deep_view(), "stat source"@),
        ),
        ReplaceAnswer::Unhashed(e) => (
            ClosingView::Silent,
            io_failure(e.deep_view(), "hash source"@),
        ),
        ReplaceAnswer::Refused(e) => (
            ClosingView::Failed(e.message@),
            io_failure(e.deep_view(), "create_new replace temp"@),
        ),
        ReplaceAnswer::NotCopied(e) => if e.kind == IoKind::Interrupted {
            (ClosingView::Failed("cancelled"@), MoveResultView::Cancelled)
        } else {
            (
                ClosingView::Failed(e.message@),
                io_failure(e.deep_view(), "copy_into replace"@),
            )
        },
        ReplaceAnswer::Checked(Verify::Intact) => (
            ClosingView::Moved,
            MoveResultView::Moved { source_dir: from.parent() },
        ),
        ReplaceAnswer::Checked(Verify::Cancelled) => (
            ClosingView::Failed("cancelled"@),
            MoveResultView::Cancelled,
        ),
        ReplaceAnswer::Checked(Verify::Fail(m)) => (
            ClosingView::Failed(m@),
            MoveResultView::Failed { message: m@, io_kind: None },
        ),
        ReplaceAnswer::NotPlaced(e) => (
            ClosingView::Failed(e.message@),
            io_failure(e.deep_view(), "rename_replace"@),
        ),
        ReplaceAnswer::Stays(e) => (
            ClosingView::Failed(e.message@),
            io_failure(e.deep_view(), "remove_file source"@),
        ),
    }
}

/// What a replacement amounts to.
pub fn settle_replace(a: &ReplaceAnswer, from: &FilePath) -> (r: (Closing, MoveResult))
    ensures
        (r.0.deep_view(), r.1.deep_view()) == replace_verdict(*a, from.deep_view()),
{
    match a {
        ReplaceAnswer::Unseen(e) => (Closing::Silent, io_fail(e, "stat source")),
        ReplaceAnswer::Unhashed(e) => (Closing::Silent, io_fail(e, "hash source")),
        ReplaceAnswer::Refused(e) => (
            Closing::Failed(e.message.clone()),
            io_fail(e, "create_new replace temp"),
        ),
        ReplaceAnswer::NotCopied(e) => if e.kind == IoKind::Interrupted {
            (Closing::Failed("cancelled".to_string()), MoveResult::Cancelled)
        } else {
            (Closing::Failed(e.message.clone()), io_fail(e, "copy_into replace"))
        },
        ReplaceAnswer::Checked(Verify::Intact) => (
            Closing::Moved,
            MoveResult::Moved { source_dir: from.parent() },
        ),
        ReplaceAnswer::Checked(Verify::Cancelled) => (
            Closing::Failed("cancelled".to_string()),
            MoveResult::Cancelled,
        ),
        ReplaceAnswer::Checked(Verify::Fail(m)) => (Closing::Failed(m.clone()), fail(m)),
        ReplaceAnswer::NotPlaced(e) => (
            Closing::Failed(e.message.clone()),
            io_fail(e, "rename_replace"),
        ),
        ReplaceAnswer::Stays(e) => (
            Closing::Failed(e.message.clone()),
            io_fail(e, "remove_file source"),
        ),
    }
}

/// Whether a replacement went through, unless there was no room for a sibling.
pub open spec fn goes_through(a: ReplaceAnswer) -> bool {
    a is Refused || a == ReplaceAnswer::Checked(Verify::Intact)
}

/// What stands where after a replacement, given how far it has got.
///
/// - Until the copy takes the place of the destination everything stands where
///   it stood.
/// - From then on the bytes of the source stand at the destination.
/// - In the end the source is gone.
pub open spec fn replace_step(
    t0: Tree,
    t1: Tree,
    from: PathView,
    to: PathView,
    a: ReplaceAnswer,
) -> bool {
    match a {
        ReplaceAnswer::Unseen(_) | ReplaceAnswer::Unhashed(_) => t1 == t0,
        ReplaceAnswer::Stays(_) => {
            &&& is_file(t0, from)
            &&& is_file(t1, to)
            &&& bytes(t1, to) == bytes(t0, from)
            &&& stays_beside(t0, t1, to, to)
        },
        ReplaceAnswer::Checked(Verify::Intact) => replaced(t0, t1, from, to),
        _ => all_stay(t0, t1),
    }
}

/// What comes of a replacement, given how far it has got.
pub open spec fn replace_outcome<S: JournalStore>(
    t0: Tree,
    t1: Tree,
    j0: Journal<S>,
    j1: Journal<S>,
    from: PathView,
    to: PathView,
    r: MoveResultView,
    a: ReplaceAnswer,
    len: u64,
) -> bool {
    &&& r == replace_verdict(a, from).1
    &&& closed_with(j0, j1, from, to, replace_verdict(a, from).0, len)
    &&& replace_step(t0, t1, from, to, a)
    &&& a matches ReplaceAnswer::Checked(Verify::Intact) ==> len == bytes(t0, from).len()
}

/// What may come of replacing a destination. Whatever the file system says,
/// the bytes of the source stand at one of the two paths, and everything else
/// stays.
pub open spec fn replace_result<S: JournalStore>(
    t0: Tree,
    t1: Tree,
    j0: Journal<S>,
    j1: Journal<S>,
    from: PathView,
    to: PathView,
    r: Result<MoveResultView, FatalReason>,
) -> bool {
    &&& j0.records().is_prefix_of(j1.records())
    &&& stays_beside(t0, t1, from, to)
    &&& survives(t0, t1, from, to)
    &&& match r {
        Err(f) => {
            &&& unwritable(f, j0, j1)
            &&& j1.same_binding(&j0)
            &&& only_adds_dirs(t0, t1) || has_begun(j0, j1)
        },
        Ok(v) => exists|a: ReplaceAnswer, len: u64| #[trigger]
            replace_outcome(t0, t1, j0, j1, from, to, v, a, len),
    }
}

/// Replaces a destination: reserves a sibling, copies, verifies, renames over
/// the destination; then the source is removed. A file does not replace itself.
pub fn move_replace<F: FileSystem, S: JournalStore>(
    fs: &mut F,
    cfg: &Config,
    opts: &ExecOptions,
    journal: &mut Journal<S>,
    from: &FilePath,
    to: &FilePath,
) -> (r: Result<MoveResult, FatalReason>)
    ensures
        old(fs).is_steady() ==> final(fs).is_steady(),
        from.deep_view() == to.deep_view() ==> {
            &&& r matches Ok(m) && m is NoOp
            &&& *final(fs) == *old(fs)
            &&& *final(journal) == *old(journal)
        },
        from.deep_view() != to.deep_view() ==> replace_result(
            old(fs).tree(),
            final(fs).tree(),
            *old(journal),
            *final(journal),
            from.deep_view(),
            to.deep_view(),
            result_view(r),
        ),
        // Nothing is broken off that nobody can cancel.
        old(fs).is_steady() && opts.cancel.is_idle() ==> (r matches Ok(m) ==> !(m is Cancelled)),
        // The destination is replaced, and the source removed, only once the
        // copy has been verified. The copy has the time of the source, unless
        // that could not be set.
        from.deep_view() != to.deep_view() ==> exists|
            id: RunId,
            s: Seen,
            answer: Option<ReplaceAnswer>,
        | #[trigger]
            replace_traced(
                old(fs).history(),
                final(fs).history(),
                *cfg,
                from.deep_view(),
                to.deep_view(),
                replacement_path(to.deep_view(), id),
                s,
                answer,
            ) && (r matches Ok(m) ==> answer is Some && m.deep_view() == replace_verdict(
                answer->0,
                from.deep_view(),
            ).1) && (old(fs).is_steady() && opts.cancel.is_idle() && is_file(
                old(fs).tree(),
                from.deep_view(),
            ) && is_file(old(fs).tree(), to.deep_view()) ==> (answer matches Some(a)
                ==> goes_through(a))) && (r matches Ok(MoveResult::Moved { .. }) ==> {
                &&& old(fs).is_steady() ==> s.stamped
                &&& s.stamped ==> keeps_time(
                    old(fs).tree(),
                    final(fs).tree(),
                    *cfg,
                    from.deep_view(),
                    to.deep_view(),
                )
            }),
{
    let ghost h0 = fs.history();
    let ghost t0 = fs.tree();
    let ghost j0 = *journal;
    let ghost f = from.deep_view();
    let ghost d = to.deep_view();
    if from.same(to) {
        return Ok(MoveResult::NoOp);
    }
    let source = inspect(fs, cfg, from, &opts.cancel);
    let ghost mut seen = Seen {
        source: source.found(),
        found: Finding { size: None, hash: None },
        modified: None,
        stamped: true,
        undone: true,
        failed: 0,
        made: false,
    };
    let (meta, hash) = match source {
        Source::Fine { meta, hash } => (meta, hash),
        Source::StatFailed(e) => {
            let answer = ReplaceAnswer::Unseen(e);
            let (_, result) = settle_replace(&answer, from);
            proof {
                assert(replace_outcome(t0, t0, j0, j0, f, d, result.deep_view(), answer, 0));
                let p = replacement_path(d, arbitrary());
                assert(replace_traced(h0, fs.history(), *cfg, f, d, p, seen, Some(answer)));
            }
            return Ok(result);
        },
        Source::HashFailed { error, .. } => {
            let answer = ReplaceAnswer::Unhashed(error);
            let (_, result) = settle_replace(&answer, from);
            proof {
                assert(replace_outcome(t0, t0, j0, j0, f, d, result.deep_view(), answer, 0));
                let p = replacement_path(d, arbitrary());
                assert(replace_traced(h0, fs.history(), *cfg, f, d, p, seen, Some(answer)));
            }
            return Ok(result);
        },
    };
    let id = RunId::fresh();
    let temp = sibling_temp(to, id);
    let ghost p = temp.deep_view();
    let ghost hr = fs.history();
    if let Some(parent) = temp.parent() {
        let made = create_dir_retry(fs, &parent);
        proof {
            let errors = choose|errors: Seq<IoErrorView>| #[trigger]
                retried(errors, made) && fs.history() == hr + made_calls(
                    parent.deep_view(),
                    errors.len(),
                    made is Ok,
                );
            seen = Seen { failed: errors.len(), made: made is Ok, ..seen };
        }
    }
    let ghost ta = fs.tree();
    let ghost ready = fs.is_steady();
    proof {
        assert(fs.history() =~= h0 + read_calls(f, seen.source) + room_calls(p, seen));
        lemma_adding_dirs_stays(t0, ta);
    }
    let seq: u64 = match journal.write_intent(JournalOp::Move, Some(from), Some(to)) {
        Ok(s) => s,
        Err(fatal) => {
            proof {
                assert(replace_traced(h0, fs.history(), *cfg, f, d, p, seen, None));
            }
            return Err(fatal);
        },
    };
    let ghost h1 = fs.history();
    let answer = copy_and_replace(fs, cfg, opts, from, to, &temp, &meta, hash.as_ref());
    proof {
        let tried = choose|s: Seen| #[trigger]
            replace_seen(*cfg, f, p, s, answer) && s.source == finding(meta.len, hash.deep_view())
                && s.modified == meta.modified && fs.history() == h1 + replace_calls(
                *cfg,
                f,
                d,
                p,
                s,
                answer,
            ) && (answer == ReplaceAnswer::Checked(Verify::Intact) ==> {
                &&& ready ==> s.stamped
                &&& s.stamped && cfg.moves.preserve_mtime && meta.modified is Some ==> is_file(
                    fs.tree(),
                    d,
                ) && fs.tree()[d]->modified == meta.modified
            });
        let s = Seen { failed: seen.failed, made: seen.made, ..tried };
        assert(replace_calls(*cfg, f, d, p, s, answer) == replace_calls(
            *cfg,
            f,
            d,
            p,
            tried,
            answer,
        ));
        assert(replace_seen(*cfg, f, p, s, answer));
        assert(room_calls(p, s) == room_calls(p, seen));
        assert(replace_traced(h0, fs.history(), *cfg, f, d, p, s, Some(answer)));
    }
    let (closing, result) = settle_replace(&answer, from);
    proof {
        lemma_replacing_after_adding_dirs(t0, ta, fs.tree(), f, d, answer);
    }
    match close_move(journal, seq, from, to, &closing, meta.len, Ghost(j0)) {
        Ok(()) => {},
        Err(fatal) => {
            return Err(fatal);
        },
    }
    proof {
        assert(replace_outcome(
            t0,
            fs.tree(),
            j0,
            *journal,
            f,
            d,
            result.deep_view(),
            answer,
            meta.len,
        ));
    }
    Ok(result)
}

/// A replacement in a tree to which directories were added is one in the tree
/// before.
proof fn lemma_replacing_after_adding_dirs(
    t0: Tree,
    ta: Tree,
    t1: Tree,
    from: PathView,
    to: PathView,
    a: ReplaceAnswer,
)
    requires
        only_adds_dirs(t0, ta),
        t0.dom().contains(from),
        from != to,
        !(a is Unseen) && !(a is Unhashed),
        replace_step(ta, t1, from, to, a),
    ensures
        replace_step(t0, t1, from, to, a),
        stays_beside(t0, t1, from, to),
        survives(t0, t1, from, to),
{
    lemma_adding_dirs_stays(t0, ta);
    assert(ta.dom().contains(from) && ta[from] == t0[from]);
    assert forall|x: PathView| #[trigger] t0.dom().contains(x) implies ta.dom().contains(x) && ta[x]
        == t0[x] by {}
    assert(is_file(t0, from) ==> is_file(ta, from) && bytes(ta, from) == bytes(t0, from));
    if all_stay(ta, t1) {
        assert forall|x: PathView| #[trigger] t0.dom().contains(x) implies t1.dom().contains(x)
            && t1[x] == t0[x] by {
            assert(ta.dom().contains(x));
        }
    }
}

/// Reserves a sibling of the destination, copies into it, verifies the copy
/// and renames it over the destination; then the source is removed. Says how
/// far that has got.
fn copy_and_replace<F: FileSystem>(
    fs: &mut F,
    cfg: &Config,
    opts: &ExecOptions,
    from: &FilePath,
    to: &FilePath,
    temp: &FilePath,
    meta: &FileMeta,
    hash: Option<&String>,
) -> (r: ReplaceAnswer)
    requires
        old(fs).tree().dom().contains(from.deep_view()),
        from.deep_view() != to.deep_view(),
    ensures
        old(fs).is_steady() ==> final(fs).is_steady(),
        !(r is Unseen) && !(r is Unhashed),
        replace_step(old(fs).tree(), final(fs).tree(), from.deep_view(), to.deep_view(), r),
        old(fs).is_steady() && opts.cancel.is_idle() && is_source_of(
            old(fs).tree(),
            from.deep_view(),
            meta.len,
            hash.deep_view(),
        ) && is_file(old(fs).tree(), to.deep_view()) ==> goes_through(r),
        old(fs).is_steady() && opts.cancel.is_idle() ==> !(replace_verdict(
            r,
            from.deep_view(),
        ).1 is Cancelled),
        exists|s: Seen| #[trigger]
            replace_seen(*cfg, from.deep_view(), temp.deep_view(), s, r) && s.source == finding(
                meta.len,
                hash.deep_view(),
            ) && s.modified == meta.modified && final(fs).history() == old(fs).history()
                + replace_calls(
                *cfg,
                from.deep_view(),
                to.deep_view(),
                temp.deep_view(),
                s,
                r,
            ) && (r == ReplaceAnswer::Checked(Verify::Intact) ==> {
                &&& old(fs).is_steady() ==> s.stamped
                &&& s.stamped && cfg.moves.preserve_mtime && meta.modified is Some ==> is_file(
                    final(fs).tree(),
                    to.deep_view(),
                ) && final(fs).tree()[to.deep_view()]->modified == meta.modified
            }),
{
    let ghost h0 = fs.history();
    let ghost mut seen = Seen {
        source: finding(meta.len, hash.deep_view()),
        found: Finding { size: None, hash: None },
        modified: meta.modified,
        stamped: true,
        undone: true,
        failed: 0,
        made: false,
    };
    let ghost t0 = fs.tree();
    let ghost f = from.deep_view();
    let ghost d = to.deep_view();
    let ghost p = temp.deep_view();
    let copied = copy_and_check(fs, cfg, opts, from, temp, meta, hash);
    let ghost t1 = fs.tree();
    let ghost h1 = fs.history();
    proof {
        let found = choose|found: Finding|
            h1 == h0 + #[trigger] copied_calls(f, p, found, copied) && (copied matches Copied::Whole(
                v,
            ) ==> checked_as(found, hashes(*cfg), meta.len, hash.deep_view(), v.deep_view()));
        seen = Seen { found, ..seen };
        if only_adds_dirs(t0, t1) {
            lemma_adding_dirs_stays(t0, t1);
        }
    }
    let verdict = match copied {
        Copied::Whole(v) => v,
        Copied::Refused(e) => {
            proof {
                assert(replace_seen(*cfg, f, p, seen, ReplaceAnswer::Refused(e)));
            }
            return ReplaceAnswer::Refused(e);
        },
        Copied::Broken(e) => {
            let gone = fs.remove_file(temp);
            proof {
                lemma_reserving_stays(t0, t1, p);
                lemma_reserving_stays(t0, t1.remove(p), p);
                seen = Seen { undone: gone is Ok, ..seen };
                let a = ReplaceAnswer::NotCopied(e);
                assert(replace_seen(*cfg, f, p, seen, a));
                assert(fs.history() =~= h0 + replace_calls(*cfg, f, d, p, seen, a));
            }
            return ReplaceAnswer::NotCopied(e);
        },
    };
    proof {
        lemma_reserving_stays(t0, t1, p);
        lemma_reserving_stays(t0, t1.remove(p), p);
        assert(seen.gets(*cfg, verdict.deep_view()));
    }
    match verdict {
        Verify::Intact => {},
        Verify::Cancelled => {
            let gone = fs.remove_file(temp);
            proof {
                seen = Seen { undone: gone is Ok, ..seen };
                let a = ReplaceAnswer::Checked(Verify::Cancelled);
                assert(replace_seen(*cfg, f, p, seen, a));
                assert(fs.history() =~= h0 + replace_calls(*cfg, f, d, p, seen, a));
            }
            return ReplaceAnswer::Checked(Verify::Cancelled);
        },
        Verify::Fail(message) => {
            let gone = fs.remove_file(temp);
            proof {
                seen = Seen { undone: gone is Ok, ..seen };
                let a = ReplaceAnswer::Checked(Verify::Fail(message));
                assert(replace_seen(*cfg, f, p, seen, a));
                assert(fs.history() =~= h0 + replace_calls(*cfg, f, d, p, seen, a));
            }
            return ReplaceAnswer::Checked(Verify::Fail(message));
        },
    }
    if cfg.moves.preserve_mtime {
        if let Some(mtime) = meta.modified {
            let set = fs.set_mtime(temp, mtime);
            proof {
                seen = Seen { stamped: set is Ok, ..seen };
            }
        }
    }
    let ghost t2 = fs.tree();
    proof {
        assert(t2.remove(p) =~= t1.remove(p));
        assert(reserved(t0, t2, p));
        lemma_reserving_stays(t0, t2, p);
        assert(t2.remove(p).remove(p) =~= t2.remove(p));
        lemma_reserving_stays(t0, t2.remove(p), p);
        assert(is_file(t2, p) && bytes(t2, p) == bytes(t0, f));
    }
    match fs.rename_replace(temp, to) {
        Ok(()) => {},
        Err(e) => {
            let gone = fs.remove_file(temp);
            proof {
                seen = Seen { undone: gone is Ok, ..seen };
                let a = ReplaceAnswer::NotPlaced(e);
                assert(replace_seen(*cfg, f, p, seen, a));
                assert(fs.history() =~= h0 + replace_calls(*cfg, f, d, p, seen, a));
            }
            return ReplaceAnswer::NotPlaced(e);
        },
    }
    proof {
        let t3 = fs.tree();
        assert(is_file(t3, d) && bytes(t3, d) == bytes(t0, f));
        assert(stays_beside(t0, t3, d, d)) by {
            assert forall|x: PathView| #[trigger] t0.dom().contains(x) && x != d implies t3.dom().contains(
                x,
            ) && t3[x] == t0[x] by {
                assert(t2.dom().contains(x));
            }
        }
    }
    let r = match fs.remove_file(from) {
        Ok(()) => ReplaceAnswer::Checked(Verify::Intact),
        Err(e) => ReplaceAnswer::Stays(e),
    };
    proof {
        assert(replace_seen(*cfg, f, p, seen, r));
        assert(fs.history() =~= h0 + replace_calls(*cfg, f, d, p, seen, r));
    }
    r
}

/// Whether no move is left without an outcome that was not before.
pub open spec fn leaves_nothing_open(a: Seq<RecordView>, b: Seq<RecordView>) -> bool {
    &&& a.is_prefix_of(b)
    &&& forall|run: RunId, root: PathView|
        nothing_open(a, run, root) ==> #[trigger] nothing_open(b, run, root)
}

/// Whether no move but the given one is left without an outcome that was not
/// before.
pub open spec fn leaves_open_only(
    a: Seq<RecordView>,
    b: Seq<RecordView>,
    from: PathView,
    to: PathView,
) -> bool {
    &&& a.is_prefix_of(b)
    &&& forall|run: RunId, root: PathView, i: int|
        nothing_open(a, run, root) && #[trigger] is_open(b, i, run, root) ==> b[i].from == Some(
            from,
        ) && b[i].to == Some(to)
}

/// A move with its outcome leaves nothing open.
proof fn lemma_closed_leaves_nothing_open<S: JournalStore>(
    j0: Journal<S>,
    j1: Journal<S>,
    from: PathView,
    to: PathView,
    status: Seq<char>,
    bytes: Option<u64>,
    message: Option<Seq<char>>,
)
    requires
        closed_as(j0, j1, from, to, status, bytes, message),
    ensures
        leaves_nothing_open(j0.records(), j1.records()),
{
    let a = j0.records();
    let b = j1.records();
    let e = j0.intent(JournalOp::Move, Some(from), Some(to));
    let o = j0.outcome(j0.next(), JournalOp::Move, Some(from), Some(to), status, bytes, message);
    assert(a =~= b.subrange(0, a.len() as int));
    assert forall|run: RunId, root: PathView|
        nothing_open(a, run, root) implies #[trigger] nothing_open(b, run, root) by {
        lemma_settled_pair_opens_nothing(a, e, o, run, root);
    }
}

/// An intent leaves nothing open but itself.
proof fn lemma_opened_leaves_open_only<S: JournalStore>(
    j0: Journal<S>,
    j1: Journal<S>,
    from: PathView,
    to: PathView,
)
    requires
        opened(j0, j1, from, to),
    ensures
        leaves_open_only(j0.records(), j1.records(), from, to),
{
    let a = j0.records();
    let b = j1.records();
    let e = j0.intent(JournalOp::Move, Some(from), Some(to));
    assert(a =~= b.subrange(0, a.len() as int));
    assert forall|run: RunId, root: PathView, i: int|
        nothing_open(a, run, root) && #[trigger] is_open(b, i, run, root) implies b[i].from
        == Some(from) && b[i].to == Some(to) by {
        lemma_intent_opens_itself(a, e, i, run, root);
    }
}

/// What leaves nothing open, and then again, leaves nothing open.
pub proof fn lemma_open_chain(a: Seq<RecordView>, b: Seq<RecordView>, c: Seq<RecordView>)
    requires
        leaves_nothing_open(a, b),
    ensures
        leaves_nothing_open(b, c) ==> leaves_nothing_open(a, c),
        forall|from: PathView, to: PathView|
            leaves_open_only(b, c, from, to) ==> leaves_open_only(a, c, from, to),
        b.is_prefix_of(c) ==> a.is_prefix_of(c),
{
    if b.is_prefix_of(c) {
        assert(a =~= c.subrange(0, a.len() as int));
    }
    assert forall|from: PathView, to: PathView| leaves_open_only(b, c, from, to) implies #[trigger]
    leaves_open_only(a, c, from, to) by {
        assert forall|run: RunId, root: PathView, i: int|
            nothing_open(a, run, root) && #[trigger] is_open(c, i, run, root) implies c[i].from
            == Some(from) && c[i].to == Some(to) by {
            assert(nothing_open(b, run, root));
        }
    }
    if leaves_nothing_open(b, c) {
        assert forall|run: RunId, root: PathView|
            nothing_open(a, run, root) implies #[trigger] nothing_open(c, run, root) by {
            assert(nothing_open(b, run, root));
        }
    }
}

/// Whether a file may land at a path that it was to be moved to: at that path,
/// or at the next free copy where the policy says so.
pub open spec fn may_land(
    t: Tree,
    cfg: Config,
    v: VolumeSemantics,
    from: PathView,
    to: PathView,
    dest: PathView,
) -> bool {
    dest == to || cfg.conflict.policy == ConflictPolicy::RenameNew && is_next_copy(
        t,
        v,
        from,
        to,
        dest,
    )
}

/// Whether a file has landed at a path that it was to be moved to.
pub open spec fn landed_near(
    t0: Tree,
    t1: Tree,
    cfg: Config,
    v: VolumeSemantics,
    from: PathView,
    to: PathView,
) -> bool {
    exists|dest: PathView| #[trigger]
        landed(t0, t1, from, dest) && may_land(t0, cfg, v, from, to, dest)
}

/// Whether a file has taken the place of what stood at its destination.
pub open spec fn replaced(t0: Tree, t1: Tree, from: PathView, to: PathView) -> bool {
    &&& is_file(t0, from)
    &&& is_file(t1, to)
    &&& bytes(t1, to) == bytes(t0, from)
    &&& !t1.dom().contains(from)
    &&& stays_beside(t0, t1, from, to)
}

/// Whether a cancelled move can be cleaned up after: everything stands where
/// it stood and the journal is settled, or the one intent without an outcome is
/// of a move whose source is gone, or whose destination is new.
pub open spec fn cancelled_safely(
    t0: Tree,
    t1: Tree,
    a: Seq<RecordView>,
    b: Seq<RecordView>,
    from: PathView,
) -> bool {
    ||| leaves_nothing_open(a, b) && all_stay(t0, t1)
    ||| exists|dest: PathView| #[trigger]
        leaves_open_only(a, b, from, dest) && (!t1.dom().contains(from) || all_stay(
            t0,
            t1.remove(dest),
        ))
}

/// What may come of one move of a plan.
pub open spec fn one_result<S: JournalStore>(
    t0: Tree,
    t1: Tree,
    j0: Journal<S>,
    j1: Journal<S>,
    cfg: Config,
    v: VolumeSemantics,
    replacing: bool,
    from: PathView,
    to: PathView,
    r: Result<MoveResultView, FatalReason>,
) -> bool {
    let policy = cfg.conflict.policy;
    let a = j0.records();
    let b = j1.records();
    &&& j1.same_binding(&j0)
    &&& a.is_prefix_of(b)
    &&& !replacing ==> keeps_files(t0, t1) && others_stay(t0, t1, from)
    &&& replacing ==> survives(t0, t1, from, to) && forall|q: PathView| #[trigger]
        t0.dom().contains(q) && !q.starts_with(from) && q != to ==> t1.dom().contains(q) && t1[q]
            == t0[q]
    &&& match r {
        Err(f) => unwritable(f, j0, j1) && (only_adds_dirs(t0, t1) || has_begun(j0, j1)),
        Ok(MoveResultView::Moved { source_dir }) => {
            &&& source_dir == from.parent()
            &&& leaves_nothing_open(a, b)
            &&& landed_near(t0, t1, cfg, v, from, to) || replacing && replaced(t0, t1, from, to)
        },
        Ok(MoveResultView::Skipped) => {
            &&& t1 == t0
            &&& untouched(j0, j1)
            &&& t0.dom().contains(to)
            &&& policy == ConflictPolicy::Skip || policy == ConflictPolicy::SkipIfIdentical
        },
        Ok(MoveResultView::NoOp) => {
            &&& t1 == t0
            &&& untouched(j0, j1)
            &&& t0.dom().contains(from)
        },
        Ok(MoveResultView::Conflicted) => only_adds_dirs(t0, t1) && leaves_nothing_open(a, b),
        Ok(MoveResultView::Failed { .. }) => {
            &&& leaves_nothing_open(a, b)
            &&& !replacing ==> all_stay(t0, t1) || landed_near(t0, t1, cfg, v, from, to)
        },
        Ok(MoveResultView::Cancelled) => cancelled_safely(t0, t1, a, b, from),
    }
}

/// Whether a failure is that source and destination are on different devices.
pub open spec fn failed_across_devices(r: MoveResultView) -> bool {
    r matches MoveResultView::Failed { message, io_kind } && (text::find_from(
        message,
        "cross-device"@,
        0,
    ) >= 0 || io_kind == Some("CrossesDevices"@))
}

/// Whether a failure is that source and destination are on different devices.
pub fn is_cross_device_failure(r: &MoveResult) -> (b: bool)
    ensures
        b == failed_across_devices(r.deep_view()),
{
    match r {
        MoveResult::Failed { message, io_kind } => {
            let by_kind = match io_kind {
                Some(k) => text::same_text(k, "CrossesDevices"),
                None => false,
            };
            by_kind || text::find_text(
                &text::to_chars(message),
                &text::to_chars("cross-device"),
            ).is_some()
        },
        _ => false,
    }
}

/// What comes of a rename in a tree to which directories were added is what
/// may come of a move.
proof fn lemma_native_is_one<S: JournalStore>(
    t0: Tree,
    ta: Tree,
    t1: Tree,
    j0: Journal<S>,
    j1: Journal<S>,
    cfg: Config,
    v: VolumeSemantics,
    replacing: bool,
    from: PathView,
    to: PathView,
    dest: PathView,
    r: Result<MoveResultView, FatalReason>,
)
    requires
        only_adds_dirs(t0, ta),
        t0.dom().contains(from),
        native_result(ta, t1, j0, j1, from, dest, r),
        may_land(t0, cfg, v, from, to, dest),
        replacing ==> dest == to,
    ensures
        one_result(t0, t1, j0, j1, cfg, v, replacing, from, to, r),
        r is Ok ==> (t1 == ta || landed(ta, t1, from, dest)),
{
    lemma_adding_dirs_stays(t0, ta);
    lemma_keeping_is_transitive(t0, ta, t1);
    assert(others_stay(t0, t1, from)) by {
        assert forall|q: PathView| #[trigger]
            t0.dom().contains(q) && !q.starts_with(from) implies t1.dom().contains(q) && t1[q]
            == t0[q] by {
            assert(ta.dom().contains(q));
        }
    }
    if landed(ta, t1, from, dest) {
        lemma_landing_after_adding_dirs(t0, ta, t1, from, dest);
    }
    match r {
        Ok(MoveResultView::Moved { .. }) => {
            let len = choose|len: u64| #[trigger]
                closed_as(j0, j1, from, dest, "SUCCESS"@, Some(len), None) && (is_file(ta, from)
                    ==> len == bytes(ta, from).len());
            lemma_closed_leaves_nothing_open(j0, j1, from, dest, "SUCCESS"@, Some(len), None);
        },
        Ok(MoveResultView::Conflicted) => {
            lemma_closed_leaves_nothing_open(
                j0,
                j1,
                from,
                dest,
                "FAIL"@,
                None,
                Some("occupied"@),
            );
        },
        Ok(MoveResultView::Failed { message, .. }) => {
            if !untouched(j0, j1) {
                let why = if failed(j0, j1, from, dest) {
                    choose|why: Seq<char>| failed_with(j0, j1, from, dest, why)
                } else {
                    message
                };
                lemma_closed_leaves_nothing_open(j0, j1, from, dest, "FAIL"@, None, Some(why));
            }
        },
        Ok(MoveResultView::Cancelled) => {
            if !untouched(j0, j1) {
                lemma_opened_leaves_open_only(j0, j1, from, dest);
            }
        },
        _ => {},
    }
}

/// What comes of a copy in a tree to which directories were added is what may
/// come of a move.
proof fn lemma_reserve_is_one<S: JournalStore>(
    t0: Tree,
    ta: Tree,
    t1: Tree,
    j0: Journal<S>,
    j1: Journal<S>,
    cfg: Config,
    v: VolumeSemantics,
    replacing: bool,
    from: PathView,
    to: PathView,
    dest: PathView,
    r: Result<MoveResultView, FatalReason>,
)
    requires
        only_adds_dirs(t0, ta),
        t0.dom().contains(from),
        reserve_result(ta, t1, j0, j1, from, dest, r),
        may_land(t0, cfg, v, from, to, dest),
        replacing ==> dest == to,
    ensures
        one_result(t0, t1, j0, j1, cfg, v, replacing, from, to, r),
{
    lemma_adding_dirs_stays(t0, ta);
    lemma_keeping_is_transitive(t0, ta, t1);
    assert(others_stay(t0, t1, from)) by {
        assert forall|q: PathView| #[trigger]
            t0.dom().contains(q) && !q.starts_with(from) implies t1.dom().contains(q) && t1[q]
            == t0[q] by {
            assert(ta.dom().contains(q));
        }
    }
    if landed(ta, t1, from, dest) {
        lemma_landing_after_adding_dirs(t0, ta, t1, from, dest);
    }
    if only_adds_dirs(ta, t1) {
        lemma_adding_dirs_is_transitive(t0, ta, t1);
        lemma_adding_dirs_stays(t0, t1);
    }
    if reserved(ta, t1, dest) {
        lemma_adding_dirs_is_transitive(t0, ta, t1.remove(dest));
        lemma_reserving_stays(t0, t1, dest);
    }
    if all_stay(ta, t1) {
        assert(all_stay(t0, t1)) by {
            assert forall|q: PathView| #[trigger] t0.dom().contains(q) implies t1.dom().contains(q)
                && t1[q] == t0[q] by {
                assert(ta.dom().contains(q));
            }
        }
    }
    match r {
        Ok(MoveResultView::Moved { .. }) => {
            let len = choose|len: u64| #[trigger]
                closed_as(j0, j1, from, dest, "SUCCESS"@, Some(len), None) && (is_file(ta, from)
                    ==> len == bytes(ta, from).len());
            lemma_closed_leaves_nothing_open(j0, j1, from, dest, "SUCCESS"@, Some(len), None);
        },
        Ok(MoveResultView::Conflicted) => {
            lemma_closed_leaves_nothing_open(
                j0,
                j1,
                from,
                dest,
                "FAIL"@,
                None,
                Some("occupied"@),
            );
        },
        Ok(MoveResultView::Failed { .. }) => {
            if failed(j0, j1, from, dest) {
                let why = choose|why: Seq<char>| failed_with(j0, j1, from, dest, why);
                lemma_closed_leaves_nothing_open(j0, j1, from, dest, "FAIL"@, None, Some(why));
            }
        },
        Ok(MoveResultView::Cancelled) => {
            if opened(j0, j1, from, dest) {
                lemma_opened_leaves_open_only(j0, j1, from, dest);
            }
        },
        _ => {},
    }
}

/// What is done about a file whose source is there.
#[derive(Debug, Clone, PartialEq)]
pub enum MoveStep {
    /// Nothing more: this is the result.
    Stop(MoveResult),
    /// It takes the place of the destination.
    Replace,
    /// It moves to a path.
    Go(FilePath),
}

/// The contents of a [`MoveStep`].
#[verifier::ext_equal]
pub enum MoveStepView {
    Stop(MoveResultView),
    Replace,
    Go(PathView),
}

impl DeepView for MoveStep {
    type V = MoveStepView;

    open spec fn deep_view(&self) -> MoveStepView {
        match *self {
            MoveStep::Stop(r) => MoveStepView::Stop(r.deep_view()),
            MoveStep::Replace => MoveStepView::Replace,
            MoveStep::Go(p) => MoveStepView::Go(p.deep_view()),
        }
    }
}

/// What is done about a file, given what was decided about its destination
/// where that is taken.
pub open spec fn step_after(
    taken: Option<DecisionView>,
    from: PathView,
    to: PathView,
    v: VolumeSemantics,
    allow_replace: bool,
) -> MoveStepView {
    match taken {
        None => MoveStepView::Go(to),
        Some(DecisionView::Move { to: next }) => if same_place(from, next, v) {
            MoveStepView::Stop(MoveResultView::NoOp)
        } else {
            MoveStepView::Go(next)
        },
        Some(DecisionView::Skip { .. }) => MoveStepView::Stop(MoveResultView::Skipped),
        Some(DecisionView::Conflict { .. }) => MoveStepView::Stop(MoveResultView::Conflicted),
        Some(DecisionView::Replace) => if !allow_replace {
            MoveStepView::Stop(MoveResultView::Conflicted)
        } else if same_place(from, to, v) {
            MoveStepView::Stop(MoveResultView::NoOp)
        } else {
            MoveStepView::Replace
        },
    }
}

/// What is done about a file, given what was decided about its destination
/// where that is taken.
pub fn next_step(
    taken: Option<OccupiedDecision>,
    from: &FilePath,
    to: &FilePath,
    volume: &VolumeSemantics,
    allow_replace: bool,
) -> (r: MoveStep)
    ensures
        r.deep_view() == step_after(
            taken.deep_view(),
            from.deep_view(),
            to.deep_view(),
            *volume,
            allow_replace,
        ),
{
    match taken {
        None => MoveStep::Go(to.duplicate()),
        Some(OccupiedDecision::Move { to: next }) => if same_path(from, &next, volume) {
            MoveStep::Stop(MoveResult::NoOp)
        } else {
            MoveStep::Go(next)
        },
        Some(OccupiedDecision::Skip { .. }) => MoveStep::Stop(MoveResult::Skipped),
        Some(OccupiedDecision::Conflict { .. }) => MoveStep::Stop(MoveResult::Conflicted),
        Some(OccupiedDecision::Replace) => if !allow_replace {
            MoveStep::Stop(MoveResult::Conflicted)
        } else if same_path(from, to, volume) {
            MoveStep::Stop(MoveResult::NoOp)
        } else {
            MoveStep::Replace
        },
    }
}

/// How a move went, and what was found out on the way. What is found of a
/// destination that is taken decides the step that follows.
pub enum Course<S: JournalStore> {
    /// The run was cancelled before.
    Cancelled,
    /// There was no source.
    NoSource,
    /// It was decided to do nothing.
    Stopped { taken: Option<Option<Look>> },
    /// The file was to replace the destination.
    Replaced { taken: Option<Option<Look>>, a: ReplaceAnswer, len: u64 },
    /// It was to be renamed, once directories were there.
    Renamed {
        taken: Option<Option<Look>>,
        advice: NoReplaceStrategy,
        mid: Tree,
        a: NativeAnswer,
        len: u64,
    },
    /// It was to be copied, once directories were there.
    Copied {
        taken: Option<Option<Look>>,
        advice: NoReplaceStrategy,
        mid: Tree,
        a: ReserveAnswer,
        len: u64,
    },
    /// It was to be renamed, which cannot be done across devices, and so was to
    /// be copied.
    Carried {
        taken: Option<Option<Look>>,
        advice: NoReplaceStrategy,
        mid: Tree,
        refused: NativeAnswer,
        size: u64,
        after: Tree,
        journal: Journal<S>,
        a: ReserveAnswer,
        len: u64,
    },
}

impl<S: JournalStore> Course<S> {
    /// The strategy that the file system said the volume calls for, where it
    /// was followed or overruled.
    pub open spec fn advice(self) -> Option<NoReplaceStrategy> {
        match self {
            Course::Renamed { advice, .. } => Some(advice),
            Course::Copied { advice, .. } => Some(advice),
            Course::Carried { advice, .. } => Some(advice),
            _ => None,
        }
    }
}

/// Whether a file system, asked about a path, said that a strategy is called
/// for.
pub open spec fn advised(
    h0: Seq<Call>,
    h1: Seq<Call>,
    p: PathView,
    strategy: NoReplaceStrategy,
) -> bool {
    exists|k: int|
        h0.len() <= k < h1.len() && #[trigger] h1[k] == (Call::Advise { path: p, strategy })
}

/// What is done about a file, given what was found of a destination that is
/// taken.
pub open spec fn step_of(
    cfg: Config,
    v: VolumeSemantics,
    allow_replace: bool,
    from: PathView,
    to: PathView,
    taken: Option<Option<Look>>,
) -> MoveStepView {
    step_after(
        match taken {
            Some(look) => Some(decided(cfg.conflict.policy, to, look)),
            None => None,
        },
        from,
        to,
        v,
        allow_replace,
    )
}

/// Whether what was found of a destination that is taken is so.
pub open spec fn found_so(
    t: Tree,
    cfg: Config,
    v: VolumeSemantics,
    from: PathView,
    to: PathView,
    taken: Option<Option<Look>>,
    on: Footing,
) -> bool {
    &&& on.steady ==> taken is Some == t.dom().contains(to)
    &&& taken matches Some(look) ==> t.dom().contains(to) && looks(t, cfg, v, from, to, look, on)
}

/// Whether a move went in a course: the tree and the journal before it and
/// after it, and its result.
pub open spec fn went<S: JournalStore>(
    t0: Tree,
    t1: Tree,
    j0: Journal<S>,
    j1: Journal<S>,
    cfg: Config,
    v: VolumeSemantics,
    allow_replace: bool,
    from: PathView,
    to: PathView,
    r: MoveResultView,
    c: Course<S>,
    on: Footing,
) -> bool {
    match c {
        Course::Cancelled => {
            &&& !on.idle
            &&& t1 == t0
            &&& j1 == j0
            &&& r == MoveResultView::Cancelled
        },
        Course::NoSource => {
            &&& on.steady ==> !t0.dom().contains(from)
            &&& t1 == t0
            &&& j1 == j0
            &&& r == (MoveResultView::Failed { message: "source missing"@, io_kind: None })
        },
        Course::Stopped { taken } => {
            &&& found_so(t0, cfg, v, from, to, taken, on)
            &&& step_of(cfg, v, allow_replace, from, to, taken) == MoveStepView::Stop(r)
            &&& t1 == t0
            &&& j1 == j0
        },
        Course::Replaced { taken, a, len } => {
            &&& found_so(t0, cfg, v, from, to, taken, on)
            &&& step_of(cfg, v, allow_replace, from, to, taken) == MoveStepView::Replace
            &&& replace_outcome(t0, t1, j0, j1, from, to, r, a, len)
        },
        Course::Renamed { taken, advice, mid, a, len } => {
            &&& found_so(t0, cfg, v, from, to, taken, on)
            &&& cfg.moves.no_replace_strategy.resolved(advice) != NoReplaceStrategy::Reserve
            &&& step_of(cfg, v, allow_replace, from, to, taken) matches MoveStepView::Go(d)
            &&& only_adds_dirs(t0, mid)
            &&& native_outcome(mid, t1, j0, j1, from, d, r, a, len)
            &&& !failed_across_devices(r)
        },
        Course::Copied { taken, advice, mid, a, len } => {
            &&& found_so(t0, cfg, v, from, to, taken, on)
            &&& cfg.moves.no_replace_strategy.resolved(advice) == NoReplaceStrategy::Reserve
            &&& step_of(cfg, v, allow_replace, from, to, taken) matches MoveStepView::Go(d)
            &&& only_adds_dirs(t0, mid)
            &&& reserve_outcome(mid, t1, j0, j1, from, d, r, a, len)
        },
        Course::Carried { taken, advice, mid, refused, size, after, journal, a, len } => {
            &&& found_so(t0, cfg, v, from, to, taken, on)
            &&& cfg.moves.no_replace_strategy.resolved(advice) != NoReplaceStrategy::Reserve
            &&& step_of(cfg, v, allow_replace, from, to, taken) matches MoveStepView::Go(d)
            &&& only_adds_dirs(t0, mid)
            &&& native_outcome(
                mid,
                after,
                j0,
                journal,
                from,
                d,
                native_verdict(refused, from).1,
                refused,
                size,
            )
            &&& failed_across_devices(native_verdict(refused, from).1)
            &&& reserve_outcome(after, t1, journal, j1, from, d, r, a, len)
        },
    }
}

/// Whether records end with the intent of a move and that it succeeded.
pub open spec fn tells_of_move(
    records: Seq<RecordView>,
    from: PathView,
    dest: PathView,
    len: u64,
) -> bool {
    let n = records.len() as int;
    let (i, o) = (records[n - 2], records[n - 1]);
    &&& n >= 2
    &&& i.phase == JournalPhase::Intent
    &&& i.op == JournalOp::Move
    &&& i.from == Some(from)
    &&& i.to == Some(dest)
    &&& o == (RecordView {
        phase: JournalPhase::Outcome,
        status: Some("SUCCESS"@),
        bytes: Some(len),
        message: None,
        ..i
    })
}

/// A move keeps what the journal holds and writes to the same store.
proof fn lemma_move_keeps_journal<S: JournalStore>(
    t0: Tree,
    t1: Tree,
    j0: Journal<S>,
    j1: Journal<S>,
    cfg: Config,
    v: VolumeSemantics,
    allow_replace: bool,
    from: PathView,
    to: PathView,
    r: MoveResultView,
    c: Course<S>,
    on: Footing,
)
    requires
        went(t0, t1, j0, j1, cfg, v, allow_replace, from, to, r, c, on),
    ensures
        j1.same_binding(&j0),
        j0.records().is_prefix_of(j1.records()),
{
    let n = j0.records().len() as int;
    assert(j0.records() =~= j0.records().subrange(0, n));
    assert(j0.records() =~= j1.records().subrange(0, n));
}

/// A move that succeeded is journaled: the store of the journal has taken, in
/// the end, its intent and that it succeeded, each with its time. What it had
/// taken before the move it still holds.
pub proof fn law_move_is_journaled<S: JournalStore>(
    t0: Tree,
    t1: Tree,
    j0: Journal<S>,
    j1: Journal<S>,
    cfg: Config,
    v: VolumeSemantics,
    allow_replace: bool,
    from: PathView,
    to: PathView,
    r: MoveResultView,
    c: Course<S>,
    on: Footing,
)
    requires
        j0.is_synced(),
        went(t0, t1, j0, j1, cfg, v, allow_replace, from, to, r, c, on),
        r is Moved,
    ensures
        exists|news: Seq<RecordView>, dest: PathView, len: u64| #[trigger]
            tells_of_move(news, from, dest, len) && said(j1.written()) == said(j0.written())
                + news,
        forall|k: int|
            j0.written().len() <= k < j1.written().len() ==> is_time(
                (#[trigger] j1.written()[k]).ts,
            ),
{
    lemma_move_keeps_journal(t0, t1, j0, j1, cfg, v, allow_replace, from, to, r, c, on);
    law_store_follows_journal(j0, j1);
    let news = j1.records().skip(j0.records().len() as int);
    match c {
        Course::Replaced { len, .. } => {
            assert(tells_of_move(news, from, to, len));
        },
        Course::Renamed { taken, len, .. } => {
            let d = step_of(cfg, v, allow_replace, from, to, taken)->Go_0;
            assert(tells_of_move(news, from, d, len));
        },
        Course::Copied { taken, len, .. } => {
            let d = step_of(cfg, v, allow_replace, from, to, taken)->Go_0;
            assert(tells_of_move(news, from, d, len));
        },
        Course::Carried { taken, len, .. } => {
            let d = step_of(cfg, v, allow_replace, from, to, taken)->Go_0;
            assert(tells_of_move(news, from, d, len));
        },
        _ => {},
    }
}

/// A move changes nothing unrecorded.
pub proof fn lemma_move_is_recorded<S: JournalStore>(
    t0: Tree,
    t1: Tree,
    j0: Journal<S>,
    j1: Journal<S>,
    cfg: Config,
    v: VolumeSemantics,
    allow_replace: bool,
    from: PathView,
    to: PathView,
    r: Result<MoveResultView, FatalReason>,
    c: Course<S>,
    on: Footing,
)
    requires
        one_result(
            t0,
            t1,
            j0,
            j1,
            cfg,
            v,
            allow_replace && cfg.conflict.policy == ConflictPolicy::Replace,
            from,
            to,
            r,
        ),
        r matches Ok(m) ==> went(t0, t1, j0, j1, cfg, v, allow_replace, from, to, m, c, on),
    ensures
        records_changes(t0, t1, j0, j1),
{
    assert(only_adds_dirs(t0, t0));
}

/// Nothing moves unrecorded: where the store of the journal has taken nothing
/// since before a move, nothing has changed but for new directories. So it is
/// too where the journal could not be written.
pub proof fn law_nothing_moves_unrecorded<S: JournalStore>(
    t0: Tree,
    t1: Tree,
    j0: Journal<S>,
    j1: Journal<S>,
    cfg: Config,
    v: VolumeSemantics,
    allow_replace: bool,
    from: PathView,
    to: PathView,
    r: Result<MoveResultView, FatalReason>,
    c: Course<S>,
    on: Footing,
)
    requires
        j0.is_synced(),
        one_result(
            t0,
            t1,
            j0,
            j1,
            cfg,
            v,
            allow_replace && cfg.conflict.policy == ConflictPolicy::Replace,
            from,
            to,
            r,
        ),
        r matches Ok(m) ==> went(t0, t1, j0, j1, cfg, v, allow_replace, from, to, m, c, on),
        j1.written() == j0.written(),
    ensures
        only_adds_dirs(t0, t1),
{
    law_store_follows_journal(j0, j1);
    let news = j1.records().skip(j0.records().len() as int);
    assert((said(j0.written()) + news).len() == said(j0.written()).len() + news.len());
    lemma_move_is_recorded(t0, t1, j0, j1, cfg, v, allow_replace, from, to, r, c, on);
}

/// Moves one file of a plan.
#[verifier::rlimit(60)]
pub fn move_one<F: FileSystem, S: JournalStore>(
    fs: &mut F,
    plan: &Plan,
    cfg: &Config,
    opts: &ExecOptions,
    journal: &mut Journal<S>,
    from: &FilePath,
    to: &FilePath,
) -> (r: Result<MoveResult, FatalReason>)
    ensures
        old(fs).is_steady() ==> final(fs).is_steady(),
        one_result(
            old(fs).tree(),
            final(fs).tree(),
            *old(journal),
            *final(journal),
            *cfg,
            plan.volume,
            opts.allow_replace && cfg.conflict.policy == ConflictPolicy::Replace,
            from.deep_view(),
            to.deep_view(),
            result_view(r),
        ),
        r matches Ok(m) ==> exists|c: Course<S>| #[trigger]
            went(
                old(fs).tree(),
                final(fs).tree(),
                *old(journal),
                *final(journal),
                *cfg,
                plan.volume,
                opts.allow_replace,
                from.deep_view(),
                to.deep_view(),
                m.deep_view(),
                c,
                (Footing { steady: old(fs).is_steady(), idle: opts.cancel.is_idle() }),
            ) && (c.advice() matches Some(advice) ==> advised(
                old(fs).history(),
                final(fs).history(),
                plan.root.deep_view(),
                advice,
            )),
        // On a steady file system a file is moved to where nothing stands in the
        // way, unless the journal cannot be written.
        old(fs).is_steady() && opts.cancel.is_idle() && is_file(old(fs).tree(), from.deep_view())
            && can_create(old(fs).tree(), to.deep_view()) && !to.deep_view().starts_with(
            from.deep_view(),
        ) ==> (r matches Ok(m) ==> m is Moved),
        // Nothing is broken off that nobody can cancel.
        old(fs).is_steady() && opts.cancel.is_idle() ==> (r matches Ok(m) ==> !(m is Cancelled)),
        // The source is removed only once it has been carried somewhere and
        // found to be intact there, and a move that succeeds has done that.
        goes_on(old(fs).history(), final(fs).history()),
        removes_arrived(
            final(fs).history(),
            old(fs).history().len() as int,
            from.deep_view(),
            hashes(*cfg),
        ),
        r matches Ok(MoveResult::Moved { .. }) ==> arrived(
            final(fs).history(),
            old(fs).history().len() as int,
            final(fs).history().len() as int,
            from.deep_view(),
            hashes(*cfg),
        ),
        // Once the run is cancelled, nothing is done.
        opts.cancel.is_spent() ==> {
            &&& r matches Ok(m) && m is Cancelled
            &&& final(fs).tree() == old(fs).tree()
            &&& final(fs).history() == old(fs).history()
            &&& *final(journal) == *old(journal)
        },
{
    let ghost h0 = fs.history();
    let ghost hashing = hashes(*cfg);
    let ghost t0 = fs.tree();
    let ghost j0 = *journal;
    let ghost f = from.deep_view();
    let ghost allow = opts.allow_replace;
    let ghost goal = to.deep_view();
    let ghost vol = plan.volume;
    let ghost on = Footing { steady: fs.is_steady(), idle: opts.cancel.is_idle() };
    let ghost replacing = opts.allow_replace && cfg.conflict.policy == ConflictPolicy::Replace;
    proof {
        lemma_staying_keeps_files(t0, t0);
        assert(j0.records() =~= j0.records().subrange(0, j0.records().len() as int));
        assert(only_adds_dirs(t0, t0));
    }
    if opts.cancel.is_cancelled() {
        proof {
            let c = Course::<S>::Cancelled;
            assert(went(t0, t0, j0, j0, *cfg, vol, allow, f, goal, MoveResultView::Cancelled, c, on));
        }
        return Ok(MoveResult::Cancelled);
    }
    match fs.metadata(from) {
        Ok(_) => {},
        Err(_) => {
            let result = fail("source missing");
            proof {
                let c = Course::<S>::NoSource;
                assert(went(t0, t0, j0, j0, *cfg, vol, allow, f, goal, result.deep_view(), c, on));
            }
            return Ok(result);
        },
    }
    let ghost asked = fs.history().len() as int;
    let advice = fs.no_replace_strategy(&plan.root);
    let strategy = cfg.moves.no_replace_strategy.resolve(advice);
    let ghost mut now = on;
    let taken = match fs.metadata(to) {
        Ok(_) => {
            proof {
                now = Footing { steady: fs.is_steady(), ..on };
            }
            Some(decide_occupied(fs, cfg, &plan.volume, from, to, &opts.cancel))
        },
        Err(_) => None,
    };
    let ghost found: Option<Option<Look>> = if taken is Some {
        Some(
            choose|look: Option<Look>| #[trigger]
                looks(t0, *cfg, vol, f, goal, look, now) && taken->0.deep_view() == decided(
                    cfg.conflict.policy,
                    goal,
                    look,
                ),
        )
    } else {
        None
    };
    proof {
        lemma_asking_removes_nothing(h0, fs.history(), f, hashing);
        assert(goal.parts.take(goal.parts.len() as int) =~= goal.parts);
        assert(goal.starts_with(goal));
        if taken is Some {
            assert(looks(t0, *cfg, vol, f, goal, found->0, now));
        }
        assert(found_so(t0, *cfg, vol, f, goal, found, on));
    }
    let ghost hm = fs.history();
    let dest = match next_step(taken, from, to, &plan.volume, opts.allow_replace) {
        MoveStep::Stop(result) => {
            proof {
                let c = Course::<S>::Stopped { taken: found };
                assert(went(t0, t0, j0, j0, *cfg, vol, allow, f, goal, result.deep_view(), c, on));
            }
            return Ok(result);
        },
        MoveStep::Replace => {
            let r = move_replace(fs, cfg, opts, journal, from, to);
            proof {
                lemma_replaced_arrives(h0, hm, fs.history(), *cfg, f, goal, r);
                if r is Ok {
                    let m = r->Ok_0.deep_view();
                    let (a, len) = choose|a: ReplaceAnswer, len: u64| #[trigger]
                        replace_outcome(
                            t0,
                            fs.tree(),
                            j0,
                            *journal,
                            f,
                            goal,
                            m,
                            a,
                            len,
                        );
                    let c = Course::<S>::Replaced { taken: found, a, len };
                    assert(went(
                        t0,
                        fs.tree(),
                        j0,
                        *journal,
                        *cfg,
                        vol,
                        allow,
                        f,
                        goal,
                        m,
                        c,
                        on,
                    ));
                }
                lemma_replace_is_one(
                    t0,
                    fs.tree(),
                    j0,
                    *journal,
                    *cfg,
                    plan.volume,
                    f,
                    to.deep_view(),
                    result_view(r),
                );
            }
            return r;
        },
        MoveStep::Go(next) => next,
    };
    if let Some(parent) = dest.parent() {
        let made = create_dir_retry(fs, &parent);
        proof {
            lemma_making_room(t0, fs.tree(), dest.deep_view());
            assert(removes_arrived(fs.history(), h0.len() as int, f, hashing) && goes_on(
                h0,
                fs.history(),
            )) by {
                let errors = choose|errors: Seq<IoErrorView>| #[trigger]
                    retried(errors, made) && fs.history() == hm + made_calls(
                        parent.deep_view(),
                        errors.len(),
                        made is Ok,
                    );
                lemma_nothing_removed(h0, hm, fs.history(), f, hashing);
            }
        }
    }
    let ghost hn = fs.history();
    let r = carry(
        fs,
        plan,
        cfg,
        opts,
        journal,
        from,
        to,
        &dest,
        strategy,
        Ghost(advice),
        Ghost(t0),
        Ghost(found),
        Ghost(on),
    );
    proof {
        let h1 = fs.history();
        lemma_asking_before(h0, hn, h1, f, hashing);
        assert(h1[asked] == (Call::Advise { path: plan.root.deep_view(), strategy: advice }));
        if r matches Ok(MoveResult::Moved { .. }) {
            let (a, b) = (hn.len() as int, h1.len() as int);
            lemma_arrived_stays(h1, a, b, h1, h0.len() as int, b, f, hashing);
        }
    }
    r
}

/// Carries a file to a destination: by a copy, or by a rename and, where that
/// crosses devices, by a copy.
#[verifier::rlimit(60)]
fn carry<F: FileSystem, S: JournalStore>(
    fs: &mut F,
    plan: &Plan,
    cfg: &Config,
    opts: &ExecOptions,
    journal: &mut Journal<S>,
    from: &FilePath,
    to: &FilePath,
    dest: &FilePath,
    strategy: NoReplaceStrategy,
    advice: Ghost<NoReplaceStrategy>,
    start: Ghost<Tree>,
    taken: Ghost<Option<Option<Look>>>,
    footing: Ghost<Footing>,
) -> (r: Result<MoveResult, FatalReason>)
    requires
        only_adds_dirs(start@, old(fs).tree()),
        start@.dom().contains(from.deep_view()),
        found_so(
            start@,
            *cfg,
            plan.volume,
            from.deep_view(),
            to.deep_view(),
            taken@,
            footing@,
        ),
        step_of(
            *cfg,
            plan.volume,
            opts.allow_replace,
            from.deep_view(),
            to.deep_view(),
            taken@,
        ) == MoveStepView::Go(dest.deep_view()),
        may_land(
            start@,
            *cfg,
            plan.volume,
            from.deep_view(),
            to.deep_view(),
            dest.deep_view(),
        ),
        opts.allow_replace && cfg.conflict.policy == ConflictPolicy::Replace ==> dest.deep_view()
            == to.deep_view(),
        strategy == cfg.moves.no_replace_strategy.resolved(advice@),
    ensures
        old(fs).is_steady() ==> final(fs).is_steady(),
        one_result(
            start@,
            final(fs).tree(),
            *old(journal),
            *final(journal),
            *cfg,
            plan.volume,
            opts.allow_replace && cfg.conflict.policy == ConflictPolicy::Replace,
            from.deep_view(),
            to.deep_view(),
            result_view(r),
        ),
        r matches Ok(m) ==> exists|c: Course<S>| #[trigger]
            went(
                start@,
                final(fs).tree(),
                *old(journal),
                *final(journal),
                *cfg,
                plan.volume,
                opts.allow_replace,
                from.deep_view(),
                to.deep_view(),
                m.deep_view(),
                c,
                footing@,
            ) && c.advice() == Some(advice@),
        old(fs).is_steady() && opts.cancel.is_idle() && is_file(old(fs).tree(), from.deep_view())
            && can_create(old(fs).tree(), dest.deep_view()) && !dest.deep_view().starts_with(
            from.deep_view(),
        ) ==> (r matches Ok(m) ==> m is Moved),
        old(fs).is_steady() && opts.cancel.is_idle() ==> (r matches Ok(m) ==> !(m is Cancelled)),
        goes_on(old(fs).history(), final(fs).history()),
        removes_arrived(
            final(fs).history(),
            old(fs).history().len() as int,
            from.deep_view(),
            hashes(*cfg),
        ),
        r matches Ok(MoveResult::Moved { .. }) ==> arrived(
            final(fs).history(),
            old(fs).history().len() as int,
            final(fs).history().len() as int,
            from.deep_view(),
            hashes(*cfg),
        ),
{
    let ghost t0 = start@;
    let ghost found = taken@;
    let ghost on = footing@;
    let ghost j0 = *journal;
    let ghost hm = fs.history();
    let ghost h0 = hm;
    let ghost f = from.deep_view();
    let ghost allow = opts.allow_replace;
    let ghost goal = to.deep_view();
    let ghost vol = plan.volume;
    let ghost replacing = opts.allow_replace && cfg.conflict.policy == ConflictPolicy::Replace;
    let ghost ta = fs.tree();
    let ghost d = dest.deep_view();
    proof {
        assert(removes_arrived(hm, hm.len() as int, f, hashes(*cfg)));
    }
    if strategy == NoReplaceStrategy::Reserve {
        let r = move_reserve(fs, cfg, opts, journal, from, dest);
        proof {
            lemma_copied_arrives(h0, hm, fs.history(), *cfg, f, d, r);
            if r is Ok {
                let m = r->Ok_0.deep_view();
                let (a, len) = choose|a: ReserveAnswer, len: u64| #[trigger]
                    reserve_outcome(ta, fs.tree(), j0, *journal, f, d, m, a, len);
                let c = Course::<S>::Copied { taken: found, advice: advice@, mid: ta, a, len };
                assert(went(
                    t0,
                    fs.tree(),
                    j0,
                    *journal,
                    *cfg,
                    vol,
                    allow,
                    f,
                    goal,
                    m,
                    c,
                    on,
                ));
            }
            lemma_reserve_is_one(
                t0,
                ta,
                fs.tree(),
                j0,
                *journal,
                *cfg,
                plan.volume,
                replacing,
                f,
                to.deep_view(),
                d,
                result_view(r),
            );
        }
        return r;
    }
    let first = move_native(fs, cfg, opts, journal, from, dest);
    let ghost tb = fs.tree();
    let ghost jb = *journal;
    let ghost hb = fs.history();
    proof {
        lemma_renamed_arrives(h0, hm, hb, *cfg, f, d, first);
        lemma_native_is_one(
            t0,
            ta,
            tb,
            j0,
            jb,
            *cfg,
            plan.volume,
            replacing,
            f,
            to.deep_view(),
            d,
            result_view(first),
        );
    }
    let ghost mut refused: NativeAnswer = arbitrary();
    let ghost mut size: u64 = 0;
    match first {
        Ok(result) => {
            proof {
                let (a, len) = choose|a: NativeAnswer, len: u64| #[trigger]
                    native_outcome(ta, tb, j0, jb, f, d, result.deep_view(), a, len);
                refused = a;
                size = len;
            }
            if !is_cross_device_failure(&result) {
                proof {
                    let c = Course::<S>::Renamed {
                        taken: found,
                        advice: advice@,
                        mid: ta,
                        a: refused,
                        len: size,
                    };
                    assert(went(
                        t0,
                        tb,
                        j0,
                        jb,
                        *cfg,
                        vol,
                        allow,
                        f,
                        goal,
                        result.deep_view(),
                        c,
                        on,
                    ));
                }
                return Ok(result);
            }
        },
        Err(fatal) => {
            return Err(fatal);
        },
    }
    let r = move_reserve(fs, cfg, opts, journal, from, dest);
    proof {
        lemma_copied_arrives(h0, hb, fs.history(), *cfg, f, d, r);
        if r is Ok {
            let m = r->Ok_0.deep_view();
            let (a, len) = choose|a: ReserveAnswer, len: u64| #[trigger]
                reserve_outcome(tb, fs.tree(), jb, *journal, f, d, m, a, len);
            let c = Course::<S>::Carried {
                taken: found,
                advice: advice@,
                mid: ta,
                refused,
                size,
                after: tb,
                journal: jb,
                a,
                len,
            };
            assert(went(
                t0,
                fs.tree(),
                j0,
                *journal,
                *cfg,
                vol,
                allow,
                f,
                goal,
                m,
                c,
                on,
            ));
        }
        let a = j0.records();
        let b = jb.records();
        let c = journal.records();
        lemma_open_chain(a, b, c);
        if tb == ta {
            lemma_reserve_is_one(
                t0,
                ta,
                fs.tree(),
                jb,
                *journal,
                *cfg,
                plan.volume,
                replacing,
                f,
                to.deep_view(),
                d,
                result_view(r),
            );
        } else {
            assert(landed(ta, tb, f, d));
            assert(fs.tree() == tb);
        }
    }
    r
}

/// What a move by a rename does after calls that removed a source only once it
/// had arrived is of that kind too.
proof fn lemma_renamed_arrives(
    h0: Seq<Call>,
    h1: Seq<Call>,
    h2: Seq<Call>,
    cfg: Config,
    from: PathView,
    to: PathView,
    r: Result<MoveResult, FatalReason>,
)
    requires
        goes_on(h0, h1),
        removes_arrived(h1, h0.len() as int, from, hashes(cfg)),
        exists|s: Seen, answer: Option<NativeAnswer>| #[trigger]
            native_traced(h1, h2, cfg, from, to, s, answer) && (r matches Ok(m) ==> answer is Some
                && m.deep_view() == native_verdict(answer->0, from).1),
    ensures
        goes_on(h0, h2),
        removes_arrived(h2, h0.len() as int, from, hashes(cfg)),
        r matches Ok(MoveResult::Moved { .. }) ==> arrived(
            h2,
            h0.len() as int,
            h2.len() as int,
            from,
            hashes(cfg),
        ),
{
    let (s, answer) = choose|s: Seen, answer: Option<NativeAnswer>| #[trigger]
        native_traced(h1, h2, cfg, from, to, s, answer) && (r matches Ok(m) ==> answer is Some
            && m.deep_view() == native_verdict(answer->0, from).1);
    law_renamed_file_is_verified(h1, h2, cfg, from, to, s, answer);
    lemma_asking_before(h0, h1, h2, from, hashes(cfg));
    if r matches Ok(MoveResult::Moved { .. }) {
        let (a, b) = (h1.len() as int, h2.len() as int);
        lemma_arrived_stays(h2, a, b, h2, h0.len() as int, b, from, hashes(cfg));
    }
}

/// What a replacement does after calls that removed a source only once it had
/// arrived is of that kind too.
proof fn lemma_replaced_arrives(
    h0: Seq<Call>,
    h1: Seq<Call>,
    h2: Seq<Call>,
    cfg: Config,
    from: PathView,
    to: PathView,
    r: Result<MoveResult, FatalReason>,
)
    requires
        goes_on(h0, h1),
        removes_arrived(h1, h0.len() as int, from, hashes(cfg)),
        exists|id: RunId, s: Seen, answer: Option<ReplaceAnswer>| #[trigger]
            replace_traced(h1, h2, cfg, from, to, replacement_path(to, id), s, answer) && (
            r matches Ok(m) ==> answer is Some && m.deep_view() == replace_verdict(
                answer->0,
                from,
            ).1),
    ensures
        goes_on(h0, h2),
        removes_arrived(h2, h0.len() as int, from, hashes(cfg)),
        r matches Ok(MoveResult::Moved { .. }) ==> arrived(
            h2,
            h0.len() as int,
            h2.len() as int,
            from,
            hashes(cfg),
        ),
{
    let (id, s, answer) = choose|id: RunId, s: Seen, answer: Option<ReplaceAnswer>| #[trigger]
        replace_traced(h1, h2, cfg, from, to, replacement_path(to, id), s, answer) && (
        r matches Ok(m) ==> answer is Some && m.deep_view() == replace_verdict(
            answer->0,
            from,
        ).1);
    let temp = replacement_path(to, id);
    law_destination_is_replaced_by_verified_copy(h1, h2, cfg, from, to, temp, s, answer);
    lemma_asking_before(h0, h1, h2, from, hashes(cfg));
    if r matches Ok(MoveResult::Moved { .. }) {
        let (a, b) = (h1.len() as int, h2.len() as int);
        lemma_arrived_stays(h2, a, b, h2, h0.len() as int, b, from, hashes(cfg));
    }
}

/// What a move by a copy does after calls that removed a source only once it
/// had arrived is of that kind too.
proof fn lemma_copied_arrives(
    h0: Seq<Call>,
    h1: Seq<Call>,
    h2: Seq<Call>,
    cfg: Config,
    from: PathView,
    to: PathView,
    r: Result<MoveResult, FatalReason>,
)
    requires
        goes_on(h0, h1),
        removes_arrived(h1, h0.len() as int, from, hashes(cfg)),
        exists|s: Seen, answer: Option<ReserveAnswer>| #[trigger]
            reserve_traced(h1, h2, cfg, from, to, s, answer) && (r matches Ok(m) ==> answer is Some
                && m.deep_view() == reserve_verdict(answer->0, from).1),
    ensures
        goes_on(h0, h2),
        removes_arrived(h2, h0.len() as int, from, hashes(cfg)),
        r matches Ok(MoveResult::Moved { .. }) ==> arrived(
            h2,
            h0.len() as int,
            h2.len() as int,
            from,
            hashes(cfg),
        ),
{
    let (s, answer) = choose|s: Seen, answer: Option<ReserveAnswer>| #[trigger]
        reserve_traced(h1, h2, cfg, from, to, s, answer) && (r matches Ok(m) ==> answer is Some
            && m.deep_view() == reserve_verdict(answer->0, from).1);
    law_source_goes_after_verified_copy(h1, h2, cfg, from, to, s, answer);
    lemma_asking_before(h0, h1, h2, from, hashes(cfg));
    if r matches Ok(MoveResult::Moved { .. }) {
        let (a, b) = (h1.len() as int, h2.len() as int);
        lemma_arrived_stays(h2, a, b, h2, h0.len() as int, b, from, hashes(cfg));
    }
}

/// What comes of a replacement is what may come of a move.
proof fn lemma_replace_is_one<S: JournalStore>(
    t0: Tree,
    t1: Tree,
    j0: Journal<S>,
    j1: Journal<S>,
    cfg: Config,
    v: VolumeSemantics,
    from: PathView,
    to: PathView,
    r: Result<MoveResultView, FatalReason>,
)
    requires
        replace_result(t0, t1, j0, j1, from, to, r),
    ensures
        one_result(t0, t1, j0, j1, cfg, v, true, from, to, r),
{
    assert(from.parts.take(from.parts.len() as int) =~= from.parts);
    assert(from.starts_with(from));
    match r {
        Ok(MoveResultView::Moved { .. }) => {
            let len = choose|len: u64| #[trigger]
                closed_as(j0, j1, from, to, "SUCCESS"@, Some(len), None) && len == bytes(
                    t0,
                    from,
                ).len();
            lemma_closed_leaves_nothing_open(j0, j1, from, to, "SUCCESS"@, Some(len), None);
        },
        Ok(MoveResultView::Failed { .. }) => {
            if failed(j0, j1, from, to) {
                let why = choose|why: Seq<char>| failed_with(j0, j1, from, to, why);
                lemma_closed_leaves_nothing_open(j0, j1, from, to, "FAIL"@, None, Some(why));
            }
        },
        Ok(MoveResultView::Cancelled) => {
            lemma_closed_leaves_nothing_open(
                j0,
                j1,
                from,
                to,
                "FAIL"@,
                None,
                Some("cancelled"@),
            );
        },
        _ => {},
    }
}

} // verus!
