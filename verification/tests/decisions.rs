use media_manager::domain::config::{Config, ConflictPolicy, SymlinkPolicy};
use media_manager::domain::fs::faulty::{Fault, FaultyFs, InjectErr, Method};
use media_manager::domain::fs::mem::MemFs;
use media_manager::domain::fs::{CancelToken, FileMeta, FileSystem, IoError, IoKind};
use media_manager::domain::path::FilePath;
use media_manager::domain::plan::{ExistingInfo, SkipReason};
use media_manager::domain::volume::VolumeSemantics;
use media_manager::engine::exec::cleanup::{delete_junk, dir_empty_enough};
use media_manager::engine::exec::moves::{
    create_dir_retry, next_step, settle_native, settle_replace, settle_reserve, Closing,
    MoveResult, MoveStep, NativeAnswer, ReplaceAnswer, ReserveAnswer, Verify,
};
use media_manager::engine::journal::record_lines;
use media_manager::engine::reconcile::{
    decide_occupied, judge, next_free_copy_path, OccupiedDecision,
};
use media_manager::engine::scan::{scan, scan_noting};

fn path(s: &str) -> FilePath {
    FilePath::new(s)
}

fn oops(kind: IoKind) -> IoError {
    IoError { kind, raw_os: None, message: "oops".to_string() }
}

fn moved() -> MoveResult {
    MoveResult::Moved { source_dir: Some(path("/in")) }
}

fn failed(context: &str) -> MoveResult {
    MoveResult::Failed {
        message: format!("{context}: oops"),
        io_kind: Some("PermissionDenied".to_string()),
    }
}

#[test]
fn renames_are_settled() {
    let from = path("/in/a.mkv");
    let no = || oops(IoKind::PermissionDenied);
    let why = Closing::Failed("oops".to_string());
    let cases = [
        (NativeAnswer::Unseen(no()), Closing::Silent, failed("stat source")),
        (NativeAnswer::Unhashed(no()), Closing::Silent, failed("hash source")),
        (
            NativeAnswer::Unhashed(oops(IoKind::Interrupted)),
            Closing::Silent,
            MoveResult::Cancelled,
        ),
        (NativeAnswer::Refused(no()), why, failed("rename_no_replace")),
        (
            NativeAnswer::Refused(oops(IoKind::AlreadyExists)),
            Closing::Failed("occupied".to_string()),
            MoveResult::Conflicted,
        ),
        (NativeAnswer::Checked(Verify::Intact), Closing::Moved, moved()),
        (NativeAnswer::Checked(Verify::Cancelled), Closing::Open, MoveResult::Cancelled),
        (
            NativeAnswer::Checked(Verify::Fail("hash mismatch".to_string())),
            Closing::Failed("hash mismatch".to_string()),
            MoveResult::Failed { message: "hash mismatch".to_string(), io_kind: None },
        ),
    ];
    for (answer, closing, result) in cases {
        assert_eq!(settle_native(&answer, &from), (closing, result));
    }
}

#[test]
fn copies_are_settled() {
    let from = path("/in/a.mkv");
    let no = || oops(IoKind::PermissionDenied);
    let why = || Closing::Failed("oops".to_string());
    let cases = [
        (ReserveAnswer::Unseen(no()), Closing::Silent, failed("stat source")),
        (ReserveAnswer::Refused(no()), why(), failed("create_new")),
        (ReserveAnswer::NotCopied(no()), why(), failed("copy_into")),
        (
            ReserveAnswer::NotCopied(oops(IoKind::Interrupted)),
            Closing::Open,
            MoveResult::Cancelled,
        ),
        (ReserveAnswer::Untimed(no()), why(), failed("set_mtime")),
        (ReserveAnswer::Stays(no()), why(), failed("remove_file source")),
        (ReserveAnswer::Checked(Verify::Intact), Closing::Moved, moved()),
    ];
    for (answer, closing, result) in cases {
        assert_eq!(settle_reserve(&answer, &from), (closing, result));
    }
}

#[test]
fn replacements_are_settled() {
    let from = path("/in/a.mkv");
    let no = || oops(IoKind::PermissionDenied);
    let why = || Closing::Failed("oops".to_string());
    let cases = [
        (ReplaceAnswer::Refused(no()), why(), failed("create_new replace temp")),
        (ReplaceAnswer::NotPlaced(no()), why(), failed("rename_replace")),
        (
            ReplaceAnswer::NotCopied(oops(IoKind::Interrupted)),
            Closing::Failed("cancelled".to_string()),
            MoveResult::Cancelled,
        ),
        (ReplaceAnswer::Checked(Verify::Intact), Closing::Moved, moved()),
    ];
    for (answer, closing, result) in cases {
        assert_eq!(settle_replace(&answer, &from), (closing, result));
    }
}

#[test]
fn decisions_lead_to_steps() {
    let v = VolumeSemantics::ntfs();
    let (from, to) = (path("/in/a.mkv"), path("/lib/A.mkv"));
    let step = |d: Option<OccupiedDecision>, to: &FilePath, allow: bool| {
        next_step(d, &from, to, &v, allow)
    };
    assert_eq!(step(None, &to, false), MoveStep::Go(to.clone()));
    let next = path("/lib/A (2).mkv");
    assert_eq!(
        step(Some(OccupiedDecision::Move { to: next.clone() }), &to, false),
        MoveStep::Go(next)
    );
    assert_eq!(
        step(Some(OccupiedDecision::Move { to: path("/in/A.MKV") }), &to, false),
        MoveStep::Stop(MoveResult::NoOp)
    );
    assert_eq!(
        step(Some(OccupiedDecision::Skip { reason: SkipReason::Conflict }), &to, false),
        MoveStep::Stop(MoveResult::Skipped)
    );
    assert_eq!(
        step(Some(OccupiedDecision::Replace), &to, false),
        MoveStep::Stop(MoveResult::Conflicted)
    );
    assert_eq!(step(Some(OccupiedDecision::Replace), &to, true), MoveStep::Replace);
    assert_eq!(
        step(Some(OccupiedDecision::Replace), &path("/in/A.mkv"), true),
        MoveStep::Stop(MoveResult::NoOp)
    );
}

#[test]
fn policies_judge_what_stands_there() {
    let to = path("/lib/a.mkv");
    let next = path("/lib/a (2).mkv");
    let file =
        FileMeta { is_dir: false, is_symlink: false, len: 7, modified: None, read_only: false };
    let dir = FileMeta { is_dir: true, ..file };
    let conflict = OccupiedDecision::Conflict {
        existing: ExistingInfo { path: to.clone(), len: 7, blake3: None },
    };
    let put = |p, m: &FileMeta, same| judge(p, m, &to, same, next.clone());
    assert_eq!(put(ConflictPolicy::Report, &file, true), conflict);
    assert_eq!(
        put(ConflictPolicy::Skip, &file, false),
        OccupiedDecision::Skip { reason: SkipReason::Conflict }
    );
    assert_eq!(
        put(ConflictPolicy::SkipIfIdentical, &file, true),
        OccupiedDecision::Skip { reason: SkipReason::Identical }
    );
    assert_eq!(put(ConflictPolicy::SkipIfIdentical, &file, false), conflict);
    assert_eq!(
        put(ConflictPolicy::RenameNew, &file, false),
        OccupiedDecision::Move { to: next.clone() }
    );
    assert_eq!(put(ConflictPolicy::Replace, &file, false), OccupiedDecision::Replace);
    assert_eq!(put(ConflictPolicy::Replace, &dir, false), conflict);
}

#[test]
fn copies_are_numbered_past_those_there() {
    let v = VolumeSemantics::sensitive_bytes();
    let mut fs = MemFs::new();
    fs.seed_file(&path("/lib/a.mkv"), b"1".to_vec());
    fs.seed_file(&path("/lib/a (2).mkv"), b"2".to_vec());
    let next = next_free_copy_path(&mut fs, &v, &path("/in/a.mkv"), &path("/lib/a.mkv"));
    assert_eq!(next.to_text(), "/lib/a (3).mkv");
    // The source itself is as good as free.
    let same = next_free_copy_path(&mut fs, &v, &path("/lib/a (2).mkv"), &path("/lib/a.mkv"));
    assert_eq!(same.to_text(), "/lib/a (2).mkv");
}

#[test]
fn occupied_places_are_decided_by_looking() {
    let v = VolumeSemantics::sensitive_bytes();
    let mut cfg = Config::default();
    cfg.conflict.policy = ConflictPolicy::SkipIfIdentical;
    let mut fs = MemFs::new();
    fs.seed_file(&path("/in/a.mkv"), b"same".to_vec());
    fs.seed_file(&path("/lib/a.mkv"), b"same".to_vec());
    fs.seed_file(&path("/lib/b.mkv"), b"else!".to_vec());
    let go = CancelToken::new();
    let mut put = |to: &str| {
        decide_occupied(&mut fs, &cfg, &v, &path("/in/a.mkv"), &path(to), &go)
    };
    assert_eq!(put("/lib/a.mkv"), OccupiedDecision::Skip { reason: SkipReason::Identical });
    assert_eq!(
        put("/lib/b.mkv"),
        OccupiedDecision::Conflict {
            existing: ExistingInfo { path: path("/lib/b.mkv"), len: 5, blake3: None },
        }
    );
    assert_eq!(put("/lib/c.mkv"), OccupiedDecision::Move { to: path("/lib/c.mkv") });
}

#[test]
fn directories_are_tried_again_while_the_error_may_pass() {
    let fault = |n: u64, err: InjectErr| Fault {
        call_index: n,
        method: Method::CreateDirAll,
        err,
    };
    let passing: Vec<Fault> =
        (1..=4).map(|n| fault(n, InjectErr::PermissionDenied)).collect();
    let mut fs = FaultyFs::with_faults(MemFs::new(), passing);
    assert!(create_dir_retry(&mut fs, &path("/lib/x")).is_ok());
    assert!(fs.metadata(&path("/lib/x")).unwrap().is_dir);

    let lasting: Vec<Fault> =
        (1..=5).map(|n| fault(n, InjectErr::PermissionDenied)).collect();
    let mut fs = FaultyFs::with_faults(MemFs::new(), lasting);
    let e = create_dir_retry(&mut fs, &path("/lib/x")).unwrap_err();
    assert_eq!(e.kind, IoKind::PermissionDenied);

    let mut fs =
        FaultyFs::with_faults(MemFs::new(), vec![fault(1, InjectErr::StorageFull)]);
    let e = create_dir_retry(&mut fs, &path("/lib/x")).unwrap_err();
    assert_eq!(e.kind, IoKind::StorageFull);
}

#[test]
fn journal_files_hold_a_record_a_line() {
    assert_eq!(record_lines("{a}\n\n  {b} \r\n"), vec!["{a}".to_string(), "{b}".to_string()]);
    assert_eq!(record_lines("\n \n"), Vec::<String>::new());
    assert_eq!(record_lines("{a}"), vec!["{a}".to_string()]);
}

#[test]
fn unread_files_are_said_and_left_out() {
    let mut mem = MemFs::new();
    mem.seed_file(&path("/lib/a.mkv"), b"1".to_vec());
    let mut fs = FaultyFs::with_faults(
        mem,
        vec![Fault { call_index: 1, method: Method::Metadata, err: InjectErr::PermissionDenied }],
    );
    let cfg = Config::default();
    let mut notes = Vec::new();
    let found = scan_noting(&mut fs, &path("/lib"), &cfg, &mut notes).unwrap();
    assert!(found.is_empty());
    assert_eq!(notes.len(), 1);
    assert!(notes[0].message.starts_with("could not read /lib/a.mkv: "));
    assert_eq!(notes[0].io_kind.as_deref(), Some("PermissionDenied"));
}

#[test]
fn links_are_taken_as_the_policy_says() {
    let mut fs = MemFs::new();
    fs.seed_file(&path("/else/a.mkv"), b"1".to_vec());
    fs.seed_dir(&path("/lib"));
    fs.seed_symlink(&path("/lib/l.mkv"), &path("/else/a.mkv"));
    let mut cfg = Config::default();
    cfg.behaviour.symlinks = SymlinkPolicy::Skip;
    assert!(scan(&mut fs, &path("/lib"), &cfg).unwrap().is_empty());
    cfg.behaviour.symlinks = SymlinkPolicy::TreatAsFile;
    let found = scan(&mut fs, &path("/lib"), &cfg).unwrap();
    assert_eq!(found[0].absolute.to_text(), "/lib/l.mkv");
    cfg.behaviour.symlinks = SymlinkPolicy::Follow;
    let found = scan(&mut fs, &path("/lib"), &cfg).unwrap();
    assert_eq!(found[0].absolute.to_text(), "/else/a.mkv");
    assert_eq!(found[0].relative.to_text(), "l.mkv");
}

#[test]
fn junk_goes_and_everything_else_stays() {
    let mut fs = MemFs::new();
    fs.seed_file(&path("/lib/d/.DS_Store"), b"1".to_vec());
    fs.seed_file(&path("/lib/d/a.txt"), b"2".to_vec());
    let mut cfg = Config::default();
    cfg.cleanup.tolerate_junk = true;
    cfg.cleanup.junk_names = vec![".ds_store".to_string()];
    assert!(!dir_empty_enough(&mut fs, &path("/lib/d"), &cfg).unwrap());
    delete_junk(&mut fs, &path("/lib/d"), &cfg).unwrap();
    assert_eq!(fs.read(&path("/lib/d/.DS_Store")), None);
    assert_eq!(fs.read(&path("/lib/d/a.txt")), Some(b"2".to_vec()));
    fs.remove_file(&path("/lib/d/a.txt")).unwrap();
    assert!(dir_empty_enough(&mut fs, &path("/lib/d"), &cfg).unwrap());
    let gone = dir_empty_enough(&mut fs, &path("/lib/e"), &cfg).unwrap_err();
    assert_eq!(gone.kind, IoKind::NotFound);
    fs.seed_dir(&path("/lib/d/.DS_STORE"));
    let e = delete_junk(&mut fs, &path("/lib/d"), &cfg).unwrap_err();
    assert_eq!(e.kind, IoKind::IsADirectory);
}
