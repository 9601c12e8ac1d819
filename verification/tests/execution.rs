use media_manager::domain::classify::MediaKind;
use media_manager::domain::config::{Config, ConflictPolicy, StrategyConfig, VerifyMode};
use media_manager::domain::error::{FatalReason, Outcome, RunMode};
use media_manager::domain::fs::faulty::{Fault, FaultyFs, InjectErr, Method};
use media_manager::domain::fs::mem::MemFs;
use media_manager::domain::fs::{CancelToken, FileSystem};
use media_manager::domain::path::FilePath;
use media_manager::domain::plan::{Action, DirRename, DirRenameId, Plan, SkipReason};
use media_manager::domain::run_id::RunId;
use media_manager::domain::volume::VolumeSemantics;
use media_manager::engine::exec::{execute, gc, report_from_plan, ExecOptions, GcOptions};
use media_manager::engine::journal::{Journal, JournalEntry, JournalOp, JournalStore, NoStore};
use media_manager::engine::planner::{PlanOptions, Planner};

const BOTH: [StrategyConfig; 2] = [StrategyConfig::Native, StrategyConfig::Reserve];

fn path(s: &str) -> FilePath {
    FilePath::new(s)
}

fn cfg_with(strategy: StrategyConfig) -> Config {
    let mut c = Config::default();
    c.moves.no_replace_strategy = strategy;
    c
}

fn exec_opts() -> ExecOptions {
    ExecOptions {
        fail_fast: false,
        journal_dir: path("/journal"),
        cancel: CancelToken::new(),
        allow_replace: false,
    }
}

fn journal() -> Journal<NoStore> {
    Journal::create(&path("/journal/journal.jsonl"), NoStore::new())
}

fn seeded(files: &[(&str, &[u8])]) -> MemFs {
    let mut fs = MemFs::new();
    fs.seed_dir(&path("/media"));
    for (p, data) in files {
        fs.seed_file(&path(p), data.to_vec());
    }
    fs
}

fn plan_of(fs: &mut MemFs, cfg: &Config) -> Plan {
    let root = path("/media");
    let planner = Planner::new(fs, &root, MediaKind::Movies, cfg, "cfg").unwrap();
    planner.plan(fs, PlanOptions::default()).unwrap()
}

fn is_there<F: FileSystem>(fs: &mut F, p: &str) -> bool {
    fs.metadata(&path(p)).is_ok()
}

fn has_conflict(plan: &Plan) -> bool {
    plan.items.iter().any(|i| matches!(i.action, Action::Conflict { .. }))
}

const SOURCE: &str = "/media/Inception.2010.mkv";
const DEST: &str = "/media/Inception (2010)/Inception (2010).mkv";

#[test]
fn simple_movie_move_native_and_reserve() {
    for strategy in BOTH {
        let mut fs = seeded(&[(SOURCE, b"inception-bytes")]);
        let cfg = cfg_with(strategy);
        let plan = plan_of(&mut fs, &cfg);
        let report = execute(&mut fs, &plan, &cfg, &exec_opts(), &mut journal());
        assert!(report.fatal.is_none(), "{:?}", report.fatal);
        assert!(!report.cancelled);
        assert!(report.total(Outcome::Moved) >= 1, "{:?}", report.diagnostics);
        assert_eq!(fs.read(&path(DEST)), Some(b"inception-bytes".to_vec()));
        assert!(!is_there(&mut fs, SOURCE));
    }
}

#[test]
fn pre_existing_dest_is_not_overwritten() {
    for strategy in BOTH {
        let mut fs = seeded(&[(SOURCE, b"new-bytes"), (DEST, b"original-dest")]);
        let cfg = cfg_with(strategy);
        let plan = plan_of(&mut fs, &cfg);
        let report = execute(&mut fs, &plan, &cfg, &exec_opts(), &mut journal());
        assert_eq!(fs.read(&path(DEST)), Some(b"original-dest".to_vec()));
        assert!(is_there(&mut fs, SOURCE));
        assert!(report.total(Outcome::Conflicted) >= 1 || has_conflict(&plan));
    }
}

#[test]
fn skip_if_identical() {
    for strategy in BOTH {
        let bytes = b"same-bytes-here";
        let mut fs = seeded(&[(SOURCE, bytes), (DEST, bytes)]);
        let mut cfg = cfg_with(strategy);
        cfg.conflict.policy = ConflictPolicy::SkipIfIdentical;
        let plan = plan_of(&mut fs, &cfg);
        assert!(plan
            .items
            .iter()
            .any(|i| matches!(i.action, Action::Skip { reason: SkipReason::Identical })));
        let report = execute(&mut fs, &plan, &cfg, &exec_opts(), &mut journal());
        assert!(is_there(&mut fs, SOURCE));
        assert_eq!(fs.read(&path(DEST)), Some(bytes.to_vec()));
        assert!(report.total(Outcome::Skipped) >= 1 || report.total(Outcome::NoOp) >= 1);
    }
}

#[test]
fn source_survives_copy_into_failure_reserve() {
    let mut mem = seeded(&[(SOURCE, b"keep-me-please")]);
    let mut cfg = cfg_with(StrategyConfig::Reserve);
    cfg.cleanup.remove_empty_dirs = false;
    let plan = plan_of(&mut mem, &cfg);
    let mut fs = FaultyFs::with_faults(
        mem,
        vec![Fault {
            call_index: 1,
            method: Method::CopyInto,
            err: InjectErr::PermissionDenied,
        }],
    );
    let report = execute(&mut fs, &plan, &cfg, &exec_opts(), &mut journal());
    assert!(report.fatal.is_none(), "{:?}", report.fatal);
    assert_eq!(fs.inner().read(&path(SOURCE)), Some(b"keep-me-please".to_vec()));
    assert!(report.total(Outcome::Failed) >= 1);
}

#[test]
fn source_survives_remove_file_failure_reserve() {
    let mut mem = seeded(&[(SOURCE, b"keep-me-please")]);
    let mut cfg = cfg_with(StrategyConfig::Reserve);
    cfg.cleanup.remove_empty_dirs = false;
    let plan = plan_of(&mut mem, &cfg);
    let mut fs = FaultyFs::with_faults(
        mem,
        vec![Fault {
            call_index: 1,
            method: Method::RemoveFile,
            err: InjectErr::PermissionDenied,
        }],
    );
    let report = execute(&mut fs, &plan, &cfg, &exec_opts(), &mut journal());
    assert_eq!(fs.inner().read(&path(SOURCE)), Some(b"keep-me-please".to_vec()));
    assert!(report.total(Outcome::Failed) >= 1 || report.total(Outcome::Moved) >= 1);
}

#[test]
fn permission_denied_on_one_file_does_not_abort_run() {
    for strategy in BOTH {
        let mut mem = seeded(&[(SOURCE, b"one"), ("/media/Up.2009.mkv", b"two")]);
        let cfg = cfg_with(strategy);
        let plan = plan_of(&mut mem, &cfg);
        let method = if strategy == StrategyConfig::Native {
            Method::RenameNoReplace
        } else {
            Method::CreateNew
        };
        let mut fs = FaultyFs::with_faults(
            mem,
            vec![Fault { call_index: 1, method, err: InjectErr::PermissionDenied }],
        );
        let report = execute(&mut fs, &plan, &cfg, &exec_opts(), &mut journal());
        assert!(report.fatal.is_none());
        assert!(report.total(Outcome::Failed) >= 1, "{:?}", report.counts);
        assert!(
            report.total(Outcome::Moved) >= 1
                || is_there(&mut fs, "/media/Up.2009.mkv")
                || is_there(&mut fs, "/media/Up (2009)")
        );
    }
}

#[test]
fn dest_directory_is_conflict_not_overwrite() {
    for strategy in BOTH {
        let mut fs = seeded(&[(SOURCE, b"src")]);
        fs.seed_dir(&path(DEST));
        let cfg = cfg_with(strategy);
        let plan = plan_of(&mut fs, &cfg);
        let report = execute(&mut fs, &plan, &cfg, &exec_opts(), &mut journal());
        assert!(fs.metadata(&path(DEST)).unwrap().is_dir);
        assert!(is_there(&mut fs, SOURCE));
        assert!(report.total(Outcome::Conflicted) >= 1 || has_conflict(&plan));
    }
}

#[test]
fn case_only_directory_rename_two_step() {
    let mut fs = seeded(&[("/media/foo/marker.txt", b"x")]);
    let mut plan = Plan::new(
        RunId::fresh(),
        path("/media"),
        MediaKind::Movies,
        "test".to_string(),
        VolumeSemantics::conservative(),
    );
    plan.dir_renames.push(DirRename {
        id: DirRenameId(0),
        from: path("/media/foo"),
        to: path("/media/Foo"),
    });
    let cfg = Config::default();
    let report = execute(&mut fs, &plan, &cfg, &exec_opts(), &mut journal());
    assert!(report.fatal.is_none(), "{:?}", report.fatal);
    let listed = fs.read_dir(&path("/media")).unwrap();
    assert!(listed.iter().any(|e| matches!(e, Ok(d) if d.file_name == "Foo")));
    assert!(is_there(&mut fs, "/media/Foo/marker.txt"));
}

#[test]
fn empty_dir_cleanup_and_junk_tolerance() {
    let nested = "/media/downloads/Inception.2010.mkv";
    for strategy in BOTH {
        let mut fs = seeded(&[(nested, b"x")]);
        let mut cfg = cfg_with(strategy);
        cfg.cleanup.remove_empty_dirs = true;
        cfg.cleanup.tolerate_junk = false;
        let plan = plan_of(&mut fs, &cfg);
        let report = execute(&mut fs, &plan, &cfg, &exec_opts(), &mut journal());
        assert!(report.fatal.is_none(), "{:?}", report.fatal);
        assert!(!is_there(&mut fs, "/media/downloads"));
        assert!(report.dirs_removed >= 1);
    }

    // A file that stays keeps the directory.
    {
        let mut fs = seeded(&[(nested, b"x"), ("/media/downloads/notes.txt", b"keep")]);
        let cfg = cfg_with(StrategyConfig::Native);
        let plan = plan_of(&mut fs, &cfg);
        let _ = execute(&mut fs, &plan, &cfg, &exec_opts(), &mut journal());
        assert!(is_there(&mut fs, "/media/downloads"));
        assert!(is_there(&mut fs, "/media/downloads/notes.txt"));
    }

    // So does a junk file that is not tolerated.
    {
        let mut fs = seeded(&[(nested, b"x"), ("/media/downloads/.DS_Store", b"junk")]);
        let mut cfg = cfg_with(StrategyConfig::Native);
        cfg.cleanup.tolerate_junk = false;
        let plan = plan_of(&mut fs, &cfg);
        let _ = execute(&mut fs, &plan, &cfg, &exec_opts(), &mut journal());
        assert!(is_there(&mut fs, "/media/downloads"));
        assert!(is_there(&mut fs, "/media/downloads/.DS_Store"));
    }
}

#[test]
fn tolerated_junk_goes_with_its_directory() {
    let nested = "/media/downloads/Inception.2010.mkv";
    let mut fs = seeded(&[(nested, b"x"), ("/media/downloads/.DS_Store", b"junk")]);
    let mut cfg = cfg_with(StrategyConfig::Native);
    cfg.cleanup.tolerate_junk = true;
    let plan = plan_of(&mut fs, &cfg);
    let report = execute(&mut fs, &plan, &cfg, &exec_opts(), &mut journal());
    assert!(!is_there(&mut fs, "/media/downloads"));
    assert_eq!(report.dirs_removed, 1);
}

#[test]
fn interrupted_reserve_gc_and_report_not_overwrite() {
    let mut fs = seeded(&[(SOURCE, b"source-intact"), (DEST, b"short")]);
    // An intent without an outcome, the source intact, something at the destination.
    let mut j = journal();
    j.bind(RunId::fresh(), path("/media"), "d".to_string());
    j.write_intent(JournalOp::Move, Some(&path(SOURCE)), Some(&path(DEST)))
        .unwrap();
    let kept: Vec<JournalEntry> = j.entries().clone();
    let mut j = Journal::open(&path("/journal/journal.jsonl"), kept, NoStore::new());
    assert_eq!(j.unmatched_intents(Some(&path("/media"))).len(), 1);

    let report = gc(
        &mut fs,
        &path("/media"),
        &GcOptions { journal_dir: path("/journal"), yes: true },
        &mut j,
    );
    assert!(report.reservations_reclaimed >= 1);
    assert!(!is_there(&mut fs, DEST));
    assert_eq!(fs.read(&path(SOURCE)), Some(b"source-intact".to_vec()));

    // Without such an intent the occupant is someone else's.
    fs.seed_file(&path(DEST), b"someone-elses-file".to_vec());
    let cfg = cfg_with(StrategyConfig::Reserve);
    let plan = plan_of(&mut fs, &cfg);
    let report = execute(&mut fs, &plan, &cfg, &exec_opts(), &mut j);
    assert_eq!(fs.read(&path(DEST)), Some(b"someone-elses-file".to_vec()));
    assert!(is_there(&mut fs, SOURCE));
    assert!(report.total(Outcome::Conflicted) >= 1 || has_conflict(&plan));
}

#[test]
fn gc_without_yes_deletes_nothing() {
    let mut fs = seeded(&[(SOURCE, b"source-intact"), (DEST, b"short")]);
    let mut j = journal();
    j.bind(RunId::fresh(), path("/media"), "d".to_string());
    j.write_intent(JournalOp::Move, Some(&path(SOURCE)), Some(&path(DEST)))
        .unwrap();
    let report = gc(
        &mut fs,
        &path("/media"),
        &GcOptions { journal_dir: path("/journal"), yes: false },
        &mut j,
    );
    assert_eq!(report.reservations_reclaimed, 0);
    assert_eq!(fs.read(&path(DEST)), Some(b"short".to_vec()));
}

#[test]
fn gc_never_deletes_the_last_copy() {
    let mut fs = seeded(&[(DEST, b"only-copy")]);
    let mut j = journal();
    j.bind(RunId::fresh(), path("/media"), "d".to_string());
    j.write_intent(JournalOp::Move, Some(&path(SOURCE)), Some(&path(DEST)))
        .unwrap();
    let report = gc(
        &mut fs,
        &path("/media"),
        &GcOptions { journal_dir: path("/journal"), yes: true },
        &mut j,
    );
    assert_eq!(report.reservations_reclaimed, 0);
    assert_eq!(fs.read(&path(DEST)), Some(b"only-copy".to_vec()));
}

#[test]
fn skip_if_identical_different_bytes_is_conflict() {
    let mut fs = seeded(&[(SOURCE, b"aaaa"), (DEST, b"bbbb")]);
    let mut cfg = cfg_with(StrategyConfig::Native);
    cfg.conflict.policy = ConflictPolicy::SkipIfIdentical;
    let plan = plan_of(&mut fs, &cfg);
    assert!(has_conflict(&plan));
    let report = execute(&mut fs, &plan, &cfg, &exec_opts(), &mut journal());
    assert_eq!(fs.read(&path(DEST)), Some(b"bbbb".to_vec()));
    assert!(is_there(&mut fs, SOURCE));
    assert!(report.total(Outcome::Conflicted) >= 1);
}

#[test]
fn cancel_during_copy_deletes_reservation() {
    let mut mem = seeded(&[(SOURCE, b"source-bytes")]);
    let mut cfg = cfg_with(StrategyConfig::Reserve);
    cfg.cleanup.remove_empty_dirs = false;
    let plan = plan_of(&mut mem, &cfg);
    let mut fs = FaultyFs::with_faults(
        mem,
        vec![Fault { call_index: 1, method: Method::CopyInto, err: InjectErr::Interrupted }],
    );
    let report = execute(&mut fs, &plan, &cfg, &exec_opts(), &mut journal());
    assert!(report.cancelled);
    assert_eq!(fs.inner().read(&path(SOURCE)), Some(b"source-bytes".to_vec()));
    assert!(match fs.inner().read(&path(DEST)) {
        None => true,
        Some(data) => data.is_empty(),
    });
}

#[test]
fn idempotent_replan_is_noop() {
    let mut fs = seeded(&[(SOURCE, b"x")]);
    let cfg = cfg_with(StrategyConfig::Native);
    let plan = plan_of(&mut fs, &cfg);
    let report = execute(&mut fs, &plan, &cfg, &exec_opts(), &mut journal());
    assert!(report.total(Outcome::Moved) >= 1);
    let plan2 = plan_of(&mut fs, &cfg);
    let remaining: Vec<_> = plan2
        .items
        .iter()
        .filter(|i| {
            matches!(
                i.action,
                Action::Move { .. } | Action::Conflict { .. } | Action::Duplicate { .. }
            )
        })
        .collect();
    assert!(remaining.is_empty(), "{remaining:?}");
}

#[test]
fn copy_into_failure_leaves_unmatched_when_dest_survives() {
    for strategy in BOTH {
        let mut mem = seeded(&[(SOURCE, &[9u8; 32])]);
        let cfg = cfg_with(strategy);
        let plan = plan_of(&mut mem, &cfg);
        let method = if strategy == StrategyConfig::Reserve {
            Method::CopyInto
        } else {
            Method::RenameNoReplace
        };
        let mut fs = FaultyFs::with_faults(
            mem,
            vec![Fault { call_index: 1, method, err: InjectErr::PermissionDenied }],
        );
        let report = execute(&mut fs, &plan, &cfg, &exec_opts(), &mut journal());
        assert_eq!(fs.inner().read(&path(SOURCE)), Some(vec![9u8; 32]));
        assert!(report.fatal.is_none());
    }
}

#[test]
fn copies_are_verified_by_hash_when_asked() {
    let mut fs = seeded(&[(SOURCE, b"inception-bytes")]);
    let mut cfg = cfg_with(StrategyConfig::Reserve);
    cfg.moves.verify = VerifyMode::Hash;
    let plan = plan_of(&mut fs, &cfg);
    let report = execute(&mut fs, &plan, &cfg, &exec_opts(), &mut journal());
    assert_eq!(report.total(Outcome::Moved), 1);
    assert_eq!(fs.read(&path(DEST)), Some(b"inception-bytes".to_vec()));
}

#[test]
fn crossing_devices_falls_back_to_a_copy() {
    let mut mem = seeded(&[(SOURCE, b"far-away")]);
    let cfg = cfg_with(StrategyConfig::Native);
    let plan = plan_of(&mut mem, &cfg);
    let mut fs = FaultyFs::with_faults(
        mem,
        vec![Fault {
            call_index: 1,
            method: Method::RenameNoReplace,
            err: InjectErr::CrossesDevices,
        }],
    );
    let report = execute(&mut fs, &plan, &cfg, &exec_opts(), &mut journal());
    assert_eq!(report.total(Outcome::Moved), 1);
    assert_eq!(fs.inner().read(&path(DEST)), Some(b"far-away".to_vec()));
    assert_eq!(fs.inner().read(&path(SOURCE)), None);
}

#[test]
fn replacing_needs_permission() {
    for allow in [false, true] {
        let mut fs = seeded(&[(SOURCE, b"new"), (DEST, b"old")]);
        let mut cfg = cfg_with(StrategyConfig::Native);
        cfg.conflict.policy = ConflictPolicy::Replace;
        let plan = plan_of(&mut fs, &cfg);
        let mut opts = exec_opts();
        opts.allow_replace = allow;
        let report = execute(&mut fs, &plan, &cfg, &opts, &mut journal());
        if allow {
            assert_eq!(report.total(Outcome::Moved), 1, "{:?}", report.diagnostics);
            assert_eq!(fs.read(&path(DEST)), Some(b"new".to_vec()));
            assert!(!is_there(&mut fs, SOURCE));
        } else {
            assert_eq!(report.total(Outcome::Conflicted), 1);
            assert_eq!(fs.read(&path(DEST)), Some(b"old".to_vec()));
            assert_eq!(fs.read(&path(SOURCE)), Some(b"new".to_vec()));
        }
    }
}

#[test]
fn cancelled_run_touches_nothing() {
    let mut fs = seeded(&[(SOURCE, b"x")]);
    let cfg = cfg_with(StrategyConfig::Native);
    let plan = plan_of(&mut fs, &cfg);
    let opts = exec_opts();
    opts.cancel.set();
    let report = execute(&mut fs, &plan, &cfg, &opts, &mut journal());
    assert!(report.cancelled);
    assert_eq!(fs.read(&path(SOURCE)), Some(b"x".to_vec()));
    assert!(!is_there(&mut fs, DEST));
}

struct Full;

impl JournalStore for Full {
    fn append(&mut self, _entry: &JournalEntry) -> Result<(), String> {
        Err("disk full".to_string())
    }

    fn save_plan(&mut self, _dest: &FilePath, _plan: &Plan) -> Result<(), String> {
        Ok(())
    }
}

#[test]
fn nothing_moves_without_a_journal() {
    let mut fs = seeded(&[(SOURCE, b"x")]);
    let cfg = cfg_with(StrategyConfig::Native);
    let plan = plan_of(&mut fs, &cfg);
    let mut j = Journal::create(&path("/journal/journal.jsonl"), Full);
    let report = execute(&mut fs, &plan, &cfg, &exec_opts(), &mut j);
    assert!(matches!(report.fatal, Some(FatalReason::JournalUnwritable { .. })));
    assert_eq!(fs.read(&path(SOURCE)), Some(b"x".to_vec()));
    assert!(!is_there(&mut fs, DEST));
    assert_eq!(report.exit_code(false), 50);
}

#[test]
fn every_intent_of_a_finished_run_is_matched() {
    let mut fs = seeded(&[(SOURCE, b"x"), ("/media/Up.2009.mkv", b"y")]);
    let cfg = cfg_with(StrategyConfig::Reserve);
    let plan = plan_of(&mut fs, &cfg);
    let mut j = journal();
    let report = execute(&mut fs, &plan, &cfg, &exec_opts(), &mut j);
    assert_eq!(report.total(Outcome::Moved), 2);
    assert!(j.unmatched_intents(None).is_empty());
    assert!(!j.entries().is_empty());
}

#[test]
fn planned_report_counts_what_would_happen() {
    let mut fs = seeded(&[(SOURCE, b"x"), ("/media/notes.xyz", b"y")]);
    let cfg = Config::default();
    let plan = plan_of(&mut fs, &cfg);
    let report = report_from_plan(&plan, RunMode::Plan);
    assert_eq!(report.pending.get(Outcome::Moved), 1);
    assert_eq!(report.total(Outcome::Failed), 0);
}
