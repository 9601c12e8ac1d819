use media_manager::domain::classify::MediaKind;
use media_manager::domain::config::{Config, StrategyConfig};
use media_manager::domain::error::{FatalReason, Outcome, RunMode};
use media_manager::domain::fs::mem::{MemFs, MemHandle};
use media_manager::domain::fs::{
    CancelToken, DirEntry, FileId, FileMeta, FileSystem, IoError, Stamp,
};
use media_manager::domain::path::FilePath;
use media_manager::domain::plan::{ItemId, Plan};
use media_manager::domain::run_id::RunId;
use media_manager::domain::volume::{NoReplaceStrategy, VolumeSemantics};
use media_manager::engine::exec::moves::{move_one, move_replace, MoveResult};
use media_manager::engine::exec::{execute, report_unopened, ExecOptions};
use media_manager::engine::journal::{
    Journal, JournalEntry, JournalOp, JournalPhase, JournalStore, NoStore,
};
use media_manager::engine::planner::{PlanOptions, Planner};
use media_manager::engine::probe_stage::{
    cached_or_probe, open_cache, CacheKey, Probe, ProbeOutcome, Prober, VideoProbe,
};
use std::cell::RefCell;
use std::rc::Rc;

fn path(s: &str) -> FilePath {
    FilePath::new(s)
}

fn seeded(files: &[&str]) -> MemFs {
    let mut fs = MemFs::new();
    fs.seed_dir(&path("/lib"));
    for f in files {
        fs.seed_file(&path(f), f.as_bytes().to_vec());
    }
    fs
}

fn options() -> ExecOptions {
    ExecOptions {
        fail_fast: false,
        journal_dir: path("/journal"),
        cancel: CancelToken::never(),
        allow_replace: true,
    }
}

fn empty_plan() -> Plan {
    Plan::new(
        RunId::fresh(),
        path("/lib"),
        MediaKind::Movies,
        "abc".to_string(),
        VolumeSemantics::conservative(),
    )
}

/// What a store was given, in order.
#[derive(Debug, Clone)]
enum Given {
    Entry(JournalEntry),
    Plan(String, RunId, usize),
}

/// A store that takes a number of entries and plans, and shares what it took.
struct Recording {
    taken: Rc<RefCell<Vec<Given>>>,
    room: usize,
}

impl Recording {
    fn with_room(room: usize) -> (Self, Rc<RefCell<Vec<Given>>>) {
        let taken = Rc::new(RefCell::new(Vec::new()));
        (Recording { taken: taken.clone(), room }, taken)
    }

    fn take(&mut self, g: Given) -> Result<(), String> {
        if self.taken.borrow().len() < self.room {
            self.taken.borrow_mut().push(g);
            Ok(())
        } else {
            Err("disk full".to_string())
        }
    }
}

impl JournalStore for Recording {
    fn append(&mut self, entry: &JournalEntry) -> Result<(), String> {
        self.take(Given::Entry(entry.clone()))
    }

    fn save_plan(&mut self, dest: &FilePath, plan: &Plan) -> Result<(), String> {
        self.take(Given::Plan(dest.to_text(), plan.run_id, plan.items.len()))
    }
}

fn entries(taken: &Rc<RefCell<Vec<Given>>>) -> Vec<JournalEntry> {
    taken
        .borrow()
        .iter()
        .filter_map(|g| match g {
            Given::Entry(e) => Some(e.clone()),
            Given::Plan(..) => None,
        })
        .collect()
}

#[test]
fn every_record_is_written_through() {
    let (store, taken) = Recording::with_room(10);
    let mut j = Journal::create(&path("/data/journal.jsonl"), store);
    j.bind(RunId(7), path("/lib"), "digest".to_string());
    let (from, to) = (path("/lib/a.mkv"), path("/lib/b.mkv"));
    let seq = j.write_intent(JournalOp::Move, Some(&from), Some(&to)).unwrap();
    assert_eq!(entries(&taken).len(), 1);
    j.write_outcome(seq, JournalOp::Move, Some(&from), Some(&to), "SUCCESS", Some(12), None)
        .unwrap();
    let written = entries(&taken);
    assert_eq!(&written, j.entries());
    assert_eq!(written[0].phase, JournalPhase::Intent);
    assert_eq!(written[0].status, None);
    assert_eq!(written[1].phase, JournalPhase::Outcome);
    assert_eq!(written[1].status, Some("SUCCESS".to_string()));
    assert_eq!(written[1].bytes, Some(12));
    for e in &written {
        assert_eq!((e.seq, e.run_id), (seq, RunId(7)));
        assert_eq!(e.to, Some(to.clone()));
        assert_eq!(e.config_digest, "digest");
        assert!(e.ts.len() == 24 && e.ts.ends_with('Z') && &e.ts[10..11] == "T", "{}", e.ts);
    }
}

#[test]
fn refused_record_is_not_kept() {
    let (store, taken) = Recording::with_room(1);
    let mut j = Journal::create(&path("/data/journal.jsonl"), store);
    let seq = j.write_intent(JournalOp::DirCreate, None, Some(&path("/lib/a"))).unwrap();
    assert!(j
        .write_outcome(seq, JournalOp::DirCreate, None, Some(&path("/lib/a")), "SUCCESS", None, None)
        .is_err());
    assert_eq!(entries(&taken).len(), 1);
    assert_eq!(j.entries().len(), 1);
    assert_eq!(j.unmatched_intents(None).len(), 1);
}

#[test]
fn records_that_were_read_are_not_written_again() {
    let (store, _) = Recording::with_room(10);
    let mut j = Journal::create(&path("/data/journal.jsonl"), store);
    j.write_intent(JournalOp::Move, None, None).unwrap();
    let (store, taken) = Recording::with_room(10);
    let mut again = Journal::open(&path("/data/journal.jsonl"), j.entries().clone(), store);
    assert!(entries(&taken).is_empty());
    again.write_intent(JournalOp::Move, None, None).unwrap();
    assert_eq!(entries(&taken).len(), 1);
    assert_eq!(entries(&taken)[0].seq, 2);
    assert_eq!(again.entries().len(), 2);
}

#[test]
fn persist_plan_writes_json_next_to_journal() {
    let (store, taken) = Recording::with_room(10);
    let mut j = Journal::create(&path("/tmp/journal.jsonl"), store);
    let plan = empty_plan();
    let dest = j.persist_plan(&plan).unwrap();
    let saved = taken.borrow().clone();
    assert_eq!(saved.len(), 1);
    match &saved[0] {
        Given::Plan(at, run, _) => {
            assert_eq!(*at, dest.to_text());
            assert_eq!(*run, plan.run_id);
        }
        other => panic!("{other:?}"),
    }
    assert_eq!(dest.to_text(), format!("/tmp/plans/{}.json", plan.run_id.hyphenated()));
    assert!(j.entries().is_empty());
}

#[test]
fn plan_is_saved_before_anything_moves() {
    let source = "/lib/Inception.2010.mkv";
    let mut fs = seeded(&[source]);
    let cfg = Config::default();
    let root = path("/lib");
    let planner = Planner::new(&mut fs, &root, MediaKind::Movies, &cfg, "cfg").unwrap();
    let plan = planner.plan(&mut fs, PlanOptions::default()).unwrap();

    let (store, taken) = Recording::with_room(0);
    let mut j = Journal::create(&path("/journal/journal.jsonl"), store);
    let report = execute(&mut fs, &plan, &cfg, &options(), &mut j);
    assert!(report.fatal.is_some());
    assert!(taken.borrow().is_empty());
    assert!(fs.read(&path(source)).is_some());
    assert_eq!(fs.read_dir(&root).unwrap().len(), 1);

    let (store, taken) = Recording::with_room(100);
    let mut j = Journal::create(&path("/journal/journal.jsonl"), store);
    let report = execute(&mut fs, &plan, &cfg, &options(), &mut j);
    assert_eq!(report.total(Outcome::Moved), 1);
    match &taken.borrow()[0] {
        Given::Plan(_, run, items) => assert_eq!((*run, *items), (plan.run_id, 1)),
        other => panic!("{other:?}"),
    }
    let written = entries(&taken);
    assert_eq!(written.len() + 1, taken.borrow().len());
    let last = written.iter().rev().find(|e| e.op == JournalOp::Move).unwrap();
    assert_eq!(last.status, Some("SUCCESS".to_string()));
    assert_eq!(last.bytes, Some(source.len() as u64));
}

#[test]
fn journal_that_cannot_be_opened_is_reported() {
    let plan = empty_plan();
    let fatal = FatalReason::JournalUnwritable {
        path: path("/journal/journal.jsonl"),
        why: "permission denied".to_string(),
    };
    let report = report_unopened(&plan, fatal);
    assert!(matches!(report.fatal, Some(FatalReason::JournalUnwritable { .. })));
    assert_eq!((report.run_id, report.mode), (plan.run_id, RunMode::Apply));
    assert_eq!(report.total(Outcome::Moved), 0);
    assert_eq!(report.exit_code(false), 50);
}

#[test]
fn nothing_moves_once_the_store_is_full() {
    for strategy in [StrategyConfig::Native, StrategyConfig::Reserve] {
        let mut fs = seeded(&["/lib/a.mkv"]);
        let mut cfg = Config::default();
        cfg.moves.no_replace_strategy = strategy;
        let (from, to) = (path("/lib/a.mkv"), path("/lib/b.mkv"));
        let (store, taken) = Recording::with_room(0);
        let mut j = Journal::create(&path("/journal/journal.jsonl"), store);
        let r = move_one(&mut fs, &empty_plan(), &cfg, &options(), &mut j, &from, &to);
        assert!(r.is_err());
        assert!(taken.borrow().is_empty());
        assert!(fs.read(&from).is_some());
        assert!(fs.metadata(&to).is_err());
    }
}

#[test]
fn file_does_not_replace_itself() {
    let mut fs = seeded(&["/lib/a.mkv"]);
    let mut j = Journal::create(&path("/journal/journal.jsonl"), NoStore::new());
    let a = path("/lib/a.mkv");
    let r = move_replace(&mut fs, &Config::default(), &options(), &mut j, &a, &a).unwrap();
    assert!(matches!(r, MoveResult::NoOp));
    assert_eq!(fs.read(&a), Some(b"/lib/a.mkv".to_vec()));
    assert!(j.entries().is_empty());
}

/// A file system whose volume calls for reservations.
struct Reserving {
    inner: MemFs,
    renames: usize,
    copies: usize,
}

impl FileSystem for Reserving {
    type Handle = MemHandle;

    fn metadata(&mut self, p: &FilePath) -> Result<FileMeta, IoError> {
        self.inner.metadata(p)
    }

    fn symlink_metadata(&mut self, p: &FilePath) -> Result<FileMeta, IoError> {
        self.inner.symlink_metadata(p)
    }

    fn read_link(&mut self, p: &FilePath) -> Result<FilePath, IoError> {
        self.inner.read_link(p)
    }

    fn file_id(&mut self, p: &FilePath) -> Result<FileId, IoError> {
        self.inner.file_id(p)
    }

    fn read_dir(&mut self, p: &FilePath) -> Result<Vec<Result<DirEntry, IoError>>, IoError> {
        self.inner.read_dir(p)
    }

    fn is_dir_empty(&mut self, p: &FilePath) -> Result<bool, IoError> {
        self.inner.is_dir_empty(p)
    }

    fn volume_semantics(&mut self, p: &FilePath) -> Result<VolumeSemantics, IoError> {
        self.inner.volume_semantics(p)
    }

    fn create_dir_all(&mut self, p: &FilePath) -> Result<(), IoError> {
        self.inner.create_dir_all(p)
    }

    fn rename_no_replace(&mut self, from: &FilePath, to: &FilePath) -> Result<(), IoError> {
        self.renames += 1;
        self.inner.rename_no_replace(from, to)
    }

    fn rename_replace(&mut self, from: &FilePath, to: &FilePath) -> Result<(), IoError> {
        self.inner.rename_replace(from, to)
    }

    fn create_new(&mut self, p: &FilePath) -> Result<MemHandle, IoError> {
        self.inner.create_new(p)
    }

    fn copy_into(
        &mut self,
        from: &FilePath,
        handle: &mut MemHandle,
        cancel: &CancelToken,
    ) -> Result<u64, IoError> {
        self.copies += 1;
        self.inner.copy_into(from, handle, cancel)
    }

    fn sync_dir(&mut self, p: &FilePath) -> Result<(), IoError> {
        self.inner.sync_dir(p)
    }

    fn set_mtime(&mut self, p: &FilePath, t: Stamp) -> Result<(), IoError> {
        self.inner.set_mtime(p, t)
    }

    fn remove_file(&mut self, p: &FilePath) -> Result<(), IoError> {
        self.inner.remove_file(p)
    }

    fn remove_dir(&mut self, p: &FilePath) -> Result<(), IoError> {
        self.inner.remove_dir(p)
    }

    fn hash(
        &mut self,
        p: &FilePath,
        cancel: &CancelToken,
    ) -> Result<media_manager::domain::fs::Hash, IoError> {
        self.inner.hash(p, cancel)
    }

    fn no_replace_strategy(&mut self, _p: &FilePath) -> NoReplaceStrategy {
        NoReplaceStrategy::Reserve
    }

    fn pause(&mut self) {}
}

#[test]
fn volume_decides_the_strategy_unless_it_is_set() {
    let (from, to) = (path("/lib/a.mkv"), path("/lib/b.mkv"));
    for (strategy, renames, copies) in [
        (StrategyConfig::Auto, 0, 1),
        (StrategyConfig::Reserve, 0, 1),
        (StrategyConfig::Native, 1, 0),
        (StrategyConfig::CheckThenRename, 1, 0),
    ] {
        let mut cfg = Config::default();
        cfg.moves.no_replace_strategy = strategy;
        let mut fs = Reserving { inner: seeded(&["/lib/a.mkv"]), renames: 0, copies: 0 };
        let mut j = Journal::create(&path("/journal/journal.jsonl"), NoStore::new());
        let r = move_one(&mut fs, &empty_plan(), &cfg, &options(), &mut j, &from, &to).unwrap();
        assert!(matches!(r, MoveResult::Moved { .. }), "{r:?}");
        assert_eq!((fs.renames, fs.copies), (renames, copies), "{strategy:?}");
        assert_eq!(fs.inner.read(&to), Some(b"/lib/a.mkv".to_vec()));
    }
    let mut fs = seeded(&["/lib/a.mkv"]);
    assert_eq!(fs.no_replace_strategy(&path("/lib")), NoReplaceStrategy::Native);
}

#[test]
fn path_keeps_its_identity() {
    let mut fs = seeded(&["/lib/a.mkv", "/lib/b.mkv"]);
    let a = fs.file_id(&path("/lib/a.mkv")).unwrap();
    let b = fs.file_id(&path("/lib/b.mkv")).unwrap();
    assert!(a != b);
    assert_eq!(fs.file_id(&path("/lib/a.mkv")).unwrap(), a);
    assert_eq!(fs.file_id(&path("/lib/b.mkv")).unwrap(), b);
    assert!(fs.file_id(&path("/lib/c.mkv")).is_err());
}

/// Finds a resolution, and counts how often it is asked.
struct Counting(u64);

impl Prober for Counting {
    fn probe_path(&mut self, _path: &FilePath) -> Option<ProbeOutcome> {
        self.0 += 1;
        let video = VideoProbe { resolution: Some(format!("{}p", self.0)), codec: None };
        Some(ProbeOutcome::Probed(Probe { video: Some(video), audio: None }))
    }

    fn probe_audio_path(&mut self, _path: &FilePath) -> Option<ProbeOutcome> {
        None
    }
}

#[test]
fn probe_is_kept_by_identity_length_and_time() {
    let mut fs = seeded(&["/lib/a.mkv", "/lib/b.mkv"]);
    let mut prober = Counting(0);
    let mut cache = open_cache();
    let mut notes = Vec::new();
    let (a, b) = (path("/lib/a.mkv"), path("/lib/b.mkv"));
    let mut resolution = |fs: &mut MemFs, p: &FilePath| {
        let r = cached_or_probe(fs, &mut prober, p, ItemId(0), false, &mut cache, &mut notes);
        r.unwrap().video.unwrap().resolution.unwrap()
    };
    assert_eq!(resolution(&mut fs, &a), "1p");
    assert_eq!(resolution(&mut fs, &a), "1p");
    assert_eq!(resolution(&mut fs, &b), "2p");
    fs.set_mtime(&a, Stamp { secs: 5, nanos: 0 }).unwrap();
    assert_eq!(resolution(&mut fs, &a), "3p");
    fs.set_mtime(&b, Stamp { secs: 5, nanos: 0 }).unwrap();
    assert_eq!(resolution(&mut fs, &b), "4p");
    assert_eq!(resolution(&mut fs, &a), "3p");
    assert!(notes.is_empty());

    let key = CacheKey {
        file: fs.file_id(&a).unwrap(),
        len: 10,
        modified: Some(Stamp { secs: 5, nanos: 0 }),
    };
    assert!(cache.get(&key).is_some());
    assert!(cache.get(&CacheKey { len: 11, ..key }).is_none());
}
