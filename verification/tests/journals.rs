use media_manager::domain::classify::MediaKind;
use media_manager::domain::error::FatalReason;
use media_manager::domain::fs::Stamp;
use media_manager::domain::path::FilePath;
use media_manager::domain::plan::Plan;
use media_manager::domain::run_id::RunId;
use media_manager::domain::volume::VolumeSemantics;
use media_manager::engine::calendar::{civil_from_unix, rfc3339_from, rfc3339_now};
use media_manager::engine::journal::{Journal, JournalEntry, JournalOp, JournalStore, NoStore};

fn path(s: &str) -> FilePath {
    FilePath::new(s)
}

struct Full;

impl JournalStore for Full {
    fn append(&mut self, _entry: &JournalEntry) -> Result<(), String> {
        Err("disk full".to_string())
    }

    fn save_plan(&mut self, _dest: &FilePath, _plan: &Plan) -> Result<(), String> {
        Err("disk full".to_string())
    }
}

#[test]
fn rfc3339_is_well_formed() {
    let s = rfc3339_from(Stamp { secs: 0, nanos: 0 });
    assert_eq!(s, "1970-01-01T00:00:00.000Z");
    let s = rfc3339_now();
    assert!(s.contains('T') && s.ends_with('Z') && s.len() >= 24);
}

#[test]
fn dates_follow_the_calendar() {
    assert_eq!(
        rfc3339_from(Stamp { secs: 951_827_696, nanos: 123_000_000 }),
        "2000-02-29T12:34:56.123Z"
    );
    let c = civil_from_unix(1_709_251_199);
    assert_eq!((c.year, c.month, c.day), (2024, 2, 29));
    assert_eq!((c.hour, c.minute, c.second), (23, 59, 59));
}

#[test]
fn intent_without_outcome_is_unmatched() {
    let mut j = Journal::create(&path("/data/journal.jsonl"), NoStore::new());
    j.bind(RunId::fresh(), path("/lib"), "deadbeef".to_string());
    let seq = j
        .write_intent(JournalOp::Move, Some(&path("a.mkv")), Some(&path("b.mkv")))
        .unwrap();
    assert_eq!(j.unmatched_intents(None).len(), 1);
    j.write_outcome(seq, JournalOp::Move, None, None, "SUCCESS", Some(12), None)
        .unwrap();
    assert!(j.unmatched_intents(None).is_empty());
}

#[test]
fn unmatched_intents_scoped_by_root() {
    let mut j = Journal::create(&path("/data/journal.jsonl"), NoStore::new());
    let root_a = path("/data/a");
    let root_b = path("/data/b");
    j.bind(RunId::fresh(), root_a.clone(), "x".to_string());
    j.write_intent(JournalOp::Move, Some(&path("a")), Some(&path("b")))
        .unwrap();
    j.bind(RunId::fresh(), root_b.clone(), "x".to_string());
    j.write_intent(JournalOp::Move, Some(&path("c")), Some(&path("d")))
        .unwrap();
    assert_eq!(j.unmatched_intents(Some(&root_a)).len(), 1);
    assert_eq!(j.unmatched_intents(None).len(), 2);
}

#[test]
fn numbering_goes_on_where_a_journal_ended() {
    let mut j = Journal::create(&path("/data/journal.jsonl"), NoStore::new());
    j.bind(RunId::nil(), path("/lib"), "x".to_string());
    let first = j.write_intent(JournalOp::DirCreate, None, Some(&path("/lib/a"))).unwrap();
    let kept: Vec<JournalEntry> = j.entries().clone();
    let mut again = Journal::open(&path("/data/journal.jsonl"), kept, NoStore::new());
    again.bind(RunId::nil(), path("/lib"), "x".to_string());
    let next = again.write_intent(JournalOp::DirCreate, None, Some(&path("/lib/b"))).unwrap();
    assert!(next > first);
    assert_eq!(again.unmatched_intents(None).len(), 2);
}

#[test]
fn unwritable_journal_is_fatal() {
    let mut j = Journal::create(&path("/data/journal.jsonl"), Full);
    j.bind(RunId::nil(), path("/lib"), "x".to_string());
    match j.write_intent(JournalOp::Move, None, None) {
        Err(FatalReason::JournalUnwritable { why, .. }) => assert_eq!(why, "disk full"),
        other => panic!("{other:?}"),
    }
    let plan = Plan::new(
        RunId::nil(),
        path("/lib"),
        MediaKind::Movies,
        "x".to_string(),
        VolumeSemantics::conservative(),
    );
    assert!(j.persist_plan(&plan).is_err());
}

#[test]
fn plan_is_kept_next_to_the_journal() {
    let mut j = Journal::create(&path("/data/journal.jsonl"), NoStore::new());
    let plan = Plan::new(
        RunId::nil(),
        path("/lib"),
        MediaKind::Movies,
        "abc".to_string(),
        VolumeSemantics::conservative(),
    );
    let dest = j.persist_plan(&plan).unwrap();
    assert!(dest.starts_with(j.dir()));
    assert_eq!(dest.extension(), Some("json".to_string()));
}

#[test]
fn run_ids_are_written_two_ways() {
    let id = RunId(0x0123_4567_89ab_cdef_0123_4567_89ab_cdef);
    assert_eq!(id.simple(), "0123456789abcdef0123456789abcdef");
    assert_eq!(id.hyphenated(), "01234567-89ab-cdef-0123-456789abcdef");
    assert!(RunId::fresh() != RunId::nil());
}
