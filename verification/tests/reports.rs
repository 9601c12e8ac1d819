use media_manager::domain::classify::{is_artwork_stem, is_metadata_ext, FileClass, MediaKind};
use media_manager::domain::error::{CoreError, FatalReason, Outcome, RunMode, RunReport, Severity};
use media_manager::domain::fs::{IoError, IoKind};
use media_manager::domain::path::FilePath;
use media_manager::domain::plan::{Action, ExistingInfo, FieldName, Plan, SkipReason};
use media_manager::domain::run_id::RunId;
use media_manager::domain::volume::VolumeSemantics;
use media_manager::engine::render::{action_label, render_text};

fn report() -> RunReport {
    RunReport::new(RunId::nil(), RunMode::Apply, MediaKind::Movies, FilePath::new("/media"))
}

#[test]
fn renders_summary() {
    let plan = Plan::new(
        RunId::nil(),
        FilePath::new("/media"),
        MediaKind::Movies,
        "abc123".to_string(),
        VolumeSemantics::conservative(),
    );
    let txt = render_text(&plan, false);
    assert!(txt.contains("Plan for /media"));
}

#[test]
fn highest_exit_code_wins() {
    let mut r = report();
    assert_eq!(r.exit_code(false), 0);
    r.pending_count(Outcome::Moved);
    assert_eq!(r.exit_code(false), 10);
    r.count(Outcome::Skipped);
    assert_eq!(r.exit_code(false), 10);
    assert_eq!(r.exit_code(true), 20);
    r.count(Outcome::NeedsReview);
    assert_eq!(r.exit_code(false), 20);
    r.count(Outcome::Duplicated);
    assert_eq!(r.exit_code(false), 25);
    r.count(Outcome::Conflicted);
    assert_eq!(r.exit_code(false), 30);
    r.count(Outcome::Failed);
    assert_eq!(r.exit_code(false), 40);
    r.fatal = Some(FatalReason::ContainmentBreach { path: FilePath::new("/etc") });
    assert_eq!(r.exit_code(false), 50);
    r.cancelled = true;
    assert_eq!(r.exit_code(false), 130);
    assert_eq!(r.total(Outcome::Skipped), 1);
}

#[test]
fn outcomes_have_names_and_severities() {
    assert_eq!(Outcome::Moved.as_str(), "moved");
    assert_eq!(Outcome::Failed.severity(), Severity::Failure);
    assert_eq!(Outcome::Moved.severity(), Severity::Info);
}

#[test]
fn actions_have_labels() {
    let p = FilePath::new("/a");
    let q = FilePath::new("/b");
    let existing = ExistingInfo { path: FilePath::new("/b"), len: 3, blake3: None };
    for a in [
        Action::NoOp,
        Action::Move { from: p.clone(), to: q.clone() },
        Action::Skip { reason: SkipReason::Identical },
        Action::Conflict { from: p.clone(), to: q.clone(), existing },
        Action::Duplicate { from: p.clone(), identical_to: q.clone() },
        Action::NeedsReview { path: p.clone(), missing: vec![FieldName::Year] },
    ] {
        assert!(!action_label(&a).is_empty());
    }
    assert_eq!(FieldName::Year.as_str(), "year");
}

#[test]
fn errors_say_what_happened() {
    let e = CoreError::Io(IoError::new(IoKind::NotFound, "gone"));
    assert!(e.message().contains("gone"));
    let e = CoreError::DestinationOccupied(FilePath::new("/lib/x"));
    assert!(e.message().contains("/lib/x"));
    let e = CoreError::InvalidConfig("bad".to_string());
    assert!(e.message().contains("bad"));
}

#[test]
fn kinds_are_read_by_name() {
    assert_eq!(MediaKind::parse("movies"), Some(MediaKind::Movies));
    assert_eq!(MediaKind::parse("tv"), Some(MediaKind::Tv));
    assert_eq!(MediaKind::parse("music"), Some(MediaKind::Music));
    assert_eq!(MediaKind::parse("books"), None);
    assert_eq!(MediaKind::Tv.as_str(), "tv");
    assert_eq!(FileClass::Subtitle.as_str(), "subtitle");
    assert!(is_artwork_stem("poster"));
    assert!(!is_artwork_stem("holiday"));
    assert!(is_metadata_ext("nfo"));
}
