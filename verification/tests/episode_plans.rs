use media_manager::domain::classify::{FileClass, MediaKind};
use media_manager::domain::config::Config;
use media_manager::domain::fs::mem::MemFs;
use media_manager::domain::path::FilePath;
use media_manager::domain::plan::{Action, Readiness};
use media_manager::engine::planner::{PlanOptions, Planner};

fn cfg() -> Config {
    Config::default()
}

#[test]
fn plans_single_episode_end_to_end() {
    let mut fs = MemFs::new();
    fs.seed_file(&FilePath::new("/lib/Show.Name.S01E01.1080p.WEB.x264.mkv"), vec![0u8; 16]);
    let cfg = cfg();
    let root = FilePath::new("/lib");
    let planner = Planner::new(&mut fs, &root, MediaKind::Tv, &cfg, "cfg").unwrap();
    let plan = planner.plan(&mut fs, PlanOptions::default()).unwrap();
    let item = plan
        .items
        .iter()
        .find(|i| i.class == FileClass::Video)
        .expect("video item");
    match &item.action {
        Action::Move { to, .. } => {
            let s = to.to_text();
            assert!(s.contains("Show Name"), "got {s}");
            assert!(s.contains("Season 01"), "got {s}");
            assert!(s.contains("S01E01"), "got {s}");
        }
        other => panic!("expected Move, got {other:?}"),
    }
}

#[test]
fn specials_route_under_specials_dir_not_season_00() {
    let mut fs = MemFs::new();
    fs.seed_file(&FilePath::new("/lib/Show.Name.S00E01.mkv"), vec![0u8; 16]);
    let cfg = cfg();
    let root = FilePath::new("/lib");
    let planner = Planner::new(&mut fs, &root, MediaKind::Tv, &cfg, "cfg").unwrap();
    let plan = planner.plan(&mut fs, PlanOptions::default()).unwrap();
    let item = plan
        .items
        .iter()
        .find(|i| i.class == FileClass::Video)
        .expect("video item");
    match &item.action {
        Action::Move { to, .. } => {
            let s = to.to_text();
            assert!(s.contains("Specials"), "got {s}");
            assert!(!s.contains("Season 00"), "got {s}");
        }
        other => panic!("expected Move, got {other:?}"),
    }
}

#[test]
fn multi_episode_file_is_not_split() {
    let mut fs = MemFs::new();
    fs.seed_file(&FilePath::new("/lib/Show.Name.S01E01-E02.mkv"), vec![0u8; 16]);
    let cfg = cfg();
    let root = FilePath::new("/lib");
    let planner = Planner::new(&mut fs, &root, MediaKind::Tv, &cfg, "cfg").unwrap();
    let plan = planner.plan(&mut fs, PlanOptions::default()).unwrap();
    let item = plan
        .items
        .iter()
        .find(|i| i.class == FileClass::Video)
        .expect("video item");
    match &item.action {
        Action::Move { to, .. } => {
            let s = to.to_text();
            assert!(s.contains("S01E01E02"), "multi-episode must not split, got {s}");
        }
        other => panic!("expected Move, got {other:?}"),
    }
}

#[test]
fn subtitle_is_associated_by_episode_id_not_sole_video() {
    let mut fs = MemFs::new();
    fs.seed_file(&FilePath::new("/lib/Show.Name.S01E01.mkv"), vec![0u8; 16]);
    fs.seed_file(&FilePath::new("/lib/Show.Name.S01E02.mkv"), vec![0u8; 16]);
    fs.seed_file(&FilePath::new("/lib/Show.Name.S01E02.en.srt"), vec![0u8; 16]);
    let cfg = cfg();
    let root = FilePath::new("/lib");
    let planner = Planner::new(&mut fs, &root, MediaKind::Tv, &cfg, "cfg").unwrap();
    let plan = planner.plan(&mut fs, PlanOptions::default()).unwrap();
    let sub = plan
        .items
        .iter()
        .find(|i| i.class == FileClass::Subtitle)
        .expect("subtitle item");
    match &sub.action {
        Action::Move { to, .. } => {
            let s = to.to_text();
            assert!(s.contains("S01E02"), "subtitle must follow its own episode id, got {s}");
        }
        other => panic!("expected Move, got {other:?}"),
    }
}

#[test]
fn orphan_subtitle_with_no_evidence_is_not_associated() {
    let mut fs = MemFs::new();
    fs.seed_file(&FilePath::new("/lib/Show.Name.S01E01.mkv"), vec![0u8; 16]);
    fs.seed_file(&FilePath::new("/lib/completely.unrelated.en.srt"), vec![0u8; 16]);
    let cfg = cfg();
    let root = FilePath::new("/lib");
    let planner = Planner::new(&mut fs, &root, MediaKind::Tv, &cfg, "cfg").unwrap();
    let plan = planner.plan(&mut fs, PlanOptions::default()).unwrap();
    let sub = plan
        .items
        .iter()
        .find(|i| i.class == FileClass::Subtitle)
        .expect("subtitle item");
    assert!(
        matches!(sub.readiness, Readiness::NeedsReview { .. }),
        "orphan subtitle must be reported, not silently attached: {:?}",
        sub.readiness
    );
}

#[test]
fn absolute_numbering_needs_review_not_a_guess() {
    let mut fs = MemFs::new();
    fs.seed_file(&FilePath::new("/lib/Show Name - 137.mkv"), vec![0u8; 16]);
    let cfg = cfg();
    let root = FilePath::new("/lib");
    let planner = Planner::new(&mut fs, &root, MediaKind::Tv, &cfg, "cfg").unwrap();
    let plan = planner.plan(&mut fs, PlanOptions::default()).unwrap();
    let item = plan
        .items
        .iter()
        .find(|i| i.class == FileClass::Video)
        .expect("video item");
    assert!(
        matches!(item.readiness, Readiness::Ambiguous { .. }),
        "ambiguous absolute numbering must not silently become a Move: {:?}",
        item.readiness
    );
    assert!(matches!(item.action, Action::NeedsReview { .. }));
}
