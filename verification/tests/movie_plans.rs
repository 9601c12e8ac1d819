use media_manager::domain::classify::{FileClass, MediaKind};
use media_manager::domain::config::{Config, ConflictPolicy};
use media_manager::domain::fs::faulty::{Fault, FaultyFs, InjectErr, Method};
use media_manager::domain::fs::mem::MemFs;
use media_manager::domain::identity::SourcePreference;
use media_manager::domain::path::FilePath;
use media_manager::domain::plan::{Action, FieldName, Plan, PlanItem, Readiness, SkipReason};
use media_manager::domain::provenance::{Confidence, Field, Source};
use media_manager::domain::volume::VolumeSemantics;
use media_manager::engine::music_plan::plan_music;
use media_manager::engine::music_resolve::AudioTags;
use media_manager::engine::planner::{PlanOptions, Planner};
use media_manager::engine::probe_stage::{
    NoProber, Probe, ProbeOutcome, Prober, VideoProbe, CONTAINER_PROBING_UNAVAILABLE,
};
use media_manager::engine::resolve::merge_field;
use media_manager::engine::scan::{glob_match, is_ignored, scan, scan_noting};
use media_manager::engine::validate::{validate_destination, Validation};

fn path(s: &str) -> FilePath {
    FilePath::new(s)
}

fn seeded(files: &[&str]) -> MemFs {
    let mut fs = MemFs::new();
    for p in files {
        fs.seed_file(&path(p), p.as_bytes().to_vec());
    }
    fs
}

fn plan_movies(fs: &mut MemFs, cfg: &Config) -> Plan {
    let root = path("/lib");
    let planner = Planner::new(fs, &root, MediaKind::Movies, cfg, "cfg").unwrap();
    planner.plan(fs, PlanOptions::default()).unwrap()
}

fn item<'a>(plan: &'a Plan, name: &str) -> &'a PlanItem {
    plan.items
        .iter()
        .find(|i| i.source.file_name() == Some(name))
        .expect("planned item")
}

fn goes_to(i: &PlanItem) -> String {
    match &i.action {
        Action::Move { to, .. } => to.to_text(),
        other => panic!("expected Move, got {other:?}"),
    }
}

#[test]
fn container_header_beats_filename_resolution() {
    let prefs = SourcePreference::conservative_default();
    let filename = Field::known("720p".to_string(), Source::Filename, Confidence::High);
    let container = Field::known("1080p".to_string(), Source::ContainerHeader, Confidence::High);
    let best = merge_field(&filename, container, &prefs);
    assert_eq!(best.as_value().map(String::as_str), Some("1080p"));
    assert_eq!(best.source(), Some(Source::ContainerHeader));
}

#[test]
fn glob_matching() {
    assert!(glob_match("*.part", "movie.part"));
    assert!(glob_match(".Trash*", ".Trash-100"));
    assert!(!glob_match("*.part", "movie.mkv"));
}

#[test]
fn globs_match_inside_and_single_characters() {
    assert!(glob_match("a*c", "abbbc"));
    assert!(glob_match("a*b*c", "aXbYc"));
    assert!(!glob_match("a*c", "abd"));
    assert!(glob_match("*", ""));
    assert!(glob_match("plain", "plain"));
    assert!(!glob_match("plain", "plainer"));
}

#[test]
fn scanning_passes_over_what_is_ignored() {
    let mut fs = seeded(&["/lib/a.mkv", "/lib/b.part", "/lib/.Trash-100/c.mkv", "/lib/sub/d.srt"]);
    let files = scan(&mut fs, &path("/lib"), &Config::default()).unwrap();
    let mut names: Vec<String> = files.iter().map(|f| f.relative.to_text()).collect();
    names.sort();
    assert_eq!(names, vec!["a.mkv", "sub/d.srt"]);
    assert!(is_ignored(&path("b.part"), "b.part"));
    assert!(!is_ignored(&path("a.mkv"), "a.mkv"));
}

#[test]
fn unreadable_root_is_an_error() {
    let mut fs = MemFs::new();
    assert!(scan(&mut fs, &path("/nowhere"), &Config::default()).is_err());
}

#[test]
fn unreadable_directory_is_noted_and_passed_over() {
    let mem = seeded(&["/lib/a.mkv", "/lib/sub/b.mkv"]);
    let mut fs = FaultyFs::with_faults(
        mem,
        vec![Fault {
            call_index: 2,
            method: Method::ReadDir,
            err: InjectErr::PermissionDenied,
        }],
    );
    let mut notes = Vec::new();
    let files = scan_noting(&mut fs, &path("/lib"), &Config::default(), &mut notes).unwrap();
    assert_eq!(files.len(), 1);
    assert_eq!(notes.len(), 1);
}

#[test]
fn movie_goes_under_its_own_directory() {
    let mut fs = seeded(&["/lib/Inception.2010.1080p.BluRay.x264.mkv"]);
    let plan = plan_movies(&mut fs, &Config::default());
    assert_eq!(plan.items.len(), 1);
    let to = goes_to(&plan.items[0]);
    assert!(to.starts_with("/lib/Inception (2010)/Inception (2010)"), "{to}");
    assert!(to.ends_with(".mkv"));
    assert_eq!(plan.stats.total, 1);
    assert_eq!(plan.stats.ready, 1);
}

#[test]
fn movie_without_a_year_needs_review() {
    let mut fs = seeded(&["/lib/Inception.mkv"]);
    let plan = plan_movies(&mut fs, &Config::default());
    match &plan.items[0].readiness {
        Readiness::NeedsReview { missing, .. } => assert!(missing.contains(&FieldName::Year)),
        other => panic!("{other:?}"),
    }
    assert!(matches!(plan.items[0].action, Action::NeedsReview { .. }));
}

#[test]
fn subtitle_follows_the_movie_of_its_name() {
    let mut fs = seeded(&["/lib/Inception.2010.mkv", "/lib/Inception.2010.srt", "/lib/other.srt"]);
    let plan = plan_movies(&mut fs, &Config::default());
    let to = goes_to(item(&plan, "Inception.2010.srt"));
    assert!(to.starts_with("/lib/Inception (2010)/"), "{to}");
    assert!(to.ends_with(".srt"));
    assert!(matches!(item(&plan, "other.srt").action, Action::NeedsReview { .. }));
}

#[test]
fn artwork_and_metadata_follow_the_one_movie_there() {
    let mut fs = seeded(&["/lib/x/Inception.2010.mkv", "/lib/x/poster.jpg", "/lib/x/movie.nfo"]);
    let plan = plan_movies(&mut fs, &Config::default());
    for name in ["poster.jpg", "movie.nfo"] {
        let to = goes_to(item(&plan, name));
        assert!(to.starts_with("/lib/Inception (2010)/"), "{to}");
    }
}

#[test]
fn artwork_among_several_movies_needs_review() {
    let mut fs = seeded(&["/lib/x/Inception.2010.mkv", "/lib/x/Up.2009.mkv", "/lib/x/poster.jpg"]);
    let plan = plan_movies(&mut fs, &Config::default());
    assert!(matches!(item(&plan, "poster.jpg").action, Action::NeedsReview { .. }));

    let mut fs = seeded(&["/lib/x/Inception.2010.mkv", "/lib/x/1080p.mkv", "/lib/x/poster.jpg"]);
    let plan = plan_movies(&mut fs, &Config::default());
    assert!(matches!(item(&plan, "1080p.mkv").action, Action::NeedsReview { .. }));
    assert!(matches!(item(&plan, "poster.jpg").action, Action::NeedsReview { .. }));

    let mut fs = seeded(&["/lib/x/Inception.2010.mkv", "/lib/x/extra.srt"]);
    let plan = plan_movies(&mut fs, &Config::default());
    assert!(matches!(item(&plan, "extra.srt").action, Action::NeedsReview { .. }));
}

#[test]
fn movie_in_its_place_stays() {
    let mut fs = seeded(&["/lib/Inception (2010)/Inception (2010).mkv"]);
    let plan = plan_movies(&mut fs, &Config::default());
    assert!(matches!(plan.items[0].action, Action::NoOp), "{:?}", plan.items[0].action);
    assert_eq!(plan.stats.noop, 1);
}

#[test]
fn two_sources_for_one_place_never_both_move() {
    let mut fs = seeded(&["/lib/a/Inception.2010.mkv", "/lib/b/Inception.2010.mkv"]);
    let plan = plan_movies(&mut fs, &Config::default());
    let moves = plan.items.iter().filter(|i| matches!(i.action, Action::Move { .. })).count();
    assert!(moves <= 1, "{:?}", plan.items);
}

#[test]
fn identical_files_are_duplicates() {
    let mut fs = MemFs::new();
    fs.seed_file(&path("/lib/a/Inception.2010.mkv"), b"same".to_vec());
    fs.seed_file(&path("/lib/b/Inception.2010.1080p.mkv"), b"same".to_vec());
    let plan = plan_movies(&mut fs, &Config::default());
    assert!(plan.items.iter().any(|i| matches!(i.action, Action::Duplicate { .. })), "{:?}", plan.items);
}

#[test]
fn conflict_policies_decide_what_an_occupant_means() {
    let dest = "/lib/Inception (2010)/Inception (2010).mkv";
    let source = "/lib/Inception.2010.mkv";
    for policy in [ConflictPolicy::Report, ConflictPolicy::Skip, ConflictPolicy::RenameNew] {
        let mut fs = seeded(&[source, dest]);
        let mut cfg = Config::default();
        cfg.conflict.policy = policy;
        let plan = plan_movies(&mut fs, &cfg);
        let action = &item(&plan, "Inception.2010.mkv").action;
        match policy {
            ConflictPolicy::Report => assert!(matches!(action, Action::Conflict { .. })),
            ConflictPolicy::Skip => {
                assert!(matches!(action, Action::Skip { reason: SkipReason::Conflict }))
            }
            _ => match action {
                Action::Move { to, .. } => assert_ne!(to.to_text(), dest),
                other => panic!("{other:?}"),
            },
        }
    }
}

#[test]
fn unknown_files_are_left_alone() {
    let mut fs = seeded(&["/lib/notes.xyz"]);
    let plan = plan_movies(&mut fs, &Config::default());
    assert!(plan.items.iter().all(|i| !matches!(i.action, Action::Move { .. })));
}

#[test]
fn destinations_are_validated() {
    let volume = VolumeSemantics::conservative();
    let root = path("/lib");
    let (v, notes) = validate_destination(
        &root,
        &path("/lib/a.mkv"),
        &path("/lib/A/a.mkv"),
        &path("A/a.mkv"),
        &volume,
    );
    assert!(matches!(v, Validation::Passed), "{v:?}");
    assert!(notes.is_empty());
    let (v, _) = validate_destination(
        &root,
        &path("/lib/a.mkv"),
        &path("/lib/../etc/a.mkv"),
        &path("../etc/a.mkv"),
        &volume,
    );
    assert!(matches!(v, Validation::ContainmentBreach { .. }), "{v:?}");
    let long = "x".repeat(40_000);
    let (v, _) = validate_destination(
        &root,
        &path("/lib/a.mkv"),
        &path(&format!("/lib/{long}")),
        &path(&long),
        &volume,
    );
    assert!(matches!(v, Validation::TooLong { .. }), "{v:?}");
    let (v, _) = validate_destination(
        &root,
        &path("/lib/a.mkv"),
        &path("/lib/a.mkv"),
        &path("a.mkv"),
        &volume,
    );
    assert!(matches!(v, Validation::NoOp), "{v:?}");
}

struct FixedProber(AudioTags);

impl Prober for FixedProber {
    fn probe_path(&mut self, _path: &FilePath) -> Option<ProbeOutcome> {
        Some(ProbeOutcome::Probed(Probe {
            video: Some(VideoProbe {
                resolution: Some("2160p".to_string()),
                codec: Some("HEVC".to_string()),
            }),
            audio: None,
        }))
    }

    fn probe_audio_path(&mut self, _path: &FilePath) -> Option<ProbeOutcome> {
        Some(ProbeOutcome::Probed(Probe { video: None, audio: Some(self.0.clone()) }))
    }
}

#[test]
fn container_facts_reach_the_name() {
    let mut fs = seeded(&["/lib/Inception.2010.720p.mkv"]);
    let cfg = Config::default();
    let root = path("/lib");
    let planner = Planner::new(&mut fs, &root, MediaKind::Movies, &cfg, "cfg").unwrap();
    let mut prober = FixedProber(AudioTags::default());
    let plan = planner.plan_with(&mut fs, &mut prober, PlanOptions::default()).unwrap();
    let to = goes_to(&plan.items[0]);
    assert!(!to.contains("720p"), "{to}");
}

#[test]
fn missing_prober_is_noted() {
    let mut fs = seeded(&["/lib/Inception.2010.mkv"]);
    let plan = plan_movies(&mut fs, &Config::default());
    assert!(!CONTAINER_PROBING_UNAVAILABLE.is_empty());
    assert_eq!(goes_to(&plan.items[0]), "/lib/Inception (2010)/Inception (2010).mkv");
}

#[test]
fn tagless_track_without_album_info_needs_review() {
    let mut fs = MemFs::new();
    fs.seed_dir(&path("/music"));
    fs.seed_file(&path("/music/01 - Some Song.mp3"), b"not real audio".to_vec());
    let cfg = Config::default();
    let root = path("/music");
    let planner = Planner::new(&mut fs, &root, MediaKind::Music, &cfg, "cfg").unwrap();
    let plan = plan_music(&planner, &mut fs, &mut NoProber, PlanOptions::default()).unwrap();
    assert_eq!(plan.items.len(), 1);
    match &plan.items[0].action {
        Action::NeedsReview { .. } => {}
        other => panic!("expected NeedsReview without album/artist tags, got {other:?}"),
    }
}

#[test]
fn tagged_track_goes_under_artist_and_album() {
    let mut fs = MemFs::new();
    fs.seed_file(&path("/music/x.mp3"), b"bytes".to_vec());
    let cfg = Config::default();
    let root = path("/music");
    let planner = Planner::new(&mut fs, &root, MediaKind::Music, &cfg, "cfg").unwrap();
    let mut prober = FixedProber(AudioTags {
        album_artist: Some("Nina Simone".to_string()),
        album: Some("Wild Is the Wind".to_string()),
        title: Some("Four Women".to_string()),
        year: Some(1966),
        track: Some(3),
        ..Default::default()
    });
    let plan = plan_music(&planner, &mut fs, &mut prober, PlanOptions::default()).unwrap();
    assert_eq!(
        goes_to(&plan.items[0]),
        "/music/Nina Simone/Wild Is the Wind (1966)/03 - Four Women.mp3"
    );
    assert_eq!(plan.items[0].class, FileClass::Audio);
}

#[test]
fn moves_of_a_plan_stay_under_the_root() {
    let mut fs = seeded(&[
        "/lib/Inception.2010.mkv",
        "/lib/x/Up (2009) [1080p].mkv",
        "/lib/..weird.2001.mkv",
        "/lib/CON (1999).mkv",
    ]);
    let plan = plan_movies(&mut fs, &Config::default());
    let root = path("/lib");
    for i in &plan.items {
        if let Action::Move { to, .. } = &i.action {
            assert!(to.starts_with(&root), "{}", to.to_text());
        }
    }
}

#[test]
fn unhashed_files_are_said_and_not_compared() {
    let mut mem = MemFs::new();
    mem.seed_file(&path("/lib/a/Inception.2010.mkv"), b"same".to_vec());
    mem.seed_file(&path("/lib/b/Inception.2010.1080p.mkv"), b"same".to_vec());
    let mut fs = FaultyFs::with_faults(
        mem,
        vec![Fault { call_index: 1, method: Method::Hash, err: InjectErr::PermissionDenied }],
    );
    let root = path("/lib");
    let cfg = Config::default();
    let planner = Planner::new(&mut fs, &root, MediaKind::Movies, &cfg, "cfg").unwrap();
    let plan = planner.plan(&mut fs, PlanOptions::default()).unwrap();
    assert!(!plan.items.iter().any(|i| matches!(i.action, Action::Duplicate { .. })));
    let note = plan.diagnostics.last().unwrap();
    assert!(note.message.starts_with("could not hash /lib/"), "{}", note.message);
    assert!(note.message.ends_with("; not checked for duplicates"));
    assert!(note.item.is_some());
}

#[test]
fn directory_of_another_case_is_renamed() {
    let mut fs = MemFs::with_volume(VolumeSemantics::ntfs());
    fs.seed_file(&path("/lib/inception (2010)/Inception.2010.mkv"), b"1".to_vec());
    let plan = plan_movies(&mut fs, &Config::default());
    assert_eq!(plan.dir_renames.len(), 1, "{:?}", plan.dir_renames);
    assert_eq!(plan.dir_renames[0].from.to_text(), "/lib/inception (2010)");
    assert_eq!(plan.dir_renames[0].to.to_text(), "/lib/Inception (2010)");
}

#[test]
fn empty_library_is_said_to_be() {
    let mut fs = MemFs::new();
    fs.seed_dir(&path("/lib"));
    let plan = plan_movies(&mut fs, &Config::default());
    assert!(plan.items.is_empty());
    assert_eq!(plan.diagnostics.len(), 1);
    assert_eq!(plan.diagnostics[0].message, "no files found");
}
