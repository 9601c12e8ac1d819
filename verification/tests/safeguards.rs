use media_manager::domain::classify::MediaKind;
use media_manager::domain::config::{Config, StrategyConfig, VerifyMode};
use media_manager::domain::error::{RunMode, RunReport};
use media_manager::domain::fs::faulty::{Fault, FaultyFs, InjectErr, Method};
use media_manager::domain::fs::mem::MemFs;
use media_manager::domain::fs::{CancelToken, FileSystem, IoKind, Stamp};
use media_manager::domain::path::{
    is_reserved_device_name, sanitise_component, FilePath, SanitiseMap,
};
use media_manager::domain::plan::Readiness;
use media_manager::domain::provenance::{Confidence, Field, Source};
use media_manager::domain::run_id::RunId;
use media_manager::domain::volume::{ComponentLimit, VolumeSemantics};
use media_manager::engine::exec::moves::{
    move_native, move_replace, move_reserve, verify_dest, MoveResult, Verify,
};
use media_manager::engine::exec::{execute, gc, heed, ExecOptions, GcOptions};
use media_manager::engine::journal::{Journal, JournalOp, NoStore};
use media_manager::engine::music_resolve::ResolvedTrack;
use media_manager::engine::planner::{PlanOptions, Planner};
use media_manager::engine::resolve::ResolvedMovie;
use media_manager::engine::route::build_discriminators;
use media_manager::engine::scan::scan;
use media_manager::engine::tv_resolve::ResolvedEpisode;
use media_manager::parse::model::known;
use media_manager::parse::normalize::unify_separators;
use media_manager::parse::tokens::{normalise, tokenize};
use media_manager::parse::{parse_movie, MediaParse, ParsedMovie};

const ROOT: &str = "/lib";
const FROM: &str = "/lib/a.mkv";
const TO: &str = "/lib/b.mkv";

fn path(s: &str) -> FilePath {
    FilePath::new(s)
}

fn seeded(files: &[&str]) -> MemFs {
    let mut fs = MemFs::new();
    fs.seed_dir(&path(ROOT));
    for f in files {
        fs.seed_file(&path(f), f.as_bytes().to_vec());
    }
    fs
}

fn journal() -> Journal<NoStore> {
    let mut j = Journal::create(&path("/journal/journal.jsonl"), NoStore::new());
    j.bind(RunId::fresh(), path(ROOT), "d".to_string());
    j
}

fn options() -> ExecOptions {
    ExecOptions {
        fail_fast: false,
        journal_dir: path("/journal"),
        cancel: CancelToken::never(),
        allow_replace: true,
    }
}

fn guess(v: &str) -> Field<String> {
    Field::known(v.to_string(), Source::Fallback, Confidence::High)
}

fn read(v: &str) -> Field<String> {
    Field::known(v.to_string(), Source::Filename, Confidence::High)
}

fn found(fs: &mut MemFs) -> Vec<String> {
    let files = scan(fs, &path(ROOT), &Config::default()).unwrap();
    let mut names: Vec<String> = files.iter().map(|f| f.absolute.to_text()).collect();
    names.sort();
    names
}

#[test]
fn movie_with_only_a_copy_number_is_not_empty() {
    assert!(ParsedMovie::default().is_empty());
    let m = ParsedMovie {
        copy: known(2, Source::Filename, Confidence::High),
        ..Default::default()
    };
    assert!(!m.is_empty());
}

#[test]
fn configured_default_never_makes_a_movie_ready() {
    let cfg = Config::default();
    let mut m = ResolvedMovie {
        title: read("Heat"),
        year: Field::known(1995, Source::Filename, Confidence::High),
        ..Default::default()
    };
    assert_eq!(m.readiness(&cfg), Readiness::Ready);
    m.year = Field::known(1995, Source::Fallback, Confidence::High);
    assert!(matches!(m.readiness(&cfg), Readiness::NeedsReview { .. }));
    m.year = Field::known(1995, Source::Filename, Confidence::High);
    m.resolution = guess("1080p");
    assert!(matches!(m.readiness(&cfg), Readiness::NeedsReview { .. }));
}

#[test]
fn configured_default_never_makes_an_episode_ready() {
    let cfg = Config::default();
    let mut e = ResolvedEpisode {
        title: read("Show"),
        season: Field::known(1u16, Source::Filename, Confidence::High),
        episodes: Field::known(vec![2u16], Source::Filename, Confidence::High),
        ..Default::default()
    };
    assert_eq!(e.readiness(&cfg), Readiness::Ready);
    e.season = Field::known(1u16, Source::Fallback, Confidence::High);
    assert!(matches!(e.readiness(&cfg), Readiness::NeedsReview { .. }));
}

#[test]
fn configured_default_never_makes_a_track_ready() {
    let cfg = Config::default();
    let mut t = ResolvedTrack {
        album_artist: read("Artist"),
        album: read("Album"),
        title: read("Title"),
        ..Default::default()
    };
    assert_eq!(t.readiness(&cfg), Readiness::Ready);
    t.album = guess("Album");
    assert!(matches!(t.readiness(&cfg), Readiness::NeedsReview { .. }));
}

#[test]
fn versions_are_told_apart_by_resolution_then_edition_then_source() {
    let m = ResolvedMovie {
        resolution: read("1080p"),
        edition: read("Extended"),
        source: read("BluRay"),
        hdr: read("HDR10"),
        ..Default::default()
    };
    assert_eq!(build_discriminators(&m), " - 1080p - Extended - BluRay - HDR10");
}

#[test]
fn name_that_fits_is_not_truncated() {
    let limit = ComponentLimit::Bytes(4);
    assert_eq!(limit.truncate("abcd"), "abcd");
    assert_eq!(limit.truncate("abcde"), "abcd");
    assert_eq!(ComponentLimit::Utf16Units(2).truncate("\u{1f3ac}"), "\u{1f3ac}");
}

#[test]
fn reclaimed_leftover_is_reclaimed_once() {
    let mut fs = seeded(&[FROM, TO]);
    let mut j = journal();
    j.write_intent(JournalOp::Move, Some(&path(FROM)), Some(&path(TO))).unwrap();
    let opts = GcOptions { journal_dir: path("/journal"), yes: true };
    let first = gc(&mut fs, &path(ROOT), &opts, &mut j);
    assert_eq!(first.reservations_reclaimed, 1);
    assert_eq!(fs.read(&path(TO)), None);
    // Whatever comes to stand there afterwards is not what the move left.
    fs.seed_file(&path(TO), b"of somebody else".to_vec());
    let second = gc(&mut fs, &path(ROOT), &opts, &mut j);
    assert_eq!(second.reservations_reclaimed, 0);
    assert!(second.diagnostics.is_empty());
    assert_eq!(fs.read(&path(TO)), Some(b"of somebody else".to_vec()));
    // A further move of the same run leaves something of its own.
    j.write_intent(JournalOp::Move, Some(&path(FROM)), Some(&path(TO))).unwrap();
    let third = gc(&mut fs, &path(ROOT), &opts, &mut j);
    assert_eq!(third.reservations_reclaimed, 1);
    assert_eq!(fs.read(&path(TO)), None);
}

#[test]
fn leftover_that_could_not_be_deleted_is_tried_again() {
    let fault = Fault { call_index: 1, method: Method::RemoveFile, err: InjectErr::Other };
    let mut fs = FaultyFs::with_faults(seeded(&[FROM, TO]), vec![fault]);
    let mut j = journal();
    j.write_intent(JournalOp::Move, Some(&path(FROM)), Some(&path(TO))).unwrap();
    let opts = GcOptions { journal_dir: path("/journal"), yes: true };
    assert_eq!(gc(&mut fs, &path(ROOT), &opts, &mut j).reservations_reclaimed, 0);
    assert_eq!(gc(&mut fs, &path(ROOT), &opts, &mut j).reservations_reclaimed, 1);
    assert_eq!(fs.inner().read(&path(TO)), None);
}

#[test]
fn token_that_nobody_can_set_stays_unset() {
    let token = CancelToken::never();
    token.set();
    assert!(!token.is_cancelled());
    assert!(token.check().is_ok());
    let other = CancelToken::new();
    other.set();
    assert_eq!(other.check().unwrap_err().kind, IoKind::Interrupted);
}

#[test]
fn unreadable_directory_does_not_fail_a_scan() {
    let mem = seeded(&["/lib/a.mkv", "/lib/sub/b.mkv", "/lib/other/c.mkv"]);
    for n in 2..4u64 {
        let mut fs = FaultyFs::with_faults(
            seeded(&["/lib/a.mkv", "/lib/sub/b.mkv", "/lib/other/c.mkv"]),
            vec![Fault { call_index: n, method: Method::ReadDir, err: InjectErr::PermissionDenied }],
        );
        assert_eq!(scan(&mut fs, &path(ROOT), &Config::default()).unwrap().len(), 2);
    }
    let mut fs = FaultyFs::with_faults(
        mem,
        vec![Fault { call_index: 1, method: Method::ReadDir, err: InjectErr::PermissionDenied }],
    );
    let err = scan(&mut fs, &path(ROOT), &Config::default()).unwrap_err();
    assert_eq!(err.kind, IoKind::PermissionDenied);
}

#[test]
fn containers_are_descended_into_for_eight_levels() {
    let mut fs = seeded(&["/lib/1/2/3/4/5/6/7/8/a.mkv", "/lib/1/2/3/4/5/6/7/8b/9/b.mkv"]);
    assert_eq!(found(&mut fs), vec!["/lib/1/2/3/4/5/6/7/8/a.mkv"]);
}

#[test]
fn three_levels_beneath_a_media_folder_are_descended_into() {
    let mut fs = seeded(&[
        "/lib/Heat/heat.mkv",
        "/lib/Heat/1/2/3/heat.srt",
        "/lib/Heat/1/2/3/4/heat.srt",
    ]);
    assert_eq!(found(&mut fs), vec!["/lib/Heat/1/2/3/heat.srt", "/lib/Heat/heat.mkv"]);
    // A file beside them does not make the root a media folder.
    let mut fs = seeded(&["/lib/loose.mkv", "/lib/1/2/3/4/deep.mkv"]);
    assert_eq!(found(&mut fs), vec!["/lib/1/2/3/4/deep.mkv", "/lib/loose.mkv"]);
    // The last container may be a media folder.
    let mut fs = seeded(&["/lib/1/2/3/4/5/6/7/8/a.mkv", "/lib/1/2/3/4/5/6/7/8/x/y/z/a.srt"]);
    assert_eq!(found(&mut fs).len(), 2);
}

#[test]
fn source_stays_where_the_copy_cannot_be_verified() {
    // The second look at a length is the one at the copy.
    let fault = Fault { call_index: 2, method: Method::Metadata, err: InjectErr::NotFound };
    let mut fs = FaultyFs::with_faults(seeded(&[FROM]), vec![fault]);
    let cfg = Config::default();
    let r = move_reserve(&mut fs, &cfg, &options(), &mut journal(), &path(FROM), &path(TO));
    match r.unwrap() {
        MoveResult::Failed { message, .. } => assert_eq!(message, "destination missing after move"),
        other => panic!("expected a failure, got {other:?}"),
    }
    assert_eq!(fs.inner().read(&path(FROM)), Some(FROM.as_bytes().to_vec()));

    let mut cfg = Config::default();
    cfg.moves.verify = VerifyMode::Hash;
    let fault = Fault { call_index: 2, method: Method::Hash, err: InjectErr::Other };
    let mut fs = FaultyFs::with_faults(seeded(&[FROM, TO]), vec![fault]);
    let r = move_replace(&mut fs, &cfg, &options(), &mut journal(), &path(FROM), &path(TO));
    assert!(matches!(r.unwrap(), MoveResult::Failed { .. }));
    assert_eq!(fs.inner().read(&path(FROM)), Some(FROM.as_bytes().to_vec()));
    assert_eq!(fs.inner().read(&path(TO)), Some(TO.as_bytes().to_vec()));
}

#[test]
fn verification_compares_length_and_hash() {
    let mut fs = seeded(&[FROM]);
    let mut cfg = Config::default();
    let never = CancelToken::never();
    let len = FROM.len() as u64;
    let wrong = "0".repeat(64);
    assert_eq!(verify_dest(&mut fs, &cfg, &path(FROM), len, None, &never), Verify::Intact);
    assert!(matches!(
        verify_dest(&mut fs, &cfg, &path(FROM), len + 1, None, &never),
        Verify::Fail(_)
    ));
    cfg.moves.verify = VerifyMode::Hash;
    let right = fs.hash(&path(FROM), &never).unwrap().0;
    assert_eq!(verify_dest(&mut fs, &cfg, &path(FROM), len, Some(&right), &never), Verify::Intact);
    assert_eq!(
        verify_dest(&mut fs, &cfg, &path(FROM), len, Some(&wrong), &never),
        Verify::Fail("hash mismatch".to_string())
    );
}

#[test]
fn moved_file_keeps_its_time() {
    let at = Stamp { secs: 1_000, nanos: 7 };
    for preserve in [true, false] {
        let mut cfg = Config::default();
        cfg.moves.preserve_mtime = preserve;
        let mut fs = seeded(&[FROM, TO]);
        fs.set_mtime(&path(FROM), at).unwrap();
        move_replace(&mut fs, &cfg, &options(), &mut journal(), &path(FROM), &path(TO)).unwrap();
        assert_eq!(fs.metadata(&path(TO)).unwrap().modified == Some(at), preserve);

        let mut fs = seeded(&[FROM]);
        fs.set_mtime(&path(FROM), at).unwrap();
        move_reserve(&mut fs, &cfg, &options(), &mut journal(), &path(FROM), &path(TO)).unwrap();
        assert_eq!(fs.metadata(&path(TO)).unwrap().modified == Some(at), preserve);

        let mut fs = seeded(&[FROM]);
        fs.set_mtime(&path(FROM), at).unwrap();
        move_native(&mut fs, &cfg, &options(), &mut journal(), &path(FROM), &path(TO)).unwrap();
        assert_eq!(fs.metadata(&path(TO)).unwrap().modified, Some(at));
    }
}

#[test]
fn unified_text_has_single_spaces_and_no_separator() {
    let once = unify_separators("..A__B+ C\t.\u{a0}D - (E)..");
    assert_eq!(once, "A B C D - (E)");
    assert_eq!(unify_separators(&once), once);
    assert_eq!(unify_separators("._+"), "");
}

#[test]
fn tokens_stand_one_byte_apart_and_make_up_the_name() {
    let name = "\u{c9}t\u{e9}.in_the+City [2010].mkv";
    let n = normalise(name);
    let tokens = tokenize(name);
    let texts: Vec<&str> = tokens.iter().map(|t| t.text.as_str()).collect();
    assert_eq!(texts.join(" "), n);
    for t in &tokens {
        assert_eq!(&n[t.start..t.end], t.text);
    }
    for w in tokens.windows(2) {
        assert_eq!(w[1].start, w[0].end + 1);
    }
    assert_eq!(tokens.len(), 5);
}

#[test]
fn plain_name_is_parsed_back_unless_it_mentions_an_edition() {
    let title = |name: &str| match parse_movie(name) {
        MediaParse::Movie(m) => (m.title.as_value().cloned(), m.edition.as_value().cloned()),
        _ => panic!("expected movie"),
    };
    assert_eq!(title("The Long Goodbye (1973).mkv"), (Some("The Long Goodbye".to_string()), None));
    // An edition that is only part of a word is none.
    for name in ["Climax", "Extendedly Yours", "The Uncutter"] {
        assert_eq!(title(&format!("{name} (2018).mkv")), (Some(name.to_string()), None));
    }
    let (_, edition) = title("The extended CUT (1973).mkv");
    assert_eq!(edition.unwrap().to_lowercase(), "extended cut");
}

#[test]
fn sanitised_name_is_never_reserved() {
    let map = SanitiseMap::default();
    let limit = VolumeSemantics::ntfs().max_component;
    let safe = |name: &str| sanitise_component(name, &map, limit);
    assert_eq!(safe(".CON"), Some("CON_".to_string()));
    assert_eq!(safe(" ..nul.mkv. "), Some("nul_.mkv".to_string()));
    assert_eq!(safe("?.com1"), Some("com1_".to_string()));
    assert_eq!(safe(".Console"), Some("Console".to_string()));
    assert_eq!(safe(" . \t."), None);
    for name in ["\u{1}a\u{1f}b.", " .x/y\\z ", "aux", "LPT9.tar.gz"] {
        let s = safe(name).unwrap();
        assert!(!is_reserved_device_name(&s));
        assert!(!s.chars().any(|c| (c as u32) < 0x20 || c == '/' || c == '\\'));
        assert!(!s.starts_with([' ', '.']) && !s.ends_with([' ', '.']));
    }
}

#[test]
fn whitespace_beyond_ascii_separates_words() {
    for c in ['\u{85}', '\u{a0}', '\u{1680}', '\u{2000}', '\u{200a}', '\u{2028}', '\u{2029}'] {
        assert_eq!(unify_separators(&format!("A{c}B")), "A B");
    }
    for c in ['\u{202f}', '\u{205f}', '\u{3000}'] {
        assert_eq!(unify_separators(&format!("A{c}B")), "A B");
    }
    // Neither the Mongolian vowel separator nor the zero-width ones are spaces.
    for c in ['\u{180e}', '\u{200b}', '\u{2060}', '\u{feff}'] {
        assert_eq!(unify_separators(&format!("A{c}B")), format!("A{c}B"));
    }
}

#[test]
fn spent_token_is_cancelled_for_good() {
    let token = CancelToken::spent();
    assert!(token.is_cancelled());
    assert_eq!(token.check().unwrap_err().kind, IoKind::Interrupted);
}

#[test]
fn report_says_that_a_run_was_stopped() {
    let mut report = RunReport::new(RunId::fresh(), RunMode::Apply, MediaKind::Movies, path(ROOT));
    assert!(!heed(&mut report, false));
    assert!(!report.cancelled);
    assert!(heed(&mut report, true));
    assert!(report.cancelled);
    assert!(!heed(&mut report, false));
    assert!(report.cancelled);
}

#[test]
fn nothing_is_begun_once_a_run_is_cancelled() {
    let name = "/lib/Heat.1995.mkv";
    // The first call of each of these is refused, whoever makes it.
    let methods = [
        Method::CreateDirAll,
        Method::CreateNew,
        Method::RenameNoReplace,
        Method::RemoveFile,
        Method::RemoveDir,
    ];
    let faults = methods
        .into_iter()
        .map(|method| Fault { call_index: 1, method, err: InjectErr::StorageFull })
        .collect();
    let mut fs = FaultyFs::with_faults(seeded(&[name, "/lib/old/Alien.1979.mkv"]), faults);
    let cfg = Config::default();
    let root = path(ROOT);
    let planner = Planner::new(&mut fs, &root, MediaKind::Movies, &cfg, "cfg").unwrap();
    let plan = planner.plan(&mut fs, PlanOptions::default()).unwrap();
    assert!(!plan.dir_creates.is_empty());
    let opts = ExecOptions { cancel: CancelToken::spent(), ..options() };
    let report = execute(&mut fs, &plan, &cfg, &opts, &mut journal());
    assert!(report.cancelled);
    assert!(report.fatal.is_none());
    assert_eq!(report.dirs_removed, 0);
    assert!(report.diagnostics.is_empty());
    let (from, to) = (path(name), path("/lib/x"));
    assert!(fs.metadata(&from).is_ok());
    assert!(fs.metadata(&plan.dir_creates[0]).is_err());
    // None has been made, for the first one is still refused.
    let full = IoKind::StorageFull;
    assert_eq!(fs.create_dir_all(&to).unwrap_err().kind, full);
    assert!(matches!(fs.create_new(&to), Err(e) if e.kind == full));
    assert_eq!(fs.rename_no_replace(&from, &to).unwrap_err().kind, full);
    assert_eq!(fs.remove_file(&from).unwrap_err().kind, full);
    assert_eq!(fs.remove_dir(&path("/lib/old")).unwrap_err().kind, full);
}

#[test]
fn leftover_of_two_moves_is_reclaimed_once() {
    let other = "/lib/c.mkv";
    let mut fs = seeded(&[FROM, other, TO]);
    let mut j = journal();
    j.write_intent(JournalOp::Move, Some(&path(FROM)), Some(&path(TO))).unwrap();
    j.bind(RunId::fresh(), path(ROOT), "d".to_string());
    j.write_intent(JournalOp::Move, Some(&path(other)), Some(&path(TO))).unwrap();
    let opts = GcOptions { journal_dir: path("/journal"), yes: true };
    assert_eq!(gc(&mut fs, &path(ROOT), &opts, &mut j).reservations_reclaimed, 1);
    fs.seed_file(&path(TO), b"of somebody else".to_vec());
    let second = gc(&mut fs, &path(ROOT), &opts, &mut j);
    assert_eq!(second.reservations_reclaimed, 0);
    assert_eq!(fs.read(&path(TO)), Some(b"of somebody else".to_vec()));
}

#[test]
fn gc_without_yes_asks_for_no_removal() {
    let fault = Fault { call_index: 1, method: Method::RemoveFile, err: InjectErr::StorageFull };
    let mut fs = FaultyFs::with_faults(seeded(&[FROM, TO]), vec![fault]);
    let mut j = journal();
    j.write_intent(JournalOp::Move, Some(&path(FROM)), Some(&path(TO))).unwrap();
    let opts = GcOptions { journal_dir: path("/journal"), yes: false };
    let report = gc(&mut fs, &path(ROOT), &opts, &mut j);
    assert_eq!(report.diagnostics.len(), 1);
    // The first removal is still refused: none has been asked for.
    assert_eq!(fs.remove_file(&path(TO)).unwrap_err().kind, IoKind::StorageFull);
}

#[test]
fn no_path_is_scanned_twice() {
    let mut fs = seeded(&["/lib/a.mkv", "/lib/x/a.mkv", "/lib/x/y/a.mkv", "/lib/z.srt"]);
    let names = found(&mut fs);
    let mut once = names.clone();
    once.dedup();
    assert_eq!(names, once);
    assert_eq!(names.len(), 4);
}

#[test]
fn planner_takes_the_volume_of_the_root() {
    let cfg = Config::default();
    let root = path(ROOT);
    for volume in [VolumeSemantics::ntfs(), VolumeSemantics::conservative()] {
        let mut fs = MemFs::with_volume(volume);
        fs.seed_dir(&root);
        let p = Planner::new(&mut fs, &root, MediaKind::Movies, &cfg, "cfg").unwrap();
        assert_eq!(p.volume, volume);
    }
}

#[test]
fn junk_stays_where_it_is_not_tolerated() {
    let junk = "/lib/old/Thumbs.db";
    let fault = Fault { call_index: 1, method: Method::RemoveFile, err: InjectErr::StorageFull };
    let mut fs = FaultyFs::with_faults(seeded(&["/lib/old/Alien.1979.mkv", junk]), vec![fault]);
    let mut cfg = Config::default();
    cfg.cleanup.remove_empty_dirs = true;
    cfg.cleanup.tolerate_junk = false;
    let root = path(ROOT);
    let planner = Planner::new(&mut fs, &root, MediaKind::Movies, &cfg, "cfg").unwrap();
    let plan = planner.plan(&mut fs, PlanOptions::default()).unwrap();
    let opts = ExecOptions { allow_replace: false, ..options() };
    let report = execute(&mut fs, &plan, &cfg, &opts, &mut journal());
    assert_eq!(report.counts.moved, 1);
    assert_eq!(report.dirs_removed, 0);
    assert!(fs.metadata(&path(junk)).is_ok());
    // The first removal is still refused: none has been asked for.
    assert_eq!(fs.remove_file(&path(junk)).unwrap_err().kind, IoKind::StorageFull);
}

#[test]
fn run_that_fails_fast_stops_at_the_first_failure() {
    for fail_fast in [false, true] {
        let fault = Fault {
            call_index: 1,
            method: Method::RenameNoReplace,
            err: InjectErr::PermissionDenied,
        };
        let mem = seeded(&["/lib/Alien.1979.mkv", "/lib/Heat.1995.mkv"]);
        let mut fs = FaultyFs::with_faults(mem, vec![fault]);
        let mut cfg = Config::default();
        cfg.moves.no_replace_strategy = StrategyConfig::Native;
        let root = path(ROOT);
        let planner = Planner::new(&mut fs, &root, MediaKind::Movies, &cfg, "cfg").unwrap();
        let plan = planner.plan(&mut fs, PlanOptions::default()).unwrap();
        let opts = ExecOptions { fail_fast, allow_replace: false, ..options() };
        let report = execute(&mut fs, &plan, &cfg, &opts, &mut journal());
        assert!(!report.cancelled);
        assert_eq!(report.counts.failed, 1);
        assert_eq!(report.counts.moved, if fail_fast { 0 } else { 1 });
    }
}
