//! Music planning pipeline.
//!
//! The same stages as for movies, but keyed on albums. A music filename seldom
//! names the album, so every audio file is probed for its tags, whatever its
//! name says, and grouping counts once the tags are in. Whether an album is a
//! compilation is told by each track's own tags alone. Directory renames are
//! not looked for.

use crate::domain::classify::FileClass;
use crate::domain::config::Config;
use crate::domain::duplicate::Duplicate;
use crate::domain::error::{Diagnostic, DiagnosticView};
use crate::domain::fs::{
    goes_on, is_dir, lists_first, only_asks, Call, FileSystem, IoError, IoErrorView, Tree,
};
use crate::domain::identity::{norm_of, AlbumId, AlbumIdView, Norm, SourcePreference};
use crate::domain::path::{FilePath, PathView};
use crate::domain::plan::{
    copy_names, Action, ActionView, FieldName, ItemId, Plan, PlanView, Readiness, ReadinessView,
};
use crate::domain::provenance::FieldView;
use crate::domain::volume::VolumeSemantics;
use crate::engine::associate::{
    directory_of, find_first_anchor, first_anchor, home_of, lemma_first_anchor,
};
use crate::engine::classify::classified;
use crate::engine::cluster::{clusters, lemma_clusters_have_first, ClusterView, KeyedView};
use crate::engine::draft::{drafts, same_rest, DraftView, Drafted};
use crate::engine::layout::{extended, extension_or_empty, law_contained_place_is_under_root};
use crate::engine::music_group::{
    disc_number, disc_of, group_albums, has_partial_disc_info, is_multi_disc, some_disc,
    spans_discs, track_key, track_keys, AlbumGroup,
};
use crate::engine::music_resolve::{track_resolved_from, ResolvedTrack, ResolvedTrackView};
use crate::engine::music_route::{route, MusicRouteContext};
use crate::engine::planner::{
    field_norm, file_name_or_empty, fill_year, found_nothing, fresh_draft, group_of, holds_number,
    name_or_empty, no_norm, norm_of_field, note_nothing, scanned_rightly, year_or, PlanOptions,
    Planner,
};
use crate::engine::probe_stage::{
    answered_rightly, answers_alike, asks_also, cached_or_probe, each_follows, holds_given,
    lemma_answered_among, lemma_asks_more, lemma_asks_nothing, lemma_follows_cache, open_cache,
    probe_note, warn_item, Looking, ProbeAnswer, Prober,
};
use crate::engine::reconcile::{copy_path, hash_notes, reconcile_drafts, reconciled, Findings};
use crate::engine::scan::{
    lemma_unread_stays, scanned_views, unread_notes, ScannedFile, ScannedView,
};
use crate::engine::stages::{
    all_check_notes, concludes, finalise_plan, law_copy_stays_under_root, law_plan_follows_routes,
    relative_of, validate_items,
};
use crate::engine::validate::is_contained;
use crate::parse::model::{ParseOptions, ParsedTrack, TrackFields};
use crate::parse::music::{parse_track_filename, track_fields};
use crate::text;
use vstd::prelude::*;

verus! {

/// Internal planner item for music, changed from stage to stage.
#[derive(Debug, Clone)]
pub struct MusicItemInternal {
    pub id: ItemId,
    pub source: FilePath,
    pub relative: FilePath,
    pub class: FileClass,
    pub parsed: Option<ParsedTrack>,
    pub resolved: Option<ResolvedTrack>,
    pub album_id: AlbumId,
    /// Whether the album spans more than one disc.
    pub multi_disc: bool,
    pub destination: Option<FilePath>,
    pub destination_relative: Option<FilePath>,
    pub action: Action,
    pub readiness: Readiness,
}

/// What of a planner item is about music.
#[verifier::ext_equal]
pub struct MusicRest {
    pub parsed: Option<TrackFields>,
    pub resolved: Option<ResolvedTrackView>,
    pub album_id: AlbumIdView,
    pub multi_disc: bool,
}

impl Drafted for MusicItemInternal {
    type Key = (Seq<char>, Seq<char>);

    type Rest = MusicRest;

    open spec fn draft(&self) -> DraftView {
        DraftView {
            id: self.id,
            source: self.source.deep_view(),
            relative: self.relative.deep_view(),
            class: self.class,
            destination: self.destination.deep_view(),
            destination_relative: self.destination_relative.deep_view(),
            action: self.action.deep_view(),
            readiness: self.readiness.deep_view(),
        }
    }

    open spec fn identity(&self) -> Option<Self::Key> {
        Some((self.album_id.album_artist.key@, self.album_id.album.key@))
    }

    open spec fn rest(&self) -> Self::Rest {
        MusicRest {
            parsed: self.parsed.deep_view(),
            resolved: self.resolved.deep_view(),
            album_id: self.album_id.deep_view(),
            multi_disc: self.multi_disc,
        }
    }

    open spec fn main_class() -> FileClass {
        FileClass::Audio
    }

    fn id(&self) -> (r: ItemId) {
        self.id
    }

    fn source(&self) -> (r: &FilePath) {
        &self.source
    }

    fn relative(&self) -> (r: &FilePath) {
        &self.relative
    }

    fn class(&self) -> (r: FileClass) {
        self.class
    }

    fn destination(&self) -> (r: Option<&FilePath>) {
        self.destination.as_ref()
    }

    fn destination_relative(&self) -> (r: Option<&FilePath>) {
        self.destination_relative.as_ref()
    }

    fn action(&self) -> (r: &Action) {
        &self.action
    }

    fn readiness(&self) -> (r: &Readiness) {
        &self.readiness
    }

    fn is_main(&self) -> (r: bool) {
        self.class == FileClass::Audio
    }

    fn is_identified(&self) -> (r: bool) {
        true
    }

    fn same_identity(&self, other: &Self) -> (r: bool) {
        text::same_text(&self.album_id.album_artist.key, &other.album_id.album_artist.key)
            && text::same_text(&self.album_id.album.key, &other.album_id.album.key)
    }

    fn set_action(&mut self, action: Action) {
        self.action = action;
    }

    fn set_destination(&mut self, to: FilePath) {
        self.destination = Some(to);
    }

    fn set_destination_relative(&mut self, to: FilePath) {
        self.destination_relative = Some(to);
    }
}

/// The parts of the items that are about music.
pub open spec fn rests(items: Seq<MusicItemInternal>) -> Seq<MusicRest> {
    Seq::new(items.len(), |i: int| items[i].rest())
}

/// The album that resolved fields name, its year aside.
pub open spec fn provisional(t: ResolvedTrackView) -> AlbumIdView {
    AlbumIdView {
        album_artist: norm_of_field(t.album_artist),
        album: norm_of_field(t.album),
        year: None,
    }
}

/// The album that resolved fields name, its year aside.
fn provisional_album_id(t: &ResolvedTrack) -> (r: AlbumId)
    ensures
        r.deep_view() == provisional(t.deep_view()),
{
    AlbumId::new(field_norm(&t.album_artist), field_norm(&t.album))
}

/// What is known of a scanned file from its name.
pub open spec fn started_rest(f: ScannedView) -> MusicRest {
    if f.class == FileClass::Audio {
        let p = track_fields(name_or_empty(f.absolute));
        MusicRest {
            parsed: Some(p),
            resolved: Some(track_resolved_from(p)),
            album_id: provisional(track_resolved_from(p)),
            multi_disc: false,
        }
    } else {
        MusicRest {
            parsed: None,
            resolved: None,
            album_id: AlbumIdView { album_artist: no_norm(), album: no_norm(), year: None },
            multi_disc: false,
        }
    }
}

/// What a scanned file is at the start.
pub open spec fn started_draft(n: int, f: ScannedView, cfg: Config) -> DraftView {
    fresh_draft(
        n,
        f,
        if f.class == FileClass::Audio {
            track_resolved_from(track_fields(name_or_empty(f.absolute))).readiness(cfg)
        } else {
            ReadinessView::Ready
        },
    )
}

/// Whether items are what scanned files are at the start.
pub open spec fn started(
    files: Seq<ScannedView>,
    cfg: Config,
    items: Seq<MusicItemInternal>,
) -> bool {
    &&& items.len() == files.len()
    &&& forall|i: int|
        0 <= i < items.len() ==> (#[trigger] items[i]).draft() == started_draft(i, files[i], cfg)
            && items[i].rest() == started_rest(files[i])
}

/// Parses a scanned file.
fn start_item(n: u64, f: &ScannedFile, cfg: &Config) -> (r: MusicItemInternal)
    ensures
        r.draft() == started_draft(n as int, f.deep_view(), *cfg),
        r.rest() == started_rest(f.deep_view()),
{
    let (parsed, resolved, album_id, readiness): (
        Option<ParsedTrack>,
        Option<ResolvedTrack>,
        AlbumId,
        Readiness,
    ) = if f.class == FileClass::Audio {
        let p = parse_track_filename(&file_name_or_empty(&f.absolute), &ParseOptions::default());
        let t = ResolvedTrack::from_parsed(&p);
        let id = provisional_album_id(&t);
        let readiness = t.readiness(cfg);
        (Some(p), Some(t), id, readiness)
    } else {
        (None, None, AlbumId::new(Norm::empty(), Norm::empty()), Readiness::Ready)
    };
    MusicItemInternal {
        id: ItemId::new(n),
        source: f.absolute.duplicate(),
        relative: f.relative.duplicate(),
        class: f.class,
        parsed,
        resolved,
        album_id,
        multi_disc: false,
        destination: None,
        destination_relative: None,
        action: Action::NoOp,
        readiness,
    }
}

/// Parses scanned files and resolves them from their names.
pub fn parse_and_resolve(scanned: &Vec<ScannedFile>, cfg: &Config) -> (r: Vec<MusicItemInternal>)
    ensures
        started(scanned.deep_view(), *cfg, r@),
{
    let mut out: Vec<MusicItemInternal> = Vec::new();
    let mut i: usize = 0;
    while i < scanned.len()
        invariant
            i <= scanned@.len(),
            out@.len() == i,
            forall|k: int|
                0 <= k < i ==> (#[trigger] out@[k]).draft() == started_draft(
                    k,
                    scanned.deep_view()[k],
                    *cfg,
                ) && out@[k].rest() == started_rest(scanned.deep_view()[k]),
        decreases scanned@.len() - i,
    {
        out.push(start_item(i as u64, &scanned[i], cfg));
        i = i + 1;
    }
    out
}

/// A track with what was answered folded in.
pub open spec fn answered(
    m: ResolvedTrackView,
    a: ProbeAnswer,
    prefs: SourcePreference,
) -> ResolvedTrackView {
    match a.probe() {
        Some(p) => match p.audio {
            Some(tags) => m.with_tags(tags, prefs),
            None => m,
        },
        None => m,
    }
}

/// What is said of what was answered, and of tags that are not there.
pub open spec fn tag_notes(id: ItemId, a: ProbeAnswer) -> Seq<DiagnosticView> {
    a.notes(id, true) + (match a.probe() {
        Some(p) => if p.audio is None {
            seq![probe_note(id, "audio file yielded no tags; falling back to filename"@)]
        } else {
            Seq::empty()
        },
        None => Seq::empty(),
    })
}

/// Whether an item is looked into: it is an audio file.
pub open spec fn is_probed(a: MusicItemInternal) -> bool {
    a.class == FileClass::Audio && a.resolved is Some
}

/// Whether an item has been probed: where it is an audio file, what was
/// answered is folded in.
pub open spec fn probed_item(
    a: MusicItemInternal,
    b: MusicItemInternal,
    cfg: Config,
    answer: ProbeAnswer,
) -> bool {
    &&& b.draft() == a.draft()
    &&& b.rest() == (if is_probed(a) {
        MusicRest {
            resolved: Some(answered(a.rest().resolved->0, answer, cfg.source_preference)),
            ..a.rest()
        }
    } else {
        a.rest()
    })
}

/// Whether items have been probed.
pub open spec fn probed(
    before: Seq<MusicItemInternal>,
    after: Seq<MusicItemInternal>,
    cfg: Config,
    answers: Seq<ProbeAnswer>,
) -> bool {
    &&& before.len() == after.len() == answers.len()
    &&& forall|i: int|
        0 <= i < before.len() ==> probed_item(#[trigger] before[i], after[i], cfg, answers[i])
}

/// What is said of probing items.
pub open spec fn probing_notes(items: Seq<MusicItemInternal>, answers: Seq<ProbeAnswer>) -> Seq<
    DiagnosticView,
>
    decreases answers.len(),
{
    if answers.len() == 0 {
        Seq::empty()
    } else {
        let it = items[answers.len() - 1];
        probing_notes(items, answers.drop_last()) + if is_probed(it) {
            tag_notes(it.id, answers.last())
        } else {
            Seq::empty()
        }
    }
}

/// What is looked into for items.
pub open spec fn lookings(items: Seq<MusicItemInternal>, answers: Seq<ProbeAnswer>) -> Seq<Looking>
    decreases answers.len(),
{
    if answers.len() == 0 {
        Seq::empty()
    } else {
        let it = items[answers.len() - 1];
        lookings(items, answers.drop_last()) + if is_probed(it) {
            answers.last().looking(it.source.deep_view(), true)
        } else {
            Seq::empty()
        }
    }
}

/// Whether the items that are looked into, and no others, were rightly answered
/// for, each by its key, and none was looked into twice.
pub open spec fn all_answered<P: Prober>(
    items: Seq<MusicItemInternal>,
    answers: Seq<ProbeAnswer>,
    prober: P,
    t: Tree,
    h0: Seq<Call>,
    h1: Seq<Call>,
    steady: bool,
) -> bool {
    &&& each_follows(answers)
    &&& forall|i: int|
        0 <= i < answers.len() ==> if is_probed(items[i]) {
            answered_rightly(
                #[trigger] answers[i],
                items[i].source.deep_view(),
                true,
                prober,
                t,
                h0,
                h1,
                steady,
            )
        } else {
            answers[i] == ProbeAnswer::Passed
        }
}

/// What was rightly answered is so whatever else was asked before and after.
proof fn lemma_all_answered_among<P: Prober>(
    items: Seq<MusicItemInternal>,
    answers: Seq<ProbeAnswer>,
    prober: P,
    t: Tree,
    h0: Seq<Call>,
    h1: Seq<Call>,
    h2: Seq<Call>,
    h3: Seq<Call>,
    now: bool,
    steady: bool,
)
    requires
        all_answered(items, answers, prober, t, h1, h2, now),
        goes_on(h0, h1),
        goes_on(h2, h3),
        steady ==> now,
    ensures
        all_answered(items, answers, prober, t, h0, h3, steady),
{
    assert forall|i: int| 0 <= i < answers.len() && is_probed(items[i]) implies answered_rightly(
        #[trigger] answers[i],
        items[i].source.deep_view(),
        true,
        prober,
        t,
        h0,
        h3,
        steady,
    ) by {
        lemma_answered_among(
            answers[i],
            items[i].source.deep_view(),
            true,
            prober,
            prober,
            t,
            h0,
            h1,
            h2,
            h3,
            now,
            steady,
        );
    }
}

/// What is rightly answered for the next item is so beside the others.
proof fn lemma_one_more_answered<P: Prober>(
    items: Seq<MusicItemInternal>,
    answers: Seq<ProbeAnswer>,
    a: ProbeAnswer,
    prober: P,
    asked: P,
    t: Tree,
    h0: Seq<Call>,
    h1: Seq<Call>,
    h2: Seq<Call>,
    now: bool,
    steady: bool,
)
    requires
        all_answered(items, answers, prober, t, h0, h1, steady),
        each_follows(answers.push(a)),
        goes_on(h0, h1),
        goes_on(h1, h2),
        steady ==> now,
        answers_alike(prober, asked),
        if is_probed(items[answers.len() as int]) {
            answered_rightly(
                a,
                items[answers.len() as int].source.deep_view(),
                true,
                asked,
                t,
                h1,
                h2,
                now,
            )
        } else {
            a == ProbeAnswer::Passed
        },
    ensures
        all_answered(items, answers.push(a), prober, t, h0, h2, steady),
{
    let all = answers.push(a);
    let n = answers.len() as int;
    lemma_all_answered_among(items, answers, prober, t, h0, h0, h1, h2, steady, steady);
    if is_probed(items[n]) {
        lemma_answered_among(
            a,
            items[n].source.deep_view(),
            true,
            asked,
            prober,
            t,
            h0,
            h1,
            h2,
            h2,
            now,
            steady,
        );
    }
    assert forall|k: int| 0 <= k < all.len() implies if is_probed(items[k]) {
        answered_rightly(
            #[trigger] all[k],
            items[k].source.deep_view(),
            true,
            prober,
            t,
            h0,
            h2,
            steady,
        )
    } else {
        all[k] == ProbeAnswer::Passed
    } by {
        if k < n {
            assert(all[k] == answers[k]);
        }
    }
}

/// Probes every audio file for embedded tags.
fn probe_audio_items<F: FileSystem, P: Prober>(
    fs: &mut F,
    prober: &mut P,
    items: &mut Vec<MusicItemInternal>,
    cfg: &Config,
    notes: &mut Vec<Diagnostic>,
)
    ensures
        old(fs).is_steady() ==> final(fs).is_steady(),
        only_asks(old(fs).history(), final(fs).history()),
        final(fs).tree() == old(fs).tree(),
        exists|answers: Seq<ProbeAnswer>| #[trigger]
            probed(old(items)@, final(items)@, *cfg, answers) && final(notes).deep_view() == old(
                notes,
            ).deep_view() + probing_notes(old(items)@, answers) && asks_also(
                *old(prober),
                *final(prober),
                lookings(old(items)@, answers),
            ) && all_answered(
                old(items)@,
                answers,
                *old(prober),
                old(fs).tree(),
                old(fs).history(),
                final(fs).history(),
                old(fs).is_steady(),
            ),
{
    let ghost h0 = fs.history();
    let ghost t = fs.tree();
    let ghost steady = fs.is_steady();
    let ghost looking = *prober;
    let ghost start = items@;
    let ghost said = notes.deep_view();
    let ghost mut answers: Seq<ProbeAnswer> = Seq::empty();
    let mut cache = open_cache();
    let mut i: usize = 0;
    proof {
        assert(said =~= said + probing_notes(start, answers));
        lemma_asks_nothing(looking);
    }
    while i < items.len()
        invariant
            only_asks(old(fs).history(), fs.history()),
            steady == old(fs).is_steady(),
            steady ==> fs.is_steady(),
            looking == *old(prober),
            answers_alike(looking, *prober),
            holds_given(cache, answers),
            h0 == old(fs).history(),
            all_answered(start, answers, looking, t, h0, fs.history(), steady),
            asks_also(looking, *prober, lookings(start, answers)),
            i <= items@.len(),
            t == old(fs).tree(),
            fs.tree() == t,
            start == old(items)@,
            said == old(notes).deep_view(),
            answers.len() == i,
            notes.deep_view() == said + probing_notes(start, answers),
            items@.len() == start.len(),
            forall|k: int| 0 <= k < i ==> probed_item(
                #[trigger] start[k],
                items@[k],
                *cfg,
                answers[k],
            ),
            forall|k: int| i <= k < start.len() ==> (#[trigger] items@[k]) == start[k],
        decreases items@.len() - i,
    {
        let ghost held = items@;
        let ghost known = answers;
        let ghost heard = notes.deep_view();
        let ghost mut answer = ProbeAnswer::Passed;
        let ghost now = fs.is_steady();
        let ghost h1 = fs.history();
        let ghost held_cache = cache;
        let ghost before = *prober;
        if items[i].class == FileClass::Audio {
            if let Some(m) = &items[i].resolved {
                let mut resolved = m.duplicate();
                let ghost was = resolved.deep_view();
                let source = items[i].source.duplicate();
                let id = items[i].id;
                let outcome = cached_or_probe(fs, prober, &source, id, true, &mut cache, notes);
                proof {
                    answer = choose|x: ProbeAnswer|
                        outcome.deep_view() == #[trigger] x.probe() && notes.deep_view() == heard
                            + x.notes(id, true) && asks_also(
                            before,
                            *prober,
                            x.looking(source.deep_view(), true),
                        ) && x.accords(held_cache, cache) && answered_rightly(
                            x,
                            source.deep_view(),
                            true,
                            before,
                            t,
                            h1,
                            fs.history(),
                            now,
                        );
                }
                match outcome {
                    Some(probe) => match &probe.audio {
                        Some(tags) => {
                            resolved.merge_tags(tags, &cfg.source_preference);
                        },
                        None => {
                            warn_item(
                                notes,
                                id,
                                "audio file yielded no tags; falling back to filename".to_string(),
                            );
                        },
                    },
                    None => {},
                }
                items[i].resolved = Some(resolved);
                proof {
                    let a = held[i as int];
                    let b = items@[i as int];
                    assert(resolved.deep_view() == answered(was, answer, cfg.source_preference));
                    assert(notes.deep_view() =~= heard + tag_notes(id, answer));
                    assert(b.rest() =~= (MusicRest {
                        resolved: Some(
                            answered(a.rest().resolved->0, answer, cfg.source_preference),
                        ),
                        ..a.rest()
                    }));
                    assert(probed_item(a, b, *cfg, answer));
                }
            }
        }
        proof {
            answers = known.push(answer);
            assert(answers.drop_last() =~= known);
            assert(answers_alike(looking, *prober));
            if is_probed(start[i as int]) {
                lemma_asks_more(
                    looking,
                    before,
                    *prober,
                    lookings(start, known),
                    answer.looking(start[i as int].source.deep_view(), true),
                );
            } else {
                lemma_asks_nothing(before);
                lemma_asks_more(
                    looking,
                    before,
                    *prober,
                    lookings(start, known),
                    Seq::empty(),
                );
            }
            lemma_follows_cache(held_cache, cache, known, answer);
            lemma_one_more_answered(
                start,
                known,
                answer,
                looking,
                before,
                t,
                h0,
                h1,
                fs.history(),
                now,
                steady,
            );
            assert(notes.deep_view() =~= said + probing_notes(start, answers));
            assert forall|k: int| 0 <= k < i + 1 implies probed_item(
                #[trigger] start[k],
                items@[k],
                *cfg,
                answers[k],
            ) by {
                if k < i {
                    assert(items@[k] == held[k]);
                    assert(answers[k] == known[k]);
                }
            }
        }
        i = i + 1;
    }
    proof {
        assert(probed(start, items@, *cfg, answers));
    }
}

/// An item whose readiness has been told anew.
pub open spec fn reread_draft(it: MusicItemInternal, cfg: Config) -> DraftView {
    match it.rest().resolved {
        Some(t) if it.class == FileClass::Audio => DraftView {
            readiness: t.readiness(cfg),
            ..it.draft()
        },
        _ => it.draft(),
    }
}

/// Whether the readiness of items has been told anew.
pub open spec fn reread(
    before: Seq<MusicItemInternal>,
    after: Seq<MusicItemInternal>,
    cfg: Config,
) -> bool {
    &&& same_rest(before, after)
    &&& forall|i: int|
        0 <= i < before.len() ==> (#[trigger] after[i]).draft() == reread_draft(before[i], cfg)
}

/// Tells the readiness of audio files anew, now that their tags are in.
pub fn reresolve_readiness(items: &mut Vec<MusicItemInternal>, cfg: &Config)
    ensures
        reread(old(items)@, final(items)@, *cfg),
{
    let ghost start = items@;
    let mut i: usize = 0;
    while i < items.len()
        invariant
            i <= items@.len(),
            start == old(items)@,
            items@.len() == start.len(),
            same_rest(start, items@),
            forall|k: int|
                0 <= k < i ==> (#[trigger] items@[k]).draft() == reread_draft(start[k], *cfg),
            forall|k: int| i <= k < start.len() ==> (#[trigger] items@[k]) == start[k],
        decreases items@.len() - i,
    {
        let ghost held = items@;
        if items[i].class == FileClass::Audio {
            if let Some(t) = &items[i].resolved {
                let readiness = t.readiness(cfg);
                items[i].readiness = readiness;
            }
        }
        proof {
            assert forall|k: int| 0 <= k < start.len() implies (#[trigger] start[k]).identity()
                == items@[k].identity() && start[k].rest() == items@[k].rest() by {
                assert(start[k].identity() == held[k].identity());
                if k != i {
                    assert(items@[k] == held[k]);
                }
            }
            assert forall|k: int| 0 <= k < i + 1 implies (#[trigger] items@[k]).draft()
                == reread_draft(start[k], *cfg) by {
                if k < i {
                    assert(items@[k] == held[k]);
                }
            }
        }
        i = i + 1;
    }
}

/// What items are grouped by: those that have resolved fields, by their
/// numbers.
pub open spec fn item_keys(list: Seq<MusicRest>) -> Seq<KeyedView>
    decreases list.len(),
{
    if list.len() == 0 {
        Seq::empty()
    } else {
        let rest = item_keys(list.drop_last());
        match list.last().resolved {
            Some(t) => rest.push(track_key((list.len() - 1) as usize, t)),
            None => rest,
        }
    }
}

/// The groups of items.
pub open spec fn albums(list: Seq<MusicRest>) -> Seq<ClusterView> {
    clusters(item_keys(list))
}

/// The album of a group of items.
pub open spec fn album_of(list: Seq<MusicRest>, c: ClusterView) -> AlbumIdView {
    let first = list[item_keys(list)[c.first].idx as int].resolved->0;
    AlbumIdView {
        album_artist: norm_of(first.album_artist.ok()->0, false),
        album: norm_of(first.album.ok()->0, false),
        year: c.year,
    }
}

/// Whether groups are those of items.
pub open spec fn groups_of(groups: Seq<AlbumGroup>, list: Seq<MusicRest>) -> bool {
    &&& groups.len() == albums(list).len()
    &&& forall|k: int|
        0 <= k < groups.len() ==> (#[trigger] groups[k]).id.deep_view() == album_of(
            list,
            albums(list)[k],
        ) && groups[k].items@ == albums(list)[k].members
}

/// The disc of the track of an item, if it has one.
pub open spec fn item_disc(list: Seq<MusicRest>, idx: int) -> Option<FieldView<u16>> {
    if 0 <= idx < list.len() {
        match list[idx].resolved {
            Some(t) => Some(t.disc),
            None => None,
        }
    } else {
        None
    }
}

/// The tracks of the items that have resolved fields, by their numbers.
fn collect_tracks(items: &Vec<MusicItemInternal>) -> (r: Vec<(usize, &ResolvedTrack)>)
    ensures
        track_keys(r@) == item_keys(rests(items@)),
        forall|k: int|
            0 <= k < r@.len() ==> (#[trigger] r@[k]).0 < items@.len() && rests(
                items@,
            )[r@[k].0 as int].resolved == Some(r@[k].1.deep_view()),
        forall|idx: usize| #[trigger]
            disc_of(r@, idx, 0) == item_disc(rests(items@), idx as int),
{
    let ghost list = rests(items@);
    let mut found: Vec<(usize, &ResolvedTrack)> = Vec::new();
    let mut i: usize = 0;
    proof {
        assert(track_keys(found@) =~= item_keys(list.take(0)));
        assert forall|idx: usize| #[trigger]
            disc_of(found@, idx, 0) == item_disc(list.take(0), idx as int) by {}
    }
    while i < items.len()
        invariant
            i <= items@.len(),
            list == rests(items@),
            track_keys(found@) == item_keys(list.take(i as int)),
            forall|k: int|
                0 <= k < found@.len() ==> (#[trigger] found@[k]).0 < i
                    && list[found@[k].0 as int].resolved == Some(found@[k].1.deep_view()),
            forall|idx: usize| #[trigger]
                disc_of(found@, idx, 0) == item_disc(list.take(i as int), idx as int),
        decreases items@.len() - i,
    {
        let ghost was = found@;
        proof {
            assert(list.take(i + 1).drop_last() =~= list.take(i as int));
            assert(list.take(i + 1).last() == items@[i as int].rest());
        }
        if let Some(t) = &items[i].resolved {
            let ghost held = track_keys(found@);
            found.push((i, t));
            proof {
                assert(track_keys(found@) =~= held.push(track_key(i, t.deep_view())));
            }
        }
        proof {
            assert forall|idx: usize| #[trigger]
                disc_of(found@, idx, 0) == item_disc(list.take(i + 1), idx as int) by {
                assert(disc_of(was, idx, 0) == item_disc(list.take(i as int), idx as int));
                if found@ != was {
                    lemma_disc_of_push(was, found@.last(), idx, 0);
                    assert(found@ =~= was.push(found@.last()));
                }
                if idx < i {
                    assert(list.take(i as int)[idx as int] == list.take(i + 1)[idx as int]);
                }
            }
        }
        i = i + 1;
    }
    proof {
        assert(list.take(i as int) =~= list);
    }
    found
}

/// The disc of a track once there is one more track.
proof fn lemma_disc_of_push(
    tracks: Seq<(usize, &ResolvedTrack)>,
    x: (usize, &ResolvedTrack),
    idx: usize,
    from: int,
)
    requires
        0 <= from <= tracks.len(),
    ensures
        disc_of(tracks.push(x), idx, from) == (match disc_of(tracks, idx, from) {
            Some(d) => Some(d),
            None => if x.0 == idx {
                Some(x.1.deep_view().disc)
            } else {
                None
            },
        }),
    decreases tracks.len() - from,
{
    if from < tracks.len() {
        assert(tracks.push(x)[from] == tracks[from]);
        lemma_disc_of_push(tracks, x, idx, from + 1);
    } else {
        reveal_with_fuel(disc_of, 2);
        assert(tracks.push(x)[from] == x);
    }
}

/// Groups items by album and settles on a year for each group.
pub fn group_items(items: &Vec<MusicItemInternal>) -> (r: Vec<AlbumGroup>)
    ensures
        groups_of(r@, rests(items@)),
{
    let ghost list = rests(items@);
    let found = collect_tracks(items);
    let groups = group_albums(&found);
    proof {
        let keys = item_keys(list);
        assert forall|k: int| 0 <= k < groups@.len() implies (#[trigger] groups@[k]).id.deep_view()
            == album_of(list, clusters(keys)[k]) && groups@[k].items@ == clusters(
            keys,
        )[k].members by {
            lemma_clusters_have_first(keys, keys.len() as int, k);
            let c = clusters(keys)[k];
            assert(track_keys(found@)[c.first] == keys[c.first]);
            assert(found@[c.first].0 == keys[c.first].idx);
        }
    }
    groups
}

/// The group that an item is in.
fn find_group(groups: &Vec<AlbumGroup>, idx: usize, Ghost(cs): Ghost<Seq<ClusterView>>) -> (r:
    Option<usize>)
    requires
        groups@.len() == cs.len(),
        forall|k: int|
            0 <= k < groups@.len() ==> (#[trigger] groups@[k]).items@ == cs[k].members,
    ensures
        match r {
            Some(k) => k < groups@.len() && group_of(cs, idx, 0) == Some(k as int),
            None => group_of(cs, idx, 0) is None,
        },
{
    let mut k: usize = 0;
    while k < groups.len()
        invariant
            k <= groups@.len(),
            groups@.len() == cs.len(),
            forall|j: int|
                0 <= j < groups@.len() ==> (#[trigger] groups@[j]).items@ == cs[j].members,
            group_of(cs, idx, 0) == group_of(cs, idx, k as int),
        decreases groups@.len() - k,
    {
        if holds_number(&groups[k].items, idx) {
            return Some(k);
        }
        k = k + 1;
    }
    None
}

/// An item that has the album of its group written back.
pub open spec fn in_group(list: Seq<MusicRest>, i: int) -> MusicRest {
    match group_of(albums(list), i as usize, 0) {
        Some(k) => {
            let id = album_of(list, albums(list)[k]);
            MusicRest {
                album_id: id,
                resolved: match list[i].resolved {
                    Some(t) => Some(ResolvedTrackView { year: year_or(t.year, id.year), ..t }),
                    None => None,
                },
                ..list[i]
            }
        },
        None => list[i],
    }
}

/// Whether items have been grouped.
pub open spec fn regrouped(before: Seq<MusicItemInternal>, after: Seq<MusicItemInternal>) -> bool {
    &&& drafts(after) == drafts(before)
    &&& after.len() == before.len()
    &&& forall|i: int|
        0 <= i < after.len() ==> (#[trigger] after[i]).rest() == in_group(rests(before), i)
}

/// Writes the album of each group, with the year that was settled on, back to
/// its members.
pub fn regroup_items(items: &mut Vec<MusicItemInternal>) -> (r: Vec<AlbumGroup>)
    ensures
        regrouped(old(items)@, final(items)@),
        groups_of(r@, rests(old(items)@)),
{
    let groups = group_items(items);
    let ghost start = items@;
    let ghost list = rests(start);
    let ghost cs = albums(list);
    let mut i: usize = 0;
    while i < items.len()
        invariant
            i <= items@.len(),
            start == old(items)@,
            list == rests(start),
            cs == albums(list),
            groups_of(groups@, list),
            items@.len() == start.len(),
            forall|k: int|
                0 <= k < i ==> (#[trigger] items@[k]).draft() == start[k].draft()
                    && items@[k].rest() == in_group(list, k),
            forall|k: int| i <= k < start.len() ==> (#[trigger] items@[k]) == start[k],
        decreases items@.len() - i,
    {
        let ghost held = items@;
        let home = find_group(&groups, i, Ghost(cs));
        if let Some(g) = home {
            let id = groups[g].id.duplicate();
            let year = id.year;
            items[i].album_id = id;
            if let Some(t) = &items[i].resolved {
                let mut resolved = t.duplicate();
                resolved.year = fill_year(&t.year, year);
                items[i].resolved = Some(resolved);
            }
        }
        proof {
            assert(list[i as int] == held[i as int].rest());
            assert(items@[i as int].rest() =~= in_group(list, i as int));
            assert forall|k: int| 0 <= k < i + 1 implies (#[trigger] items@[k]).draft()
                == start[k].draft() && items@[k].rest() == in_group(list, k) by {
                if k < i {
                    assert(items@[k] == held[k]);
                }
            }
        }
        i = i + 1;
    }
    proof {
        assert(drafts(items@) =~= drafts(start));
    }
    groups
}

/// Whether one of the members of a group has a known disc, or an unknown one.
pub open spec fn some_member_disc(list: Seq<MusicRest>, members: Seq<usize>, is_known: bool) -> bool {
    exists|i: int|
        0 <= i < members.len() && (item_disc(list, #[trigger] members[i] as int) matches Some(d)
            && d.is_known() == is_known)
}

/// The disc number of an item, if it is known.
pub open spec fn item_disc_number(list: Seq<MusicRest>, idx: int) -> Option<u16> {
    match item_disc(list, idx) {
        Some(d) => d.ok(),
        None => None,
    }
}

/// Whether the members of a group are on several discs.
pub open spec fn on_several_discs(list: Seq<MusicRest>, members: Seq<usize>) -> bool {
    exists|i: int, j: int|
        0 <= i < members.len() && 0 <= j < members.len() && item_disc_number(
            list,
            #[trigger] members[i] as int,
        ) is Some && item_disc_number(list, #[trigger] members[j] as int) is Some
            && item_disc_number(list, members[i] as int) != item_disc_number(
            list,
            members[j] as int,
        )
}

/// Whether some members of a group have a disc number and others have none.
pub open spec fn partly_numbered(list: Seq<MusicRest>, members: Seq<usize>) -> bool {
    some_member_disc(list, members, true) && some_member_disc(list, members, false)
}

/// What a track asks for whose album is partly numbered.
pub open spec fn unsure_of_disc() -> ReadinessView {
    ReadinessView::NeedsReview {
        missing: seq![FieldName::Disc],
        reasons: seq!["some tracks in this album have a disc number and others do not"@],
    }
}

/// Whether an item has had the rules of its group applied: where the album is
/// partly numbered it asks for a review of the disc, else it is told whether
/// the album spans several discs.
pub open spec fn ruled_item(
    groups: Seq<ClusterView>,
    list: Seq<MusicRest>,
    a: MusicItemInternal,
    b: MusicItemInternal,
    i: int,
) -> bool {
    match group_of(groups, i as usize, 0) {
        Some(k) => if partly_numbered(list, groups[k].members) {
            b.draft() == (DraftView { readiness: unsure_of_disc(), ..a.draft() }) && b.rest()
                == a.rest()
        } else {
            b.draft() == a.draft() && b.rest() == (MusicRest {
                multi_disc: on_several_discs(list, groups[k].members),
                ..a.rest()
            })
        },
        None => b.draft() == a.draft() && b.rest() == a.rest(),
    }
}

/// Whether items have had the rules of their groups applied.
pub open spec fn ruled(
    groups: Seq<ClusterView>,
    before: Seq<MusicItemInternal>,
    after: Seq<MusicItemInternal>,
) -> bool {
    &&& before.len() == after.len()
    &&& forall|i: int|
        0 <= i < before.len() ==> ruled_item(
            groups,
            rests(before),
            #[trigger] before[i],
            after[i],
            i,
        )
}

/// What the disc numbers of a group come to: whether it is partly numbered,
/// and whether it is on several discs.
fn judge_discs(
    members: &Vec<usize>,
    tracks: &Vec<(usize, &ResolvedTrack)>,
    Ghost(list): Ghost<Seq<MusicRest>>,
) -> (r: (bool, bool))
    requires
        forall|idx: usize| #[trigger] disc_of(tracks@, idx, 0) == item_disc(list, idx as int),
    ensures
        r.0 == partly_numbered(list, members@),
        r.1 == on_several_discs(list, members@),
{
    let partial = has_partial_disc_info(members, tracks);
    let multi = is_multi_disc(members, tracks);
    proof {
        lemma_same_discs(list, members@, tracks@, true);
        lemma_same_discs(list, members@, tracks@, false);
        if spans_discs(members@, tracks@) {
            let (i, j) = choose|i: int, j: int|
                0 <= i < members@.len() && 0 <= j < members@.len() && disc_number(
                    tracks@,
                    #[trigger] members@[i],
                ) is Some && disc_number(tracks@, #[trigger] members@[j]) is Some && disc_number(
                    tracks@,
                    members@[i],
                ) != disc_number(tracks@, members@[j]);
            assert(item_disc_number(list, members@[i] as int) != item_disc_number(
                list,
                members@[j] as int,
            ));
        }
        if on_several_discs(list, members@) {
            let (i, j) = choose|i: int, j: int|
                0 <= i < members@.len() && 0 <= j < members@.len() && item_disc_number(
                    list,
                    #[trigger] members@[i] as int,
                ) is Some && item_disc_number(list, #[trigger] members@[j] as int) is Some
                    && item_disc_number(list, members@[i] as int) != item_disc_number(
                    list,
                    members@[j] as int,
                );
            assert(disc_number(tracks@, members@[i]) != disc_number(tracks@, members@[j]));
        }
    }
    (partial, multi)
}

/// The discs of tracks are those of the items.
proof fn lemma_same_discs(
    list: Seq<MusicRest>,
    members: Seq<usize>,
    tracks: Seq<(usize, &ResolvedTrack)>,
    is_known: bool,
)
    requires
        forall|idx: usize| #[trigger] disc_of(tracks, idx, 0) == item_disc(list, idx as int),
    ensures
        some_disc(members, tracks, is_known) == some_member_disc(list, members, is_known),
{
    if some_disc(members, tracks, is_known) {
        let i = choose|i: int|
            0 <= i < members.len() && (disc_of(tracks, #[trigger] members[i], 0) matches Some(d)
                && d.is_known() == is_known);
        assert(item_disc(list, members[i] as int) is Some);
    }
    if some_member_disc(list, members, is_known) {
        let i = choose|i: int|
            0 <= i < members.len() && (item_disc(list, #[trigger] members[i] as int) matches Some(d)
                && d.is_known() == is_known);
        assert(disc_of(tracks, members[i], 0) is Some);
    }
}

/// What the disc numbers of groups come to.
fn judge_groups(
    items: &Vec<MusicItemInternal>,
    groups: &Vec<AlbumGroup>,
) -> (r: Vec<(bool, bool)>)
    ensures
        r@.len() == groups@.len(),
        forall|k: int|
            0 <= k < r@.len() ==> (#[trigger] r@[k]).0 == partly_numbered(
                rests(items@),
                groups@[k].items@,
            ) && r@[k].1 == on_several_discs(rests(items@), groups@[k].items@),
{
    let tracks = collect_tracks(items);
    let ghost list = rests(items@);
    let mut out: Vec<(bool, bool)> = Vec::new();
    let mut k: usize = 0;
    while k < groups.len()
        invariant
            k <= groups@.len(),
            list == rests(items@),
            out@.len() == k,
            forall|idx: usize| #[trigger] disc_of(tracks@, idx, 0) == item_disc(list, idx as int),
            forall|j: int|
                0 <= j < k ==> (#[trigger] out@[j]).0 == partly_numbered(list, groups@[j].items@)
                    && out@[j].1 == on_several_discs(list, groups@[j].items@),
        decreases groups@.len() - k,
    {
        out.push(judge_discs(&groups[k].items, &tracks, Ghost(list)));
        k = k + 1;
    }
    out
}

/// Applies the rules of groups to their members.
fn apply_group_level_rules(
    items: &mut Vec<MusicItemInternal>,
    groups: &Vec<AlbumGroup>,
    Ghost(cs): Ghost<Seq<ClusterView>>,
)
    requires
        groups@.len() == cs.len(),
        forall|k: int|
            0 <= k < groups@.len() ==> (#[trigger] groups@[k]).items@ == cs[k].members,
    ensures
        ruled(cs, old(items)@, final(items)@),
{
    let judged = judge_groups(items, groups);
    let ghost start = items@;
    let ghost list = rests(start);
    let mut i: usize = 0;
    while i < items.len()
        invariant
            i <= items@.len(),
            start == old(items)@,
            list == rests(start),
            items@.len() == start.len(),
            groups@.len() == cs.len(),
            judged@.len() == groups@.len(),
            forall|k: int|
                0 <= k < groups@.len() ==> (#[trigger] groups@[k]).items@ == cs[k].members,
            forall|k: int|
                0 <= k < judged@.len() ==> (#[trigger] judged@[k]).0 == partly_numbered(
                    list,
                    groups@[k].items@,
                ) && judged@[k].1 == on_several_discs(list, groups@[k].items@),
            forall|k: int|
                0 <= k < i ==> ruled_item(cs, list, #[trigger] start[k], items@[k], k),
            forall|k: int| i <= k < start.len() ==> (#[trigger] items@[k]) == start[k],
        decreases items@.len() - i,
    {
        let ghost held = items@;
        if let Some(g) = find_group(groups, i, Ghost(cs)) {
            let (partial, multi) = judged[g];
            if partial {
                let mut reasons: Vec<String> = Vec::new();
                reasons.push(
                    "some tracks in this album have a disc number and others do not".to_string(),
                );
                let mut missing: Vec<FieldName> = Vec::new();
                missing.push(FieldName::Disc);
                proof {
                    assert(reasons.deep_view() =~= seq![
                        "some tracks in this album have a disc number and others do not"@,
                    ]);
                    assert(missing@ =~= seq![FieldName::Disc]);
                }
                items[i].readiness = Readiness::NeedsReview { missing, reasons };
            } else {
                items[i].multi_disc = multi;
            }
        }
        proof {
            assert(ruled_item(cs, list, start[i as int], items@[i as int], i as int));
            assert forall|k: int| 0 <= k < i + 1 implies ruled_item(
                cs,
                list,
                #[trigger] start[k],
                items@[k],
                k,
            ) by {
                if k < i {
                    assert(items@[k] == held[k]);
                }
            }
        }
        i = i + 1;
    }
}

/// Whether files of a class go with an album.
pub open spec fn goes_with_album(class: FileClass) -> bool {
    class == FileClass::Artwork || class == FileClass::Metadata
}

/// The track in the directory of an item that the item goes with: the first
/// that is ready. Artwork and metadata belong to the album as a whole.
pub open spec fn anchor_of(ds: Seq<DraftView>, root: PathView, i: int) -> Option<int> {
    first_anchor(ds, FileClass::Audio, home_of(ds[i], root), root, 0)
}

/// What an orphan asks for.
pub open spec fn orphaned() -> ReadinessView {
    ReadinessView::NeedsReview {
        missing: Seq::empty(),
        reasons: seq!["orphan artwork/metadata: no ready track in the same directory"@],
    }
}

/// Whether an item has been associated.
pub open spec fn associated_item(
    items: Seq<MusicItemInternal>,
    a: MusicItemInternal,
    b: MusicItemInternal,
    root: PathView,
    i: int,
) -> bool {
    if !goes_with_album(a.class) {
        b.draft() == a.draft() && b.rest() == a.rest()
    } else {
        match anchor_of(drafts(items), root, i) {
            Some(p) => {
                &&& b.draft() == (DraftView { readiness: ReadinessView::Ready, ..a.draft() })
                &&& b.rest() == (MusicRest { parsed: a.rest().parsed, ..items[p].rest() })
            },
            None => {
                &&& b.draft() == (DraftView { readiness: orphaned(), ..a.draft() })
                &&& b.rest() == a.rest()
            },
        }
    }
}

/// Whether sidecars have been associated: each takes over what its track is,
/// or is an orphan.
pub open spec fn associated(
    before: Seq<MusicItemInternal>,
    after: Seq<MusicItemInternal>,
    root: PathView,
) -> bool {
    &&& before.len() == after.len()
    &&& forall|i: int|
        0 <= i < before.len() ==> associated_item(before, #[trigger] before[i], after[i], root, i)
}

/// Whether files of a class go with an album.
fn is_album_sidecar(class: FileClass) -> (r: bool)
    ensures
        r == goes_with_album(class),
{
    match class {
        FileClass::Artwork | FileClass::Metadata => true,
        _ => false,
    }
}

/// Associates artwork and metadata with the album in their directory.
pub fn associate_sidecars(items: &mut Vec<MusicItemInternal>, root: &FilePath)
    ensures
        associated(old(items)@, final(items)@, root.deep_view()),
{
    let ghost start = items@;
    let ghost ds = drafts(start);
    let ghost rv = root.deep_view();
    let mut parents: Vec<Option<usize>> = Vec::new();
    let mut i: usize = 0;
    while i < items.len()
        invariant
            i <= items@.len(),
            items@ == start,
            ds == drafts(start),
            rv == root.deep_view(),
            parents@.len() == i,
            forall|k: int|
                0 <= k < i && goes_with_album(start[k].class) ==> (match #[trigger] parents@[k] {
                    Some(p) => p < start.len() && anchor_of(ds, rv, k) == Some(p as int),
                    None => anchor_of(ds, rv, k) is None,
                }),
        decreases items@.len() - i,
    {
        proof {
            assert(ds[i as int] == items@[i as int].draft());
        }
        let parent: Option<usize> = if is_album_sidecar(items[i].class) {
            find_first_anchor(items, &directory_of(&items[i], root), root)
        } else {
            None
        };
        parents.push(parent);
        i = i + 1;
    }
    let mut k: usize = 0;
    while k < items.len()
        invariant
            k <= items@.len(),
            start == old(items)@,
            items@.len() == start.len(),
            parents@.len() == start.len(),
            ds == drafts(start),
            rv == root.deep_view(),
            forall|j: int|
                0 <= j < start.len() && goes_with_album(start[j].class) ==> (
                match #[trigger] parents@[j] {
                    Some(p) => p < start.len() && anchor_of(ds, rv, j) == Some(p as int),
                    None => anchor_of(ds, rv, j) is None,
                }),
            forall|j: int| 0 <= j < k ==> associated_item(start, #[trigger] start[j], items@[j], rv, j),
            forall|j: int|
                0 <= j < start.len() && (j >= k || !goes_with_album(start[j].class)) ==> (
                #[trigger] items@[j]) == start[j],
        decreases items@.len() - k,
    {
        let ghost held = items@;
        if is_album_sidecar(items[k].class) {
            match parents[k] {
                Some(p) => {
                    proof {
                        lemma_first_anchor(
                            ds,
                            FileClass::Audio,
                            home_of(ds[k as int], rv),
                            rv,
                            0,
                        );
                        assert(ds[p as int] == start[p as int].draft());
                        assert(!goes_with_album(start[p as int].class));
                        assert(items@[p as int] == start[p as int]);
                    }
                    let id = items[p].album_id.duplicate();
                    let resolved = items[p].resolved.duplicate();
                    let multi = items[p].multi_disc;
                    items[k].album_id = id;
                    items[k].resolved = resolved;
                    items[k].multi_disc = multi;
                    items[k].readiness = Readiness::Ready;
                    proof {
                        assert(items@[k as int].rest() =~= (MusicRest {
                            parsed: start[k as int].rest().parsed,
                            ..start[p as int].rest()
                        }));
                    }
                },
                None => {
                    let mut reasons: Vec<String> = Vec::new();
                    reasons.push(
                        "orphan artwork/metadata: no ready track in the same directory".to_string(),
                    );
                    let missing: Vec<FieldName> = Vec::new();
                    proof {
                        assert(reasons.deep_view() =~= seq![
                            "orphan artwork/metadata: no ready track in the same directory"@,
                        ]);
                    }
                    items[k].readiness = Readiness::NeedsReview { missing, reasons };
                },
            }
        }
        proof {
            assert(associated_item(start, start[k as int], items@[k as int], rv, k as int));
            assert forall|j: int| 0 <= j < k + 1 implies associated_item(
                start,
                #[trigger] start[j],
                items@[j],
                rv,
                j,
            ) by {
                if j < k {
                    assert(items@[j] == held[j]);
                }
            }
        }
        k = k + 1;
    }
}

/// The fields that an item which is not ready lacks; none where that is not
/// told.
pub open spec fn lacking(r: ReadinessView) -> Seq<FieldName> {
    match r {
        ReadinessView::NeedsReview { missing, .. } => missing,
        _ => Seq::empty(),
    }
}

/// The fields that an item which is not ready lacks.
fn readiness_missing(readiness: &Readiness) -> (r: Vec<FieldName>)
    ensures
        r@ == lacking(readiness.deep_view()),
{
    match readiness {
        Readiness::NeedsReview { missing, .. } => copy_names(missing),
        _ => Vec::new(),
    }
}

/// An item that has been routed. One that is not ready asks for a review of
/// what it lacks.
pub open spec fn routed_draft(
    it: MusicItemInternal,
    root: FilePath,
    v: VolumeSemantics,
    cfg: Config,
) -> DraftView {
    let d = it.draft();
    if !(d.readiness is Ready) {
        DraftView {
            action: ActionView::NeedsReview { path: d.source, missing: lacking(d.readiness) },
            ..d
        }
    } else {
        match it.resolved {
            Some(t) => {
                let ctx = MusicRouteContext {
                    root: &root,
                    id: &it.album_id,
                    resolved: &t,
                    multi_disc: it.multi_disc,
                    volume: &v,
                    cfg: &cfg,
                };
                match ctx.destination(d.class, d.source) {
                    Some(pair) => DraftView {
                        destination: Some(pair.0),
                        destination_relative: Some(pair.1),
                        ..d
                    },
                    None => d,
                }
            },
            None => d,
        }
    }
}

/// Whether items have been routed.
pub open spec fn routed(
    before: Seq<MusicItemInternal>,
    after: Seq<MusicItemInternal>,
    root: FilePath,
    v: VolumeSemantics,
    cfg: Config,
) -> bool {
    &&& same_rest(before, after)
    &&& forall|i: int|
        0 <= i < before.len() ==> (#[trigger] after[i]).draft() == routed_draft(
            before[i],
            root,
            v,
            cfg,
        )
}

/// Routes an item.
fn route_item(item: &mut MusicItemInternal, root: &FilePath, volume: &VolumeSemantics, cfg: &Config)
    ensures
        final(item).draft() == routed_draft(*old(item), *root, *volume, *cfg),
        final(item).identity() == old(item).identity(),
        final(item).rest() == old(item).rest(),
{
    match &item.readiness {
        Readiness::Ready => {},
        _ => {
            let missing = readiness_missing(&item.readiness);
            item.action = Action::NeedsReview { path: item.source.duplicate(), missing };
            return;
        },
    }
    let found = match &item.resolved {
        Some(t) => {
            let ctx = MusicRouteContext {
                root,
                id: &item.album_id,
                resolved: t,
                multi_disc: item.multi_disc,
                volume,
                cfg,
            };
            route(&ctx, item.class, &item.source)
        },
        None => None,
    };
    if let Some((absolute, relative)) = found {
        item.destination = Some(absolute);
        item.destination_relative = Some(relative);
    }
}

/// Routes items.
pub fn route_items(
    items: &mut Vec<MusicItemInternal>,
    root: &FilePath,
    volume: &VolumeSemantics,
    cfg: &Config,
)
    ensures
        routed(old(items)@, final(items)@, *root, *volume, *cfg),
{
    let ghost start = items@;
    let mut i: usize = 0;
    while i < items.len()
        invariant
            i <= items@.len(),
            start == old(items)@,
            items@.len() == start.len(),
            same_rest(start, items@),
            forall|k: int|
                0 <= k < i ==> (#[trigger] items@[k]).draft() == routed_draft(
                    start[k],
                    *root,
                    *volume,
                    *cfg,
                ),
            forall|k: int| i <= k < start.len() ==> (#[trigger] items@[k]) == start[k],
        decreases items@.len() - i,
    {
        let ghost held = items@;
        route_item(&mut items[i], root, volume, cfg);
        proof {
            assert forall|k: int| 0 <= k < start.len() implies (#[trigger] start[k]).identity()
                == items@[k].identity() && start[k].rest() == items@[k].rest() by {
                assert(start[k].identity() == held[k].identity());
                if k != i {
                    assert(items@[k] == held[k]);
                }
            }
            assert forall|k: int| 0 <= k < i + 1 implies (#[trigger] items@[k]).draft()
                == routed_draft(start[k], *root, *volume, *cfg) by {
                if k < i {
                    assert(items@[k] == held[k]);
                }
            }
        }
        i = i + 1;
    }
}

/// Reconciles items. Duplicates are tracks of the same album with the same
/// bytes.
pub fn reconcile_items<F: FileSystem>(
    fs: &mut F,
    items: &mut Vec<MusicItemInternal>,
    volume: &VolumeSemantics,
    cfg: &Config,
    notes: &mut Vec<Diagnostic>,
)
    ensures
        old(fs).is_steady() ==> final(fs).is_steady(),
        only_asks(old(fs).history(), final(fs).history()),
        final(fs).tree() == old(fs).tree(),
        exists|read: Findings| #[trigger]
            reconciled(
                old(fs).tree(),
                *cfg,
                *volume,
                old(items)@,
                final(items)@,
                read,
            ) && final(notes).deep_view() == old(notes).deep_view() + hash_notes(
                drafts(old(items)@),
                read.failed,
            ) && read.steady == old(fs).is_steady(),
        same_rest(old(items)@, final(items)@),
{
    reconcile_drafts(fs, items, volume, cfg, notes)
}

/// What the items of a music plan are from stage to stage.
pub struct MusicStages {
    pub files: Seq<ScannedView>,
    pub scanned: Seq<ScannedFile>,
    pub unread: Seq<(PathView, IoErrorView)>,
    pub started: Seq<MusicItemInternal>,
    pub answers: Seq<ProbeAnswer>,
    pub probed: Seq<MusicItemInternal>,
    pub reread: Seq<MusicItemInternal>,
    pub regrouped: Seq<MusicItemInternal>,
    pub ruled: Seq<MusicItemInternal>,
    pub associated: Seq<MusicItemInternal>,
    pub routed: Seq<MusicItemInternal>,
    pub validated: Seq<MusicItemInternal>,
    pub settled: Seq<MusicItemInternal>,
    pub read: Findings,
}

/// Whether a plan for music comes about by the stages.
pub open spec fn plans_music(t: Tree, p: Planner, s: MusicStages, plan: PlanView) -> bool {
    &&& p.heads(plan)
    &&& p.scans(t, s.scanned, s.unread)
    &&& s.files == classified(scanned_views(s.scanned), *p.cfg)
    &&& s.files.len() == 0 ==> found_nothing(s.unread, plan)
    &&& s.files.len() > 0 ==> {
        &&& started(s.files, *p.cfg, s.started)
        &&& probed(s.started, s.probed, *p.cfg, s.answers)
        &&& reread(s.probed, s.reread, *p.cfg)
        &&& regrouped(s.reread, s.regrouped)
        &&& ruled(albums(rests(s.reread)), s.regrouped, s.ruled)
        &&& associated(s.ruled, s.associated, p.root.deep_view())
        &&& routed(s.associated, s.routed, *p.root, p.volume, *p.cfg)
        &&& concludes(
            t,
            p.root.deep_view(),
            p.volume,
            *p.cfg,
            Seq::empty(),
            false,
            s.routed,
            s.validated,
            s.settled,
            s.read,
            plan,
        )
        &&& plan.diagnostics == unread_notes(s.unread) + probing_notes(s.started, s.answers)
            + all_check_notes(drafts(s.routed), p.volume) + hash_notes(
            drafts(s.validated),
            s.read.failed,
        )
    }
}

/// Run the music planning pipeline.
pub fn plan_music<F: FileSystem, P: Prober>(
    planner: &Planner,
    fs: &mut F,
    prober: &mut P,
    _opts: PlanOptions,
) -> (r: Result<Plan, IoError>)
    ensures
        old(fs).is_steady() ==> final(fs).is_steady(),
        only_asks(old(fs).history(), final(fs).history()),
        lists_first(
            old(fs).history(),
            final(fs).history(),
            planner.root.deep_view(),
            r is Ok,
        ),
        final(fs).tree() == old(fs).tree(),
        old(fs).is_steady() ==> r is Ok == is_dir(old(fs).tree(), planner.root.deep_view()),
        r matches Ok(plan) ==> exists|s: MusicStages| #[trigger]
            plans_music(old(fs).tree(), *planner, s, plan.deep_view()) && scanned_rightly(
                old(fs).tree(),
                *planner.cfg,
                old(fs).history(),
                final(fs).history(),
                s.scanned,
                s.unread,
                old(fs).is_steady(),
            ) && (old(fs).is_steady() ==> s.read.steady) && asks_also(
                *old(prober),
                *final(prober),
                lookings(s.started, s.answers),
            ) && all_answered(
                s.started,
                s.answers,
                *old(prober),
                old(fs).tree(),
                old(fs).history(),
                final(fs).history(),
                old(fs).is_steady(),
            ),
{
    let ghost h0 = fs.history();
    let ghost t = fs.tree();
    let ghost steady = fs.is_steady();
    let mut plan = planner.begin();
    let files = match planner.find_files(fs, &mut plan) {
        Ok(f) => f,
        Err(e) => {
            return Err(e);
        },
    };
    let ghost (scanned, unread) = choose|
        scanned: Seq<ScannedFile>,
        unread: Seq<(PathView, IoErrorView)>,
    | #[trigger]
        planner.scans(t, scanned, unread) && plan.deep_view().diagnostics == unread_notes(unread)
            && files.deep_view() == classified(scanned_views(scanned), *planner.cfg)
            && scanned_rightly(t, *planner.cfg, h0, fs.history(), scanned, unread, steady);
    let ghost h1 = fs.history();
    let ghost none: Seq<MusicItemInternal> = Seq::empty();
    if files.len() == 0 {
        note_nothing(&mut plan);
        proof {
            lemma_asks_nothing(*prober);
            let s = MusicStages {
                files: files.deep_view(),
                scanned,
                unread,
                started: none,
                answers: Seq::empty(),
                probed: none,
                reread: none,
                regrouped: none,
                ruled: none,
                associated: none,
                routed: none,
                validated: none,
                settled: none,
                read: Findings { found: Seq::empty(), failed: Seq::empty(), steady },
            };
            assert(plans_music(t, *planner, s, plan.deep_view()));
        }
        return Ok(plan);
    }
    let mut items = parse_and_resolve(&files, planner.cfg);
    let ghost s1 = items@;
    let ghost then = fs.is_steady();
    probe_audio_items(fs, prober, &mut items, planner.cfg, &mut plan.diagnostics);
    let ghost s2 = items@;
    let ghost answers = choose|answers: Seq<ProbeAnswer>| #[trigger]
        probed(s1, s2, *planner.cfg, answers) && plan.deep_view().diagnostics == unread_notes(
            unread,
        ) + probing_notes(s1, answers) && asks_also(
            *old(prober),
            *prober,
            lookings(s1, answers),
        ) && all_answered(s1, answers, *old(prober), t, h1, fs.history(), then);
    let ghost h2 = fs.history();
    reresolve_readiness(&mut items, planner.cfg);
    let ghost s3 = items@;
    let groups = regroup_items(&mut items);
    let ghost s4 = items@;
    apply_group_level_rules(&mut items, &groups, Ghost(albums(rests(s3))));
    let ghost s5 = items@;
    associate_sidecars(&mut items, planner.root);
    let ghost s6 = items@;
    route_items(&mut items, planner.root, &planner.volume, planner.cfg);
    let ghost s7 = items@;
    let missing: Vec<FieldName> = Vec::new();
    validate_items(&mut items, planner.root, &planner.volume, &missing, &mut plan.diagnostics);
    let ghost s8 = items@;
    let ghost checked = plan.deep_view().diagnostics;
    let ghost now = fs.is_steady();
    reconcile_items(fs, &mut items, &planner.volume, planner.cfg, &mut plan.diagnostics);
    let ghost s9 = items@;
    let ghost read = choose|read: Findings| #[trigger]
        reconciled(t, *planner.cfg, planner.volume, s8, s9, read) && plan.deep_view().diagnostics
            == checked + hash_notes(drafts(s8), read.failed) && read.steady == now;
    finalise_plan(fs, planner.root, &planner.volume, &items, false, &mut plan);
    proof {
        let s = MusicStages {
            files: files.deep_view(),
            scanned,
            unread,
            started: s1,
            answers,
            probed: s2,
            reread: s3,
            regrouped: s4,
            ruled: s5,
            associated: s6,
            routed: s7,
            validated: s8,
            settled: s9,
            read,
        };
        lemma_all_answered_among(
            s1,
            answers,
            *old(prober),
            t,
            h0,
            h1,
            h2,
            fs.history(),
            then,
            steady,
        );
        lemma_unread_stays(t, h0, h1, fs.history(), unread, steady);
        assert(missing@ =~= Seq::empty());
        assert(reconciled(t, *planner.cfg, planner.volume, s8, s9, read));
        assert(plans_music(t, *planner, s, plan.deep_view()));
    }
    Ok(plan)
}

/// Up to routing an item is the file that was found.
proof fn lemma_item_is_file(t: Tree, p: Planner, s: MusicStages, plan: PlanView, i: int)
    requires
        plans_music(t, p, s, plan),
        0 <= i < s.files.len(),
    ensures
        s.associated.len() == s.files.len(),
        s.routed.len() == s.files.len(),
        s.associated[i].draft() == (DraftView {
            readiness: s.associated[i].draft().readiness,
            ..started_draft(i, s.files[i], *p.cfg)
        }),
{
    assert(s.started[i].draft() == started_draft(i, s.files[i], *p.cfg));
    assert(probed_item(s.started[i], s.probed[i], *p.cfg, s.answers[i]));
    assert(s.reread[i].draft() == reread_draft(s.probed[i], *p.cfg));
    assert(drafts(s.regrouped)[i] == s.regrouped[i].draft());
    assert(drafts(s.reread)[i] == s.reread[i].draft());
    assert(ruled_item(
        albums(rests(s.reread)),
        rests(s.regrouped),
        s.regrouped[i],
        s.ruled[i],
        i,
    ));
    assert(associated_item(s.ruled, s.ruled[i], s.associated[i], p.root.deep_view(), i));
}

/// A destination that is contained is under the root.
proof fn lemma_route_is_under_root(
    it: MusicItemInternal,
    root: FilePath,
    v: VolumeSemantics,
    cfg: Config,
)
    requires
        it.draft().destination is None,
        routed_draft(it, root, v, cfg).destination is Some,
        is_contained(relative_of(routed_draft(it, root, v, cfg))),
    ensures
        it.draft().readiness is Ready,
        routed_draft(it, root, v, cfg).destination->0.starts_with(root.deep_view()),
        routed_draft(it, root, v, cfg).destination->0.parts.len() > root.deep_view().parts.len(),
{
    let d = it.draft();
    let track = it.resolved->0;
    let ctx = MusicRouteContext {
        root: &root,
        id: &it.album_id,
        resolved: &track,
        multi_disc: it.multi_disc,
        volume: &v,
        cfg: &cfg,
    };
    let parts = extended(ctx.dirs(), ctx.file(d.class, d.source))->0;
    law_contained_place_is_under_root(root.deep_view(), parts, extension_or_empty(d.source), v);
}

/// What is moved was routed, is ready, and stays under the root.
proof fn lemma_moved_item(
    t: Tree,
    p: Planner,
    s: MusicStages,
    plan: PlanView,
    a: MusicItemInternal,
    i: int,
)
    requires
        concludes(
            t,
            p.root.deep_view(),
            p.volume,
            *p.cfg,
            Seq::empty(),
            false,
            s.routed,
            s.validated,
            s.settled,
            s.read,
            plan,
        ),
        0 <= i < s.routed.len(),
        s.routed[i].draft() == routed_draft(a, *p.root, p.volume, *p.cfg),
        a.draft().destination is None,
        a.draft().action is NoOp,
    ensures
        plan.items.len() == s.routed.len(),
        plan.items[i].source == a.draft().source,
        plan.items[i].class == a.draft().class,
        plan.items[i].readiness == a.draft().readiness,
        plan.items[i].action matches ActionView::Move { from, to } ==> a.draft().readiness is Ready
            && from == a.draft().source && to.starts_with(p.root.deep_view()),
{
    let root = p.root.deep_view();
    law_plan_follows_routes(
        t,
        root,
        p.volume,
        *p.cfg,
        Seq::empty(),
        false,
        s.routed,
        s.validated,
        s.settled,
        s.read,
        plan,
        i,
    );
    if plan.items[i].action is Move {
        let d = s.routed[i].draft();
        assert(d.destination is Some);
        lemma_route_is_under_root(a, *p.root, p.volume, *p.cfg);
        let dest = d.destination->0;
        let to = plan.items[i].destination->0;
        if to != dest {
            let n = choose|n: nat| to == #[trigger] copy_path(dest, n);
            law_copy_stays_under_root(root, dest, n);
        }
    }
}

/// A music plan moves nothing but what is ready, and nothing out of the root.
/// What is of no known class is never moved.
/// Every file that was found is in it, in its place.
pub proof fn law_music_plan_is_safe(t: Tree, p: Planner, s: MusicStages, plan: PlanView, i: int)
    requires
        plans_music(t, p, s, plan),
        0 <= i < s.files.len(),
    ensures
        plan.items.len() == s.files.len(),
        plan.items[i].source == s.files[i].absolute,
        plan.items[i].class == s.files[i].class,
        plan.items[i].action matches ActionView::Move { from, to } ==> plan.items[i].readiness
            is Ready && from == s.files[i].absolute && to.starts_with(p.root.deep_view()),
        s.files[i].class == FileClass::Unknown ==> !(plan.items[i].action is Move),
{
    lemma_item_is_file(t, p, s, plan, i);
    assert(s.routed[i].draft() == routed_draft(s.associated[i], *p.root, p.volume, *p.cfg));
    lemma_moved_item(t, p, s, plan, s.associated[i], i);
}

} // verus!
