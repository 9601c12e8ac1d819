//! Planner orchestration.
//!
//! Stages: scan, classify, parse, group, probe, resolve, regroup, associate,
//! route, validate, reconcile. Nothing is written.

use crate::domain::classify::{FileClass, MediaKind};
use crate::domain::config::Config;
use crate::domain::duplicate::Duplicate;
use crate::domain::error::{note, Diagnostic, DiagnosticView, Severity};
use crate::domain::fs::{
    goes_on, is_dir, lists_first, only_asks, Call, FileSystem, IoError, IoErrorView, Tree,
};
use crate::domain::identity::{norm_of, same_edition, MovieId, MovieIdView, Norm, NormView};
use crate::domain::path::{FilePath, PathView};
use crate::domain::plan::{
    no_stats, Action, ActionView, FieldName, ItemId, Plan, PlanView, Readiness, ReadinessView,
};
use crate::domain::provenance::{Confidence, Field, FieldView, Source};
use crate::domain::run_id::RunId;
use crate::domain::volume::{conservative_volume, VolumeSemantics};
use crate::engine::associate::{
    anchor_by_name, anchors, directory_of, find_anchor_by_name, find_first_anchor, first_anchor,
    goes_along, home_of, is_sidecar, lemma_anchor_by_name, lemma_first_anchor,
};
use crate::engine::classify::{classified, classify};
use crate::engine::cluster::{clusters, ClusterView, KeyedView};
use crate::engine::draft::{drafts, same_rest, DraftView, Drafted};
use crate::engine::group::{group_movies, movie_key, movie_keys, MovieGroup};
use crate::engine::layout::{extension_or_empty, law_contained_place_is_under_root};
use crate::engine::music_plan::{plan_music, plans_music, MusicStages};
use crate::engine::probe_stage::{
    answer_notes, answered_rightly, answers_alike, asks_also, could_become_move, each_follows,
    holds_given, lemma_answered_among, lemma_asks_more, lemma_asks_nothing, lemma_follows_cache,
    may_become_move, open_cache, probe_and_merge, Looking, NoProber, ProbeAnswer, Prober,
};
use crate::engine::reconcile::{copy_path, hash_notes, reconcile, reconciled, Findings};
use crate::engine::resolve::{resolve_movie, resolved_from, ResolvedMovie, ResolvedMovieView};
use crate::engine::route::{route, RouteContext};
use crate::engine::scan::{
    complete, each_once, lemma_unread_stays, scan_noting, scanned_views, sound, told, unread_notes,
    unread_rightly, walks_once, Reach, ScannedFile, ScannedView, CONTAINER_LEVELS,
};
use crate::engine::stages::{
    all_check_notes, concludes, finalise_plan, law_copy_stays_under_root, law_plan_follows_routes,
    validate_items,
};
use crate::engine::tv_plan::{plan_tv, plans_tv, TvStages};
use crate::hashing::blake3_hex;
use crate::parse::model::{MediaParse, MovieFields, ParseOptions, ParsedMovie};
use crate::parse::parser::{law_movie_fields_come_from_name, movie_fields, parse_movie};
use crate::text;
use vstd::prelude::*;
use vstd::utf8::encode_utf8;

verus! {

/// Internal planner item, changed from stage to stage.
#[derive(Debug, Clone)]
pub struct PlanItemInternal {
    pub id: ItemId,
    pub source: FilePath,
    pub relative: FilePath,
    pub class: FileClass,
    pub parsed: Option<ParsedMovie>,
    pub resolved: Option<ResolvedMovie>,
    pub movie_id: MovieId,
    pub destination: Option<FilePath>,
    pub destination_relative: Option<FilePath>,
    pub action: Action,
    pub readiness: Readiness,
}

/// What of a planner item is about movies.
#[verifier::ext_equal]
pub struct MovieRest {
    pub parsed: Option<MovieFields>,
    pub resolved: Option<ResolvedMovieView>,
    pub movie_id: MovieIdView,
}

impl Drafted for PlanItemInternal {
    type Key = (Seq<char>, Option<Seq<char>>);

    type Rest = MovieRest;

    open spec fn draft(&self) -> DraftView {
        DraftView {
            id: self.id,
            source: self.source.deep_view(),
            relative: self.relative.deep_view(),
            class: self.class,
            destination: self.destination.deep_view(),
            destination_relative: self.destination_relative.deep_view(),
            action: self.action.deep_view(),
            readiness: self.readiness.deep_view(),
        }
    }

    open spec fn identity(&self) -> Option<Self::Key> {
        Some((self.movie_id.deep_view().title.key, self.movie_id.deep_view().edition))
    }

    open spec fn rest(&self) -> Self::Rest {
        MovieRest {
            parsed: self.parsed.deep_view(),
            resolved: self.resolved.deep_view(),
            movie_id: self.movie_id.deep_view(),
        }
    }

    open spec fn main_class() -> FileClass {
        FileClass::Video
    }

    fn id(&self) -> (r: ItemId) {
        self.id
    }

    fn source(&self) -> (r: &FilePath) {
        &self.source
    }

    fn relative(&self) -> (r: &FilePath) {
        &self.relative
    }

    fn class(&self) -> (r: FileClass) {
        self.class
    }

    fn destination(&self) -> (r: Option<&FilePath>) {
        self.destination.as_ref()
    }

    fn destination_relative(&self) -> (r: Option<&FilePath>) {
        self.destination_relative.as_ref()
    }

    fn action(&self) -> (r: &Action) {
        &self.action
    }

    fn readiness(&self) -> (r: &Readiness) {
        &self.readiness
    }

    fn is_main(&self) -> (r: bool) {
        self.class == FileClass::Video
    }

    fn is_identified(&self) -> (r: bool) {
        true
    }

    fn same_identity(&self, other: &Self) -> (r: bool) {
        text::same_text(&self.movie_id.title.key, &other.movie_id.title.key) && same_edition(
            &self.movie_id.edition,
            &other.movie_id.edition,
        )
    }

    fn set_action(&mut self, action: Action) {
        self.action = action;
    }

    fn set_destination(&mut self, to: FilePath) {
        self.destination = Some(to);
    }

    fn set_destination_relative(&mut self, to: FilePath) {
        self.destination_relative = Some(to);
    }
}

/// Planning options.
#[derive(Debug, Clone, Copy, PartialEq, Eq)]
pub struct PlanOptions {
    pub dry_run: bool,
}

impl Default for PlanOptions {
    fn default() -> (r: Self)
        ensures
            !r.dry_run,
    {
        PlanOptions { dry_run: false }
    }
}

/// The parts of the items that are about movies.
pub open spec fn rests(items: Seq<PlanItemInternal>) -> Seq<MovieRest> {
    Seq::new(items.len(), |i: int| items[i].rest())
}

/// The name of a file; empty where it has none.
pub open spec fn name_or_empty(p: PathView) -> Seq<char> {
    match p.file_name() {
        Some(n) => n,
        None => Seq::empty(),
    }
}

/// The name of a file; empty where it has none.
pub fn file_name_or_empty(p: &FilePath) -> (r: String)
    ensures
        r@ == name_or_empty(p.deep_view()),
{
    match p.file_name() {
        Some(n) => n.to_string(),
        None => {
            proof {
                reveal_strlit("");
                assert(""@ =~= Seq::empty());
            }
            "".to_string()
        },
    }
}

/// What a file is as far as its place in the plan goes, before anything is
/// known of it.
pub open spec fn fresh_draft(n: int, f: ScannedView, readiness: ReadinessView) -> DraftView {
    DraftView {
        id: ItemId(n as u64),
        source: f.absolute,
        relative: f.relative,
        class: f.class,
        destination: None,
        destination_relative: None,
        action: ActionView::NoOp,
        readiness,
    }
}

/// What is parsed from the name of a movie.
pub open spec fn parsed_from_name(f: ScannedView) -> MovieFields {
    movie_fields(
        name_or_empty(f.absolute),
        (ParseOptions { min_year: 1888, max_year: 2030 }),
    )
}

/// The normalised form of nothing.
pub open spec fn no_norm() -> NormView {
    NormView { key: Seq::empty(), display: Seq::empty() }
}

/// The normalised form of a field.
pub open spec fn norm_of_field(f: FieldView<Seq<char>>) -> NormView {
    match f.ok() {
        Some(t) => norm_of(t, false),
        None => no_norm(),
    }
}

/// The normalised form of a field.
pub fn field_norm(f: &Field<String>) -> (r: Norm)
    ensures
        r.deep_view() == norm_of_field(f.deep_view()),
{
    match f.as_value() {
        Some(t) => Norm::from_display(t),
        None => Norm::empty(),
    }
}

/// What is known of a scanned file from its name.
pub open spec fn started_rest(f: ScannedView) -> MovieRest {
    if f.class == FileClass::Video {
        let p = parsed_from_name(f);
        MovieRest {
            parsed: Some(p),
            resolved: Some(resolved_from(p)),
            movie_id: MovieIdView { title: norm_of_field(p.title), year: None, edition: None },
        }
    } else {
        MovieRest {
            parsed: None,
            resolved: None,
            movie_id: MovieIdView { title: no_norm(), year: None, edition: None },
        }
    }
}

/// What a scanned file is at the start.
pub open spec fn started_draft(n: int, f: ScannedView, cfg: Config) -> DraftView {
    fresh_draft(
        n,
        f,
        if f.class == FileClass::Video {
            resolved_from(parsed_from_name(f)).readiness(cfg)
        } else {
            ReadinessView::Ready
        },
    )
}

/// Whether items are what scanned files are at the start.
pub open spec fn started(files: Seq<ScannedView>, cfg: Config, items: Seq<PlanItemInternal>) -> bool {
    &&& items.len() == files.len()
    &&& forall|i: int|
        0 <= i < items.len() ==> (#[trigger] items[i]).draft() == started_draft(i, files[i], cfg)
            && items[i].rest() == started_rest(files[i])
}

/// Parses a scanned file.
fn start_item(n: u64, f: &ScannedFile, cfg: &Config) -> (r: PlanItemInternal)
    ensures
        r.draft() == started_draft(n as int, f.deep_view(), *cfg),
        r.rest() == started_rest(f.deep_view()),
{
    let (parsed, resolved, movie_id, readiness): (
        Option<ParsedMovie>,
        Option<ResolvedMovie>,
        MovieId,
        Readiness,
    ) = if f.class == FileClass::Video {
        match parse_movie(&file_name_or_empty(&f.absolute)) {
            MediaParse::Movie(p) => {
                let m = resolve_movie(&p, cfg);
                let id = MovieId::new(field_norm(&m.title));
                let readiness = m.readiness(cfg);
                (Some(p), Some(m), id, readiness)
            },
            _ => (None, None, MovieId::new(Norm::empty()), Readiness::Ready),
        }
    } else {
        (None, None, MovieId::new(Norm::empty()), Readiness::Ready)
    };
    PlanItemInternal {
        id: ItemId::new(n),
        source: f.absolute.duplicate(),
        relative: f.relative.duplicate(),
        class: f.class,
        parsed,
        resolved,
        movie_id,
        destination: None,
        destination_relative: None,
        action: Action::NoOp,
        readiness,
    }
}

/// Parses scanned files and resolves them from their names.
pub fn parse_and_resolve(scanned: &Vec<ScannedFile>, cfg: &Config) -> (r: Vec<PlanItemInternal>)
    ensures
        started(scanned.deep_view(), *cfg, r@),
{
    let mut out: Vec<PlanItemInternal> = Vec::new();
    let mut i: usize = 0;
    while i < scanned.len()
        invariant
            i <= scanned@.len(),
            out@.len() == i,
            forall|k: int|
                0 <= k < i ==> (#[trigger] out@[k]).draft() == started_draft(
                    k,
                    scanned.deep_view()[k],
                    *cfg,
                ) && out@[k].rest() == started_rest(scanned.deep_view()[k]),
        decreases scanned@.len() - i,
    {
        out.push(start_item(i as u64, &scanned[i], cfg));
        i = i + 1;
    }
    out
}

/// Whether an item has been probed: where it has a title, what was answered is
/// folded in.
pub open spec fn probed_item(
    a: PlanItemInternal,
    b: PlanItemInternal,
    cfg: Config,
    answer: ProbeAnswer,
) -> bool {
    &&& b.draft() == a.draft()
    &&& b.rest() == (if may_become_move(a.class, a.resolved.deep_view()) {
        MovieRest {
            resolved: Some(a.rest().resolved->0.with_answer(answer, cfg.source_preference)),
            ..a.rest()
        }
    } else {
        a.rest()
    })
}

/// Whether items have been probed.
pub open spec fn probed(
    before: Seq<PlanItemInternal>,
    after: Seq<PlanItemInternal>,
    cfg: Config,
    answers: Seq<ProbeAnswer>,
) -> bool {
    &&& before.len() == after.len() == answers.len()
    &&& forall|i: int|
        0 <= i < before.len() ==> probed_item(#[trigger] before[i], after[i], cfg, answers[i])
}

/// What is said of probing items.
pub open spec fn probing_notes(items: Seq<PlanItemInternal>, answers: Seq<ProbeAnswer>) -> Seq<
    DiagnosticView,
>
    decreases answers.len(),
{
    if answers.len() == 0 {
        Seq::empty()
    } else {
        let it = items[answers.len() - 1];
        probing_notes(items, answers.drop_last()) + if may_become_move(
            it.class,
            it.resolved.deep_view(),
        ) {
            answer_notes(it.id, it.resolved.deep_view()->0, answers.last())
        } else {
            Seq::empty()
        }
    }
}

/// Whether an item is looked into: it is a video that could be moved.
pub open spec fn is_probed(a: PlanItemInternal) -> bool {
    may_become_move(a.class, a.resolved.deep_view())
}

/// What is looked into for items.
pub open spec fn lookings(items: Seq<PlanItemInternal>, answers: Seq<ProbeAnswer>) -> Seq<Looking>
    decreases answers.len(),
{
    if answers.len() == 0 {
        Seq::empty()
    } else {
        let it = items[answers.len() - 1];
        lookings(items, answers.drop_last()) + if is_probed(it) {
            answers.last().looking(it.source.deep_view(), false)
        } else {
            Seq::empty()
        }
    }
}

/// Whether the items that are looked into, and no others, were rightly answered
/// for, each by its key, and none was looked into twice.
pub open spec fn all_answered<P: Prober>(
    items: Seq<PlanItemInternal>,
    answers: Seq<ProbeAnswer>,
    prober: P,
    t: Tree,
    h0: Seq<Call>,
    h1: Seq<Call>,
    steady: bool,
) -> bool {
    &&& each_follows(answers)
    &&& forall|i: int|
        0 <= i < answers.len() ==> if is_probed(items[i]) {
            answered_rightly(
                #[trigger] answers[i],
                items[i].source.deep_view(),
                false,
                prober,
                t,
                h0,
                h1,
                steady,
            )
        } else {
            answers[i] == ProbeAnswer::Passed
        }
}

/// What was rightly answered is so whatever else was asked before and after.
proof fn lemma_all_answered_among<P: Prober>(
    items: Seq<PlanItemInternal>,
    answers: Seq<ProbeAnswer>,
    prober: P,
    t: Tree,
    h0: Seq<Call>,
    h1: Seq<Call>,
    h2: Seq<Call>,
    h3: Seq<Call>,
    now: bool,
    steady: bool,
)
    requires
        all_answered(items, answers, prober, t, h1, h2, now),
        goes_on(h0, h1),
        goes_on(h2, h3),
        steady ==> now,
    ensures
        all_answered(items, answers, prober, t, h0, h3, steady),
{
    assert forall|i: int| 0 <= i < answers.len() && is_probed(items[i]) implies answered_rightly(
        #[trigger] answers[i],
        items[i].source.deep_view(),
        false,
        prober,
        t,
        h0,
        h3,
        steady,
    ) by {
        lemma_answered_among(
            answers[i],
            items[i].source.deep_view(),
            false,
            prober,
            prober,
            t,
            h0,
            h1,
            h2,
            h3,
            now,
            steady,
        );
    }
}

/// What is rightly answered for the next item is so beside the others.
proof fn lemma_one_more_answered<P: Prober>(
    items: Seq<PlanItemInternal>,
    answers: Seq<ProbeAnswer>,
    a: ProbeAnswer,
    prober: P,
    asked: P,
    t: Tree,
    h0: Seq<Call>,
    h1: Seq<Call>,
    h2: Seq<Call>,
    now: bool,
    steady: bool,
)
    requires
        all_answered(items, answers, prober, t, h0, h1, steady),
        each_follows(answers.push(a)),
        goes_on(h0, h1),
        goes_on(h1, h2),
        steady ==> now,
        answers_alike(prober, asked),
        if is_probed(items[answers.len() as int]) {
            answered_rightly(
                a,
                items[answers.len() as int].source.deep_view(),
                false,
                asked,
                t,
                h1,
                h2,
                now,
            )
        } else {
            a == ProbeAnswer::Passed
        },
    ensures
        all_answered(items, answers.push(a), prober, t, h0, h2, steady),
{
    let all = answers.push(a);
    let n = answers.len() as int;
    lemma_all_answered_among(items, answers, prober, t, h0, h0, h1, h2, steady, steady);
    if is_probed(items[n]) {
        lemma_answered_among(
            a,
            items[n].source.deep_view(),
            false,
            asked,
            prober,
            t,
            h0,
            h1,
            h2,
            h2,
            now,
            steady,
        );
    }
    assert forall|k: int| 0 <= k < all.len() implies if is_probed(items[k]) {
        answered_rightly(
            #[trigger] all[k],
            items[k].source.deep_view(),
            false,
            prober,
            t,
            h0,
            h2,
            steady,
        )
    } else {
        all[k] == ProbeAnswer::Passed
    } by {
        if k < n {
            assert(all[k] == answers[k]);
        }
    }
}

/// Probes the videos that could be moved.
fn probe_items<F: FileSystem, P: Prober>(
    fs: &mut F,
    prober: &mut P,
    items: &mut Vec<PlanItemInternal>,
    cfg: &Config,
    notes: &mut Vec<Diagnostic>,
)
    ensures
        old(fs).is_steady() ==> final(fs).is_steady(),
        only_asks(old(fs).history(), final(fs).history()),
        final(fs).tree() == old(fs).tree(),
        exists|answers: Seq<ProbeAnswer>| #[trigger]
            probed(old(items)@, final(items)@, *cfg, answers) && final(notes).deep_view() == old(
                notes,
            ).deep_view() + probing_notes(old(items)@, answers) && asks_also(
                *old(prober),
                *final(prober),
                lookings(old(items)@, answers),
            ) && all_answered(
                old(items)@,
                answers,
                *old(prober),
                old(fs).tree(),
                old(fs).history(),
                final(fs).history(),
                old(fs).is_steady(),
            ),
{
    let ghost h0 = fs.history();
    let ghost t = fs.tree();
    let ghost steady = fs.is_steady();
    let ghost looking = *prober;
    let ghost start = items@;
    let ghost said = notes.deep_view();
    let ghost mut answers: Seq<ProbeAnswer> = Seq::empty();
    let mut cache = open_cache();
    let mut i: usize = 0;
    proof {
        assert(said =~= said + probing_notes(start, answers));
        lemma_asks_nothing(looking);
    }
    while i < items.len()
        invariant
            only_asks(old(fs).history(), fs.history()),
            steady == old(fs).is_steady(),
            steady ==> fs.is_steady(),
            looking == *old(prober),
            answers_alike(looking, *prober),
            holds_given(cache, answers),
            h0 == old(fs).history(),
            all_answered(start, answers, looking, t, h0, fs.history(), steady),
            asks_also(looking, *prober, lookings(start, answers)),
            i <= items@.len(),
            t == old(fs).tree(),
            fs.tree() == t,
            start == old(items)@,
            said == old(notes).deep_view(),
            answers.len() == i,
            notes.deep_view() == said + probing_notes(start, answers),
            items@.len() == start.len(),
            forall|k: int| 0 <= k < i ==> probed_item(
                #[trigger] start[k],
                items@[k],
                *cfg,
                answers[k],
            ),
            forall|k: int| i <= k < start.len() ==> (#[trigger] items@[k]) == start[k],
        decreases items@.len() - i,
    {
        let ghost held = items@;
        let ghost known = answers;
        let ghost heard = notes.deep_view();
        let ghost mut answer = ProbeAnswer::Passed;
        let ghost now = fs.is_steady();
        let ghost h1 = fs.history();
        let ghost held_cache = cache;
        let ghost before = *prober;
        if could_become_move(items[i].class, items[i].resolved.as_ref()) {
            if let Some(m) = &items[i].resolved {
                let mut resolved = m.duplicate();
                let ghost was = resolved.deep_view();
                let source = items[i].source.duplicate();
                let id = items[i].id;
                probe_and_merge(fs, prober, &source, id, &mut resolved, &mut cache, cfg, notes);
                items[i].resolved = Some(resolved);
                proof {
                    let a = held[i as int];
                    let b = items@[i as int];
                    answer = choose|x: ProbeAnswer|
                        resolved.deep_view() == #[trigger] was.with_answer(x, cfg.source_preference)
                            && notes.deep_view() == heard + answer_notes(id, was, x)
                            && asks_also(
                            before,
                            *prober,
                            x.looking(source.deep_view(), false),
                        ) && x.accords(held_cache, cache) && answered_rightly(
                            x,
                            source.deep_view(),
                            false,
                            before,
                            t,
                            h1,
                            fs.history(),
                            now,
                        );
                    assert(b.rest() =~= (MovieRest {
                        resolved: Some(
                            a.rest().resolved->0.with_answer(answer, cfg.source_preference),
                        ),
                        ..a.rest()
                    }));
                    assert(probed_item(a, b, *cfg, answer));
                }
            }
        }
        proof {
            answers = known.push(answer);
            assert(answers.drop_last() =~= known);
            assert(answers_alike(looking, *prober));
            if is_probed(start[i as int]) {
                lemma_asks_more(
                    looking,
                    before,
                    *prober,
                    lookings(start, known),
                    answer.looking(start[i as int].source.deep_view(), false),
                );
            } else {
                lemma_asks_nothing(before);
                lemma_asks_more(
                    looking,
                    before,
                    *prober,
                    lookings(start, known),
                    Seq::empty(),
                );
            }
            lemma_follows_cache(held_cache, cache, known, answer);
            lemma_one_more_answered(
                start,
                known,
                answer,
                looking,
                before,
                t,
                h0,
                h1,
                fs.history(),
                now,
                steady,
            );
            assert(notes.deep_view() =~= said + probing_notes(start, answers));
            assert forall|k: int| 0 <= k < i + 1 implies probed_item(
                #[trigger] start[k],
                items@[k],
                *cfg,
                answers[k],
            ) by {
                if k < i {
                    assert(items@[k] == held[k]);
                    assert(answers[k] == known[k]);
                }
            }
        }
        i = i + 1;
    }
    proof {
        assert(probed(start, items@, *cfg, answers));
    }
}

/// What items are grouped by: those that have resolved fields, by their
/// numbers.
pub open spec fn item_keys(list: Seq<MovieRest>) -> Seq<KeyedView>
    decreases list.len(),
{
    if list.len() == 0 {
        Seq::empty()
    } else {
        let rest = item_keys(list.drop_last());
        match list.last().resolved {
            Some(m) => rest.push(movie_key((list.len() - 1) as usize, m)),
            None => rest,
        }
    }
}

/// The identity of a group of items.
pub open spec fn identity_of(list: Seq<MovieRest>, c: ClusterView) -> MovieIdView {
    let first = item_keys(list)[c.first].idx;
    MovieIdView {
        title: norm_of(list[first as int].resolved->0.title.ok()->0, false),
        year: c.year,
        edition: None,
    }
}

/// Groups items by title and settles on a year for each group.
pub fn group_items(items: &Vec<PlanItemInternal>) -> (r: Vec<MovieGroup>)
    ensures
        r@.len() == clusters(item_keys(rests(items@))).len(),
        forall|i: int|
            0 <= i < r@.len() ==> (#[trigger] r@[i]).id.deep_view() == identity_of(
                rests(items@),
                clusters(item_keys(rests(items@)))[i],
            ) && r@[i].items@ == clusters(item_keys(rests(items@)))[i].members,
{
    let ghost list = rests(items@);
    let mut found: Vec<(usize, &ResolvedMovie)> = Vec::new();
    let mut i: usize = 0;
    proof {
        assert(movie_keys(found@) =~= item_keys(list.take(0)));
    }
    while i < items.len()
        invariant
            i <= items@.len(),
            list == rests(items@),
            movie_keys(found@) == item_keys(list.take(i as int)),
            forall|k: int|
                0 <= k < found@.len() ==> (#[trigger] found@[k]).0 < i
                    && list[found@[k].0 as int].resolved == Some(found@[k].1.deep_view()),
        decreases items@.len() - i,
    {
        proof {
            assert(list.take(i + 1).drop_last() =~= list.take(i as int));
            assert(list.take(i + 1).last() == items@[i as int].rest());
        }
        if let Some(m) = &items[i].resolved {
            let ghost held = movie_keys(found@);
            found.push((i, m));
            proof {
                assert(movie_keys(found@) =~= held.push(movie_key(i, m.deep_view())));
            }
        }
        i = i + 1;
    }
    proof {
        assert(list.take(i as int) =~= list);
    }
    let groups = group_movies(&found);
    proof {
        let keys = item_keys(list);
        assert forall|k: int| 0 <= k < groups@.len() implies (#[trigger] groups@[k]).id.deep_view()
            == identity_of(list, clusters(keys)[k]) by {
            crate::engine::cluster::lemma_clusters_have_first(keys, keys.len() as int, k);
            let c = clusters(keys)[k];
            assert(movie_keys(found@)[c.first] == keys[c.first]);
            assert(found@[c.first].0 == keys[c.first].idx);
        }
    }
    groups
}

/// The first group, from a place on, that an item is in.
pub open spec fn group_of(groups: Seq<ClusterView>, idx: usize, from: int) -> Option<int>
    decreases groups.len() - from,
{
    if from < 0 || from >= groups.len() {
        None
    } else if groups[from].members.contains(idx) {
        Some(from)
    } else {
        group_of(groups, idx, from + 1)
    }
}

/// Whether a list holds a number.
pub fn holds_number(list: &Vec<usize>, n: usize) -> (r: bool)
    ensures
        r == list@.contains(n),
{
    let mut i: usize = 0;
    while i < list.len()
        invariant
            i <= list@.len(),
            forall|k: int| 0 <= k < i ==> list@[k] != n,
        decreases list@.len() - i,
    {
        if list[i] == n {
            return true;
        }
        i = i + 1;
    }
    false
}

/// The year that a group has, as a field.
pub open spec fn group_year(y: u16) -> FieldView<u16> {
    FieldView::Known { value: y, source: Source::Filename, confidence: Confidence::Medium }
}

/// A year field, with the year of the group where it is not known.
pub open spec fn year_or(f: FieldView<u16>, year: Option<u16>) -> FieldView<u16> {
    match year {
        Some(y) if !f.is_known() => group_year(y),
        _ => f,
    }
}

/// A year field, with the year of the group where it is not known.
pub fn fill_year(f: &Field<u16>, year: Option<u16>) -> (r: Field<u16>)
    ensures
        r.deep_view() == year_or(f.deep_view(), year),
{
    match year {
        Some(y) if !f.is_known() => Field::known(y, Source::Filename, Confidence::Medium),
        _ => f.duplicate(),
    }
}

/// An item that has the identity of its group written back.
pub open spec fn in_group(list: Seq<MovieRest>, i: int) -> MovieRest {
    let groups = clusters(item_keys(list));
    match group_of(groups, i as usize, 0) {
        Some(k) => {
            let id = identity_of(list, groups[k]);
            MovieRest {
                movie_id: id,
                resolved: match list[i].resolved {
                    Some(m) => Some(ResolvedMovieView { year: year_or(m.year, id.year), ..m }),
                    None => None,
                },
                ..list[i]
            }
        },
        None => list[i],
    }
}

/// Whether items have been regrouped.
pub open spec fn regrouped(before: Seq<PlanItemInternal>, after: Seq<PlanItemInternal>) -> bool {
    &&& drafts(after) == drafts(before)
    &&& after.len() == before.len()
    &&& forall|i: int|
        0 <= i < after.len() ==> (#[trigger] after[i]).rest() == in_group(rests(before), i)
}

/// Writes the identity of each group, with the year that was settled on, back
/// to its members.
pub fn regroup_items(items: &mut Vec<PlanItemInternal>)
    ensures
        regrouped(old(items)@, final(items)@),
{
    let groups = group_items(items);
    let ghost start = items@;
    let ghost list = rests(start);
    let ghost cs = clusters(item_keys(list));
    let mut i: usize = 0;
    while i < items.len()
        invariant
            i <= items@.len(),
            start == old(items)@,
            list == rests(start),
            cs == clusters(item_keys(list)),
            groups@.len() == cs.len(),
            forall|k: int|
                0 <= k < groups@.len() ==> (#[trigger] groups@[k]).id.deep_view() == identity_of(
                    list,
                    cs[k],
                ) && groups@[k].items@ == cs[k].members,
            items@.len() == start.len(),
            forall|k: int|
                0 <= k < i ==> (#[trigger] items@[k]).draft() == start[k].draft()
                    && items@[k].rest() == in_group(list, k),
            forall|k: int| i <= k < start.len() ==> (#[trigger] items@[k]) == start[k],
        decreases items@.len() - i,
    {
        let ghost held = items@;
        let home = find_group(&groups, i, Ghost(cs));
        if let Some(g) = home {
            let id = groups[g].id.duplicate();
            let year = id.year;
            items[i].movie_id = id;
            if let Some(m) = &items[i].resolved {
                let mut resolved = m.duplicate();
                resolved.year = fill_year(&m.year, year);
                items[i].resolved = Some(resolved);
            }
        }
        proof {
            assert(list[i as int] == held[i as int].rest());
            assert(items@[i as int].rest() =~= in_group(list, i as int));
            assert forall|k: int| 0 <= k < i + 1 implies (#[trigger] items@[k]).draft()
                == start[k].draft() && items@[k].rest() == in_group(list, k) by {
                if k < i {
                    assert(items@[k] == held[k]);
                }
            }
        }
        i = i + 1;
    }
    proof {
        assert(drafts(items@) =~= drafts(start));
    }
}

/// The group that an item is in.
fn find_group(groups: &Vec<MovieGroup>, idx: usize, Ghost(cs): Ghost<Seq<ClusterView>>) -> (r:
    Option<usize>)
    requires
        groups@.len() == cs.len(),
        forall|k: int|
            0 <= k < groups@.len() ==> (#[trigger] groups@[k]).items@ == cs[k].members,
    ensures
        match r {
            Some(k) => k < groups@.len() && group_of(cs, idx, 0) == Some(k as int),
            None => group_of(cs, idx, 0) is None,
        },
{
    let mut k: usize = 0;
    while k < groups.len()
        invariant
            k <= groups@.len(),
            groups@.len() == cs.len(),
            forall|j: int|
                0 <= j < groups@.len() ==> (#[trigger] groups@[j]).items@ == cs[j].members,
            group_of(cs, idx, 0) == group_of(cs, idx, k as int),
        decreases groups@.len() - k,
    {
        if holds_number(&groups[k].items, idx) {
            return Some(k);
        }
        k = k + 1;
    }
    None
}

/// What an orphan asks for.
pub open spec fn orphaned() -> ReadinessView {
    ReadinessView::NeedsReview {
        missing: seq![FieldName::Title],
        reasons: seq!["orphan sidecar: no matching video"@],
    }
}

/// Whether all the videos in a directory are ready and of one movie.
pub open spec fn one_movie(
    ds: Seq<DraftView>,
    list: Seq<MovieRest>,
    dir: PathView,
    root: PathView,
    movie: (Seq<char>, Option<Seq<char>>),
) -> bool {
    forall|j: int|
        0 <= j < ds.len() && (#[trigger] ds[j]).class == FileClass::Video && home_of(ds[j], root)
            == dir ==> ds[j].readiness is Ready && list[j].movie_id.key() == movie
}

/// The video of artwork or metadata in a directory in which all are ready and of
/// one movie.
pub open spec fn anchor_by_movie(
    ds: Seq<DraftView>,
    list: Seq<MovieRest>,
    root: PathView,
    i: int,
) -> Option<int> {
    let dir = home_of(ds[i], root);
    if ds[i].class == FileClass::Artwork || ds[i].class == FileClass::Metadata {
        match first_anchor(ds, FileClass::Video, dir, root, 0) {
            Some(f) => if one_movie(ds, list, dir, root, list[f].movie_id.key()) {
                Some(f)
            } else {
                None
            },
            None => None,
        }
    } else {
        None
    }
}

/// The video that a sidecar goes with. Evidence counts, in this order: a name
/// that begins with that of the video; for artwork and metadata, that all the
/// videos there are ready and of one movie. For a subtitle it is no evidence that
/// there is but one video.
pub open spec fn anchor_of(
    ds: Seq<DraftView>,
    list: Seq<MovieRest>,
    root: PathView,
    i: int,
) -> Option<int> {
    match anchor_by_name(ds, ds[i], FileClass::Video, root, ds.len() as int) {
        Some(b) => Some(b),
        None => anchor_by_movie(ds, list, root, i),
    }
}

/// The video that a sidecar goes with is one.
proof fn lemma_anchor_of(ds: Seq<DraftView>, list: Seq<MovieRest>, root: PathView, i: int)
    requires
        0 <= i < ds.len(),
    ensures
        anchor_of(ds, list, root, i) matches Some(b) ==> 0 <= b < ds.len() && ds[b].class
            == FileClass::Video,
{
    lemma_anchor_by_name(ds, ds[i], FileClass::Video, root, ds.len() as int);
    lemma_first_anchor(ds, FileClass::Video, home_of(ds[i], root), root, 0);
}

/// Tests whether all the videos in a directory are ready and of one movie.
fn all_of_movie(
    items: &Vec<PlanItemInternal>,
    dir: &FilePath,
    root: &FilePath,
    movie: &MovieId,
) -> (r: bool)
    ensures
        r == one_movie(
            drafts(items@),
            rests(items@),
            dir.deep_view(),
            root.deep_view(),
            movie.deep_view().key(),
        ),
{
    let ghost ds = drafts(items@);
    let ghost list = rests(items@);
    let mut i: usize = 0;
    while i < items.len()
        invariant
            i <= items@.len(),
            ds == drafts(items@),
            list == rests(items@),
            forall|j: int|
                0 <= j < i && (#[trigger] ds[j]).class == FileClass::Video && home_of(
                    ds[j],
                    root.deep_view(),
                ) == dir.deep_view() ==> ds[j].readiness is Ready && list[j].movie_id.key()
                    == movie.deep_view().key(),
        decreases items@.len() - i,
    {
        proof {
            assert(ds[i as int] == items@[i as int].draft());
            assert(list[i as int] == items@[i as int].rest());
        }
        let here = items[i].class == FileClass::Video && directory_of(&items[i], root).same(dir);
        if here && (!anchors(&items[i], dir, root) || items[i].movie_id != *movie) {
            return false;
        }
        i = i + 1;
    }
    true
}

/// Looks for the video that a sidecar goes with.
pub fn choose_sidecar_parent(items: &Vec<PlanItemInternal>, i: usize, root: &FilePath) -> (r:
    Option<usize>)
    requires
        i < items@.len(),
    ensures
        match r {
            Some(b) => b < items@.len() && anchor_of(
                drafts(items@),
                rests(items@),
                root.deep_view(),
                i as int,
            ) == Some(b as int),
            None => anchor_of(drafts(items@), rests(items@), root.deep_view(), i as int) is None,
        },
{
    let ghost ds = drafts(items@);
    let ghost list = rests(items@);
    proof {
        assert(ds[i as int] == items@[i as int].draft());
    }
    let named = find_anchor_by_name(items, i, root);
    if named.is_some() {
        return named;
    }
    if items[i].class == FileClass::Artwork || items[i].class == FileClass::Metadata {
        let dir = directory_of(&items[i], root);
        if let Some(f) = find_first_anchor(items, &dir, root) {
            proof {
                assert(list[f as int] == items@[f as int].rest());
            }
            if all_of_movie(items, &dir, root, &items[f].movie_id) {
                return Some(f);
            }
        }
    }
    None
}

/// Whether sidecars have been associated: each takes over what its video is,
/// or is an orphan.
pub open spec fn associated(
    before: Seq<PlanItemInternal>,
    after: Seq<PlanItemInternal>,
    root: PathView,
) -> bool {
    &&& before.len() == after.len()
    &&& forall|i: int|
        0 <= i < before.len() ==> associated_item(before, #[trigger] before[i], after[i], root, i)
}

/// Whether an item has been associated.
pub open spec fn associated_item(
    items: Seq<PlanItemInternal>,
    a: PlanItemInternal,
    b: PlanItemInternal,
    root: PathView,
    i: int,
) -> bool {
    if !goes_along(a.class) {
        b.draft() == a.draft() && b.rest() == a.rest()
    } else {
        match anchor_of(drafts(items), rests(items), root, i) {
            Some(p) => {
                &&& b.draft() == (DraftView { readiness: ReadinessView::Ready, ..a.draft() })
                &&& b.rest() == (MovieRest { parsed: a.rest().parsed, ..items[p].rest() })
            },
            None => {
                &&& b.draft() == (DraftView { readiness: orphaned(), ..a.draft() })
                &&& b.rest() == a.rest()
            },
        }
    }
}

/// Associates sidecars with the videos that they go with.
pub fn associate_sidecars(items: &mut Vec<PlanItemInternal>, root: &FilePath)
    ensures
        associated(old(items)@, final(items)@, root.deep_view()),
{
    let ghost start = items@;
    let ghost ds = drafts(start);
    let ghost list = rests(start);
    let ghost rv = root.deep_view();
    let mut parents: Vec<Option<usize>> = Vec::new();
    let mut i: usize = 0;
    while i < items.len()
        invariant
            i <= items@.len(),
            items@ == start,
            ds == drafts(start),
            list == rests(start),
            rv == root.deep_view(),
            parents@.len() == i,
            forall|k: int|
                0 <= k < i && goes_along(start[k].class) ==> (match #[trigger] parents@[k] {
                    Some(p) => p < start.len() && anchor_of(ds, list, rv, k) == Some(p as int),
                    None => anchor_of(ds, list, rv, k) is None,
                }),
        decreases items@.len() - i,
    {
        let parent: Option<usize> = if is_sidecar(items[i].class) {
            choose_sidecar_parent(items, i, root)
        } else {
            None
        };
        parents.push(parent);
        i = i + 1;
    }
    let mut k: usize = 0;
    while k < items.len()
        invariant
            k <= items@.len(),
            start == old(items)@,
            items@.len() == start.len(),
            parents@.len() == start.len(),
            ds == drafts(start),
            list == rests(start),
            rv == root.deep_view(),
            forall|j: int|
                0 <= j < start.len() && goes_along(start[j].class) ==> (match #[trigger] parents@[j] {
                    Some(p) => p < start.len() && anchor_of(ds, list, rv, j) == Some(p as int),
                    None => anchor_of(ds, list, rv, j) is None,
                }),
            forall|j: int| 0 <= j < k ==> associated_item(start, #[trigger] start[j], items@[j], rv, j),
            forall|j: int|
                0 <= j < start.len() && (j >= k || !goes_along(start[j].class)) ==> (
                #[trigger] items@[j]) == start[j],
        decreases items@.len() - k,
    {
        let ghost held = items@;
        if is_sidecar(items[k].class) {
            match parents[k] {
                Some(p) => {
                    proof {
                        lemma_anchor_of(ds, list, rv, k as int);
                        assert(ds[p as int] == start[p as int].draft());
                        assert(!goes_along(start[p as int].class));
                        assert(items@[p as int] == start[p as int]);
                    }
                    let id = items[p].movie_id.duplicate();
                    let resolved = items[p].resolved.duplicate();
                    items[k].movie_id = id;
                    items[k].resolved = resolved;
                    items[k].readiness = Readiness::Ready;
                    proof {
                        assert(items@[k as int].rest() =~= (MovieRest {
                            parsed: start[k as int].rest().parsed,
                            ..start[p as int].rest()
                        }));
                    }
                },
                None => {
                    let mut reasons: Vec<String> = Vec::new();
                    reasons.push("orphan sidecar: no matching video".to_string());
                    let mut missing: Vec<FieldName> = Vec::new();
                    missing.push(FieldName::Title);
                    proof {
                        assert(reasons.deep_view() =~= seq!["orphan sidecar: no matching video"@]);
                        assert(missing@ =~= seq![FieldName::Title]);
                    }
                    items[k].readiness = Readiness::NeedsReview { missing, reasons };
                },
            }
        }
        proof {
            assert(associated_item(start, start[k as int], items@[k as int], rv, k as int));
            assert forall|j: int| 0 <= j < k + 1 implies associated_item(
                start,
                #[trigger] start[j],
                items@[j],
                rv,
                j,
            ) by {
                if j < k {
                    assert(items@[j] == held[j]);
                }
            }
        }
        k = k + 1;
    }
}

/// An item that has been routed. One that is not ready asks for a review of
/// the title.
pub open spec fn routed_draft(
    it: PlanItemInternal,
    root: FilePath,
    v: VolumeSemantics,
    cfg: Config,
) -> DraftView {
    let d = it.draft();
    if !(d.readiness is Ready) {
        DraftView {
            action: ActionView::NeedsReview { path: d.source, missing: seq![FieldName::Title] },
            ..d
        }
    } else {
        match it.resolved {
            Some(m) => {
                let ctx = RouteContext {
                    root: &root,
                    id: &it.movie_id,
                    resolved: &m,
                    volume: &v,
                    cfg: &cfg,
                };
                match ctx.destination(d.class, d.source) {
                    Some(pair) => DraftView {
                        destination: Some(pair.0),
                        destination_relative: Some(pair.1),
                        ..d
                    },
                    None => d,
                }
            },
            None => d,
        }
    }
}

/// Whether items have been routed.
pub open spec fn routed(
    before: Seq<PlanItemInternal>,
    after: Seq<PlanItemInternal>,
    root: FilePath,
    v: VolumeSemantics,
    cfg: Config,
) -> bool {
    &&& same_rest(before, after)
    &&& forall|i: int|
        0 <= i < before.len() ==> (#[trigger] after[i]).draft() == routed_draft(
            before[i],
            root,
            v,
            cfg,
        )
}

/// Routes an item.
fn route_item(item: &mut PlanItemInternal, root: &FilePath, volume: &VolumeSemantics, cfg: &Config)
    ensures
        final(item).draft() == routed_draft(*old(item), *root, *volume, *cfg),
        final(item).identity() == old(item).identity(),
        final(item).rest() == old(item).rest(),
{
    match &item.readiness {
        Readiness::Ready => {},
        _ => {
            let mut missing: Vec<FieldName> = Vec::new();
            missing.push(FieldName::Title);
            proof {
                assert(missing@ =~= seq![FieldName::Title]);
            }
            item.action = Action::NeedsReview { path: item.source.duplicate(), missing };
            return;
        },
    }
    let found = match &item.resolved {
        Some(m) => {
            let ctx = RouteContext { root, id: &item.movie_id, resolved: m, volume, cfg };
            route(&ctx, item.class, &item.source)
        },
        None => None,
    };
    if let Some((absolute, relative)) = found {
        item.destination = Some(absolute);
        item.destination_relative = Some(relative);
    }
}

/// Routes items.
pub fn route_items(
    items: &mut Vec<PlanItemInternal>,
    root: &FilePath,
    volume: &VolumeSemantics,
    cfg: &Config,
)
    ensures
        routed(old(items)@, final(items)@, *root, *volume, *cfg),
{
    let ghost start = items@;
    let mut i: usize = 0;
    while i < items.len()
        invariant
            i <= items@.len(),
            start == old(items)@,
            items@.len() == start.len(),
            same_rest(start, items@),
            forall|k: int|
                0 <= k < i ==> (#[trigger] items@[k]).draft() == routed_draft(
                    start[k],
                    *root,
                    *volume,
                    *cfg,
                ),
            forall|k: int| i <= k < start.len() ==> (#[trigger] items@[k]) == start[k],
        decreases items@.len() - i,
    {
        let ghost held = items@;
        route_item(&mut items[i], root, volume, cfg);
        proof {
            assert forall|k: int| 0 <= k < start.len() implies (#[trigger] start[k]).identity()
                == items@[k].identity() && start[k].rest() == items@[k].rest() by {
                assert(start[k].identity() == held[k].identity());
                if k != i {
                    assert(items@[k] == held[k]);
                }
            }
            assert forall|k: int| 0 <= k < i + 1 implies (#[trigger] items@[k]).draft()
                == routed_draft(start[k], *root, *volume, *cfg) by {
                if k < i {
                    assert(items@[k] == held[k]);
                }
            }
        }
        i = i + 1;
    }
}

/// The planner.
pub struct Planner<'a> {
    pub root: &'a FilePath,
    pub kind: MediaKind,
    pub cfg: &'a Config,
    pub volume: VolumeSemantics,
    /// The configuration in its canonical form, for its digest.
    pub config_text: &'a str,
}

/// Whether a plan is one that nothing was found for: it has no items, and after
/// what could not be read it is said that there were no files.
pub open spec fn found_nothing(unread: Seq<(PathView, IoErrorView)>, plan: PlanView) -> bool {
    &&& plan.items.len() == 0
    &&& plan.stats == no_stats()
    &&& plan.dir_creates.len() == 0
    &&& plan.dir_renames.len() == 0
    &&& plan.dir_removals.len() == 0
    &&& plan.diagnostics == unread_notes(unread).push(
        note(Severity::Warning, "scan"@, "no files found"@),
    )
}

/// Whether what could not be read in a scan was asked for in vain or is a link,
/// and, on a steady file system on which there is one way only to everything, no
/// path was found twice.
pub open spec fn scanned_rightly(
    t: Tree,
    cfg: Config,
    h0: Seq<Call>,
    h1: Seq<Call>,
    scanned: Seq<ScannedFile>,
    unread: Seq<(PathView, IoErrorView)>,
    steady: bool,
) -> bool {
    &&& unread_rightly(t, h0, h1, unread, steady)
    &&& steady && walks_once(t, cfg) ==> each_once(scanned, 0)
}

impl<'a> Planner<'a> {
    /// Whether a plan is for the root, the kind and the configuration of this
    /// planner.
    pub open spec fn heads(self, plan: PlanView) -> bool {
        &&& plan.version == 1
        &&& plan.root == self.root.deep_view()
        &&& plan.kind == self.kind
        &&& plan.config_digest == blake3_hex(encode_utf8(self.config_text@)).take(12)
        &&& plan.volume == self.volume
    }

    /// Whether a scan found what it should: nothing but what the walk finds from
    /// the root, and every file but what lies at or under something that could
    /// not be read.
    pub open spec fn scans(
        self,
        t: Tree,
        scanned: Seq<ScannedFile>,
        unread: Seq<(PathView, IoErrorView)>,
    ) -> bool {
        &&& sound(
            t,
            self.root.deep_view(),
            self.root.deep_view(),
            *self.cfg,
            Reach::Containers(CONTAINER_LEVELS),
            scanned,
            0,
        )
        &&& complete(
            t,
            self.root.deep_view(),
            self.root.deep_view(),
            *self.cfg,
            Reach::Containers(CONTAINER_LEVELS),
            unread,
            scanned,
        )
    }

    /// A planner for a root.
    pub fn new<F: FileSystem>(
        fs: &mut F,
        root: &'a FilePath,
        kind: MediaKind,
        cfg: &'a Config,
        config_text: &'a str,
    ) -> (r: Result<Self, IoError>)
        ensures
            old(fs).is_steady() ==> final(fs).is_steady(),
            only_asks(old(fs).history(), final(fs).history()),
            final(fs).tree() == old(fs).tree(),
            r matches Ok(p) && p.root == root && p.kind == kind && p.cfg == cfg && p.config_text
                == config_text && (p.volume == old(fs).volume_at(root.deep_view()) || p.volume
                == conservative_volume() && !old(fs).is_steady()),
    {
        let volume = match fs.volume_semantics(root) {
            Ok(v) => v,
            Err(_) => VolumeSemantics::conservative(),
        };
        Ok(Planner { root, kind, cfg, volume, config_text })
    }

    /// A plan with nothing in it yet.
    pub fn begin(&self) -> (r: Plan)
        ensures
            self.heads(r.deep_view()),
            r.deep_view().items.len() == 0,
            r.deep_view().stats == no_stats(),
            r.deep_view().dir_creates.len() == 0,
            r.deep_view().dir_renames.len() == 0,
            r.deep_view().dir_removals.len() == 0,
            r.deep_view().diagnostics.len() == 0,
    {
        Plan::new(
            RunId::fresh(),
            self.root.duplicate(),
            self.kind,
            Config::digest(self.config_text),
            self.volume,
        )
    }

    /// Scans and classifies. What could not be read is put into the plan.
    pub fn find_files<F: FileSystem>(&self, fs: &mut F, plan: &mut Plan) -> (r: Result<
        Vec<ScannedFile>,
        IoError,
    >)
        requires
            old(plan).deep_view().diagnostics.len() == 0,
        ensures
            old(fs).is_steady() ==> final(fs).is_steady(),
            only_asks(old(fs).history(), final(fs).history()),
            lists_first(
                old(fs).history(),
                final(fs).history(),
                self.root.deep_view(),
                r is Ok,
            ),
            final(fs).tree() == old(fs).tree(),
            old(fs).is_steady() ==> r is Ok == is_dir(old(fs).tree(), self.root.deep_view()),
            final(plan).deep_view() == (PlanView {
                diagnostics: final(plan).deep_view().diagnostics,
                ..old(plan).deep_view()
            }),
            r matches Ok(files) ==> exists|
                scanned: Seq<ScannedFile>,
                unread: Seq<(PathView, IoErrorView)>,
            | #[trigger]
                self.scans(old(fs).tree(), scanned, unread)
                    && final(plan).deep_view().diagnostics == unread_notes(unread)
                    && files.deep_view() == classified(scanned_views(scanned), *self.cfg)
                    && scanned_rightly(
                    old(fs).tree(),
                    *self.cfg,
                    old(fs).history(),
                    final(fs).history(),
                    scanned,
                    unread,
                    old(fs).is_steady(),
                ),
    {
        let ghost before = plan.deep_view();
        let ghost steady = fs.is_steady();
        let ghost h0 = fs.history();
        match scan_noting(fs, self.root, self.cfg, &mut plan.diagnostics) {
            Ok(list) => {
                let mut files = list;
                let ghost scanned = files@;
                classify(&mut files, self.cfg);
                proof {
                    let unread = choose|unread: Seq<(PathView, IoErrorView)>| #[trigger]
                        told(before.diagnostics, plan.deep_view().diagnostics, unread)
                            && complete(
                            fs.tree(),
                            self.root.deep_view(),
                            self.root.deep_view(),
                            *self.cfg,
                            Reach::Containers(CONTAINER_LEVELS),
                            unread,
                            scanned,
                        ) && unread_rightly(fs.tree(), h0, fs.history(), unread, steady);
                    assert(before.diagnostics + unread_notes(unread) =~= unread_notes(unread));
                    assert(self.scans(fs.tree(), scanned, unread));
                    assert(list.deep_view() =~= scanned_views(scanned));
                }
                Ok(files)
            },
            Err(e) => Err(e),
        }
    }
}

/// Says in a plan that there were no files.
pub fn note_nothing(plan: &mut Plan)
    ensures
        final(plan).deep_view().diagnostics == old(plan).deep_view().diagnostics.push(
            note(Severity::Warning, "scan"@, "no files found"@),
        ),
        final(plan).deep_view() == (PlanView {
            diagnostics: final(plan).deep_view().diagnostics,
            ..old(plan).deep_view()
        }),
{
    let ghost before = plan.deep_view().diagnostics;
    plan.diagnostics.push(Diagnostic::warning("scan", "no files found".to_string()));
    proof {
        assert(plan.deep_view().diagnostics =~= before.push(
            note(Severity::Warning, "scan"@, "no files found"@),
        ));
    }
}

/// What the items of a movie plan are from stage to stage.
pub struct MovieStages {
    pub files: Seq<ScannedView>,
    pub scanned: Seq<ScannedFile>,
    pub unread: Seq<(PathView, IoErrorView)>,
    pub started: Seq<PlanItemInternal>,
    pub answers: Seq<ProbeAnswer>,
    pub probed: Seq<PlanItemInternal>,
    pub regrouped: Seq<PlanItemInternal>,
    pub associated: Seq<PlanItemInternal>,
    pub routed: Seq<PlanItemInternal>,
    pub validated: Seq<PlanItemInternal>,
    pub settled: Seq<PlanItemInternal>,
    pub read: Findings,
}

/// Whether a plan for movies comes about by the stages.
pub open spec fn plans_movies(t: Tree, p: Planner, s: MovieStages, plan: PlanView) -> bool {
    &&& p.heads(plan)
    &&& p.scans(t, s.scanned, s.unread)
    &&& s.files == classified(scanned_views(s.scanned), *p.cfg)
    &&& s.files.len() == 0 ==> found_nothing(s.unread, plan)
    &&& s.files.len() > 0 ==> {
        &&& started(s.files, *p.cfg, s.started)
        &&& probed(s.started, s.probed, *p.cfg, s.answers)
        &&& regrouped(s.probed, s.regrouped)
        &&& associated(s.regrouped, s.associated, p.root.deep_view())
        &&& routed(s.associated, s.routed, *p.root, p.volume, *p.cfg)
        &&& concludes(
            t,
            p.root.deep_view(),
            p.volume,
            *p.cfg,
            seq![FieldName::Title],
            true,
            s.routed,
            s.validated,
            s.settled,
            s.read,
            plan,
        )
        &&& plan.diagnostics == unread_notes(s.unread) + probing_notes(s.started, s.answers)
            + all_check_notes(drafts(s.routed), p.volume) + hash_notes(
            drafts(s.validated),
            s.read.failed,
        )
    }
}

/// Run the planning pipeline for movies.
pub fn plan_movies<F: FileSystem, P: Prober>(
    planner: &Planner,
    fs: &mut F,
    prober: &mut P,
    _opts: PlanOptions,
) -> (r: Result<Plan, IoError>)
    ensures
        old(fs).is_steady() ==> final(fs).is_steady(),
        only_asks(old(fs).history(), final(fs).history()),
        lists_first(
            old(fs).history(),
            final(fs).history(),
            planner.root.deep_view(),
            r is Ok,
        ),
        final(fs).tree() == old(fs).tree(),
        old(fs).is_steady() ==> r is Ok == is_dir(old(fs).tree(), planner.root.deep_view()),
        r matches Ok(plan) ==> exists|s: MovieStages| #[trigger]
            plans_movies(old(fs).tree(), *planner, s, plan.deep_view()) && scanned_rightly(
                old(fs).tree(),
                *planner.cfg,
                old(fs).history(),
                final(fs).history(),
                s.scanned,
                s.unread,
                old(fs).is_steady(),
            ) && (old(fs).is_steady() ==> s.read.steady) && asks_also(
                *old(prober),
                *final(prober),
                lookings(s.started, s.answers),
            ) && all_answered(
                s.started,
                s.answers,
                *old(prober),
                old(fs).tree(),
                old(fs).history(),
                final(fs).history(),
                old(fs).is_steady(),
            ),
{
    let ghost h0 = fs.history();
    let ghost t = fs.tree();
    let ghost steady = fs.is_steady();
    let mut plan = planner.begin();
    let files = match planner.find_files(fs, &mut plan) {
        Ok(f) => f,
        Err(e) => {
            return Err(e);
        },
    };
    let ghost (scanned, unread) = choose|
        scanned: Seq<ScannedFile>,
        unread: Seq<(PathView, IoErrorView)>,
    | #[trigger]
        planner.scans(t, scanned, unread) && plan.deep_view().diagnostics == unread_notes(unread)
            && files.deep_view() == classified(scanned_views(scanned), *planner.cfg)
            && scanned_rightly(t, *planner.cfg, h0, fs.history(), scanned, unread, steady);
    let ghost h1 = fs.history();
    let ghost none: Seq<PlanItemInternal> = Seq::empty();
    if files.len() == 0 {
        note_nothing(&mut plan);
        proof {
            lemma_asks_nothing(*prober);
            let s = MovieStages {
                files: files.deep_view(),
                scanned,
                unread,
                started: none,
                answers: Seq::empty(),
                probed: none,
                regrouped: none,
                associated: none,
                routed: none,
                validated: none,
                settled: none,
                read: Findings { found: Seq::empty(), failed: Seq::empty(), steady },
            };
            assert(plans_movies(t, *planner, s, plan.deep_view()));
        }
        return Ok(plan);
    }
    let mut items = parse_and_resolve(&files, planner.cfg);
    let ghost s1 = items@;
    let ghost then = fs.is_steady();
    probe_items(fs, prober, &mut items, planner.cfg, &mut plan.diagnostics);
    let ghost s2 = items@;
    let ghost answers = choose|answers: Seq<ProbeAnswer>| #[trigger]
        probed(s1, s2, *planner.cfg, answers) && plan.deep_view().diagnostics == unread_notes(
            unread,
        ) + probing_notes(s1, answers) && asks_also(
            *old(prober),
            *prober,
            lookings(s1, answers),
        ) && all_answered(s1, answers, *old(prober), t, h1, fs.history(), then);
    let ghost h2 = fs.history();
    regroup_items(&mut items);
    let ghost s3 = items@;
    associate_sidecars(&mut items, planner.root);
    let ghost s4 = items@;
    route_items(&mut items, planner.root, &planner.volume, planner.cfg);
    let ghost s5 = items@;
    let mut missing: Vec<FieldName> = Vec::new();
    missing.push(FieldName::Title);
    proof {
        assert(missing@ =~= seq![FieldName::Title]);
    }
    validate_items(&mut items, planner.root, &planner.volume, &missing, &mut plan.diagnostics);
    let ghost s6 = items@;
    let ghost checked = plan.deep_view().diagnostics;
    let ghost now = fs.is_steady();
    reconcile(fs, &mut items, &planner.volume, planner.cfg, &mut plan.diagnostics);
    let ghost s7 = items@;
    let ghost read = choose|read: Findings| #[trigger]
        reconciled(t, *planner.cfg, planner.volume, s6, s7, read) && plan.deep_view().diagnostics
            == checked + hash_notes(drafts(s6), read.failed) && read.steady == now;
    finalise_plan(fs, planner.root, &planner.volume, &items, true, &mut plan);
    proof {
        let s = MovieStages {
            files: files.deep_view(),
            scanned,
            unread,
            started: s1,
            answers,
            probed: s2,
            regrouped: s3,
            associated: s4,
            routed: s5,
            validated: s6,
            settled: s7,
            read,
        };
        lemma_all_answered_among(
            s1,
            answers,
            *old(prober),
            t,
            h0,
            h1,
            h2,
            fs.history(),
            then,
            steady,
        );
        lemma_unread_stays(t, h0, h1, fs.history(), unread, steady);
        assert(reconciled(t, *planner.cfg, planner.volume, s6, s7, read));
        assert(plans_movies(t, *planner, s, plan.deep_view()));
    }
    Ok(plan)
}

/// Whether a plan comes about by the stages of its kind, given the calls that
/// were made and what looks into files, before and after. What was found out on the way was so: on
/// a steady file system nothing that is there could not be read but links, and
/// every file that was looked into was rightly answered for.
pub open spec fn plans<P: Prober>(
    t: Tree,
    h0: Seq<Call>,
    h1: Seq<Call>,
    p: Planner,
    prober: P,
    probed: P,
    plan: PlanView,
    steady: bool,
) -> bool {
    match p.kind {
        MediaKind::Movies => exists|s: MovieStages| #[trigger]
            plans_movies(t, p, s, plan) && scanned_rightly(
                t,
                *p.cfg,
                h0,
                h1,
                s.scanned,
                s.unread,
                steady,
            ) && (steady ==> s.read.steady) && asks_also(
                prober,
                probed,
                lookings(s.started, s.answers),
            ) && all_answered(
                s.started,
                s.answers,
                prober,
                t,
                h0,
                h1,
                steady,
            ),
        MediaKind::Tv => exists|s: TvStages| #[trigger]
            plans_tv(t, p, s, plan) && scanned_rightly(
                t,
                *p.cfg,
                h0,
                h1,
                s.scanned,
                s.unread,
                steady,
            ) && (steady ==> s.read.steady) && asks_also(prober, probed, Seq::empty()),
        MediaKind::Music => exists|s: MusicStages| #[trigger]
            plans_music(t, p, s, plan) && scanned_rightly(
                t,
                *p.cfg,
                h0,
                h1,
                s.scanned,
                s.unread,
                steady,
            ) && (steady ==> s.read.steady) && asks_also(
                prober,
                probed,
                crate::engine::music_plan::lookings(s.started, s.answers),
            ) && crate::engine::music_plan::all_answered(
                s.started,
                s.answers,
                prober,
                t,
                h0,
                h1,
                steady,
            ),
    }
}

impl<'a> Planner<'a> {
    /// Run the full planning pipeline. Nothing is written: what stands where is
    /// as before, and a dry run and an applied one have the same plan. No file is
    /// looked into.
    pub fn plan<F: FileSystem>(&self, fs: &mut F, opts: PlanOptions) -> (r: Result<Plan, IoError>)
        ensures
            old(fs).is_steady() ==> final(fs).is_steady(),
            only_asks(old(fs).history(), final(fs).history()),
            lists_first(
                old(fs).history(),
                final(fs).history(),
                self.root.deep_view(),
                r is Ok,
            ),
            old(fs).is_steady() ==> r is Ok == is_dir(old(fs).tree(), self.root.deep_view()),
            final(fs).tree() == old(fs).tree(),
            r matches Ok(plan) ==> plans(
                old(fs).tree(),
                old(fs).history(),
                final(fs).history(),
                *self,
                NoProber,
                NoProber,
                plan.deep_view(),
                old(fs).is_steady(),
            ),
    {
        let mut prober = NoProber;
        self.plan_with(fs, &mut prober, opts)
    }

    /// Run the full planning pipeline, and look into files on the way.
    pub fn plan_with<F: FileSystem, P: Prober>(
        &self,
        fs: &mut F,
        prober: &mut P,
        opts: PlanOptions,
    ) -> (r: Result<Plan, IoError>)
        ensures
            old(fs).is_steady() ==> final(fs).is_steady(),
            only_asks(old(fs).history(), final(fs).history()),
            lists_first(
                old(fs).history(),
                final(fs).history(),
                self.root.deep_view(),
                r is Ok,
            ),
            old(fs).is_steady() ==> r is Ok == is_dir(old(fs).tree(), self.root.deep_view()),
            final(fs).tree() == old(fs).tree(),
            r matches Ok(plan) ==> plans(
                old(fs).tree(),
                old(fs).history(),
                final(fs).history(),
                *self,
                *old(prober),
                *final(prober),
                plan.deep_view(),
                old(fs).is_steady(),
            ),
    {
        match self.kind {
            MediaKind::Movies => plan_movies(self, fs, prober, opts),
            MediaKind::Tv => {
                proof {
                    lemma_asks_nothing(*prober);
                }
                plan_tv(self, fs, opts)
            },
            MediaKind::Music => plan_music(self, fs, prober, opts),
        }
    }
}

/// A movie plan moves nothing but what is ready, and nothing out of the root.
/// What is of no known class is never moved.
/// Every file that was found is in it, in its place.
pub proof fn law_movie_plan_is_safe(t: Tree, p: Planner, s: MovieStages, plan: PlanView, i: int)
    requires
        plans_movies(t, p, s, plan),
        0 <= i < s.files.len(),
    ensures
        plan.items.len() == s.files.len(),
        plan.items[i].source == s.files[i].absolute,
        plan.items[i].class == s.files[i].class,
        plan.items[i].action matches ActionView::Move { from, to } ==> plan.items[i].readiness
            is Ready && from == s.files[i].absolute && to.starts_with(p.root.deep_view()),
        s.files[i].class == FileClass::Unknown ==> !(plan.items[i].action is Move),
{
    let root = p.root.deep_view();
    assert(probed_item(s.started[i], s.probed[i], *p.cfg, s.answers[i]));
    assert(drafts(s.regrouped)[i] == s.regrouped[i].draft());
    assert(drafts(s.probed)[i] == s.probed[i].draft());
    assert(drafts(s.regrouped).len() == s.regrouped.len());
    assert(associated_item(s.regrouped, s.regrouped[i], s.associated[i], root, i));
    let a = s.associated[i];
    assert(s.routed[i].draft() == routed_draft(a, *p.root, p.volume, *p.cfg));
    law_plan_follows_routes(
        t,
        root,
        p.volume,
        *p.cfg,
        seq![FieldName::Title],
        true,
        s.routed,
        s.validated,
        s.settled,
        s.read,
        plan,
        i,
    );
    if plan.items[i].action is Move {
        let d = s.routed[i].draft();
        assert(d.destination is Some);
        let m = a.resolved->0;
        let ctx = RouteContext {
            root: p.root,
            id: &a.movie_id,
            resolved: &m,
            volume: &p.volume,
            cfg: p.cfg,
        };
        let ext = extension_or_empty(d.source);
        law_contained_place_is_under_root(root, ctx.parts(d.class)->0, ext, p.volume);
        let dest = d.destination->0;
        let to = plan.items[i].destination->0;
        if to != dest {
            let n = choose|n: nat| to == #[trigger] copy_path(dest, n);
            law_copy_stays_under_root(root, dest, n);
        }
    }
}

/// No default ever moves a movie: a video that is moved has a title, and its
/// own name gives it.
pub proof fn law_moved_movie_is_titled_by_its_name(
    t: Tree,
    p: Planner,
    s: MovieStages,
    plan: PlanView,
    i: int,
)
    requires
        plans_movies(t, p, s, plan),
        0 <= i < s.files.len(),
        s.files[i].class == FileClass::Video,
        plan.items[i].action is Move,
    ensures
        parsed_from_name(s.files[i]).title.is_known(),
        parsed_from_name(s.files[i]).title.is_from(Source::Filename),
{
    law_movie_plan_is_safe(t, p, s, plan, i);
    law_movie_fields_come_from_name(
        name_or_empty(s.files[i].absolute),
        (ParseOptions { min_year: 1888, max_year: 2030 }),
    );
    assert(s.started[i].draft() == started_draft(i, s.files[i], *p.cfg));
    assert(probed_item(s.started[i], s.probed[i], *p.cfg, s.answers[i]));
    assert(drafts(s.regrouped)[i] == s.regrouped[i].draft());
    assert(drafts(s.probed)[i] == s.probed[i].draft());
    assert(associated_item(s.regrouped, s.regrouped[i], s.associated[i], p.root.deep_view(), i));
    assert(s.routed[i].draft() == routed_draft(s.associated[i], *p.root, p.volume, *p.cfg));
    law_plan_follows_routes(
        t,
        p.root.deep_view(),
        p.volume,
        *p.cfg,
        seq![FieldName::Title],
        true,
        s.routed,
        s.validated,
        s.settled,
        s.read,
        plan,
        i,
    );
    let m = resolved_from(parsed_from_name(s.files[i]));
    assert(m.readiness(*p.cfg) is Ready);
}

} // verus!
