//! TV planning pipeline.
//!
//! The same stages as for movies, but keyed on show and episode. Files are not
//! probed, so grouping is done once, and settles the year of the show.

use crate::domain::classify::FileClass;
use crate::domain::config::Config;
use crate::domain::duplicate::Duplicate;
use crate::domain::error::Diagnostic;
use crate::domain::fs::{is_dir, lists_first, only_asks, FileSystem, IoError, IoErrorView, Tree};
use crate::domain::identity::{
    norm_of, same_numbers, EpisodeId, EpisodeIdView, Norm, ShowId, ShowIdView,
};
use crate::domain::path::{FilePath, PathView};
use crate::domain::plan::{
    copy_names, Action, ActionView, FieldName, ItemId, Plan, PlanView, Readiness, ReadinessView,
};
use crate::domain::volume::VolumeSemantics;
use crate::engine::associate::{
    anchor_by_name, anchors, directory_of, find_anchor_by_name, find_first_anchor, first_anchor,
    goes_along, home_of, is_sidecar, lemma_anchor_by_name, lemma_first_anchor, may_anchor,
};
use crate::engine::classify::classified;
use crate::engine::cluster::{clusters, lemma_clusters_have_first, ClusterView, KeyedView};
use crate::engine::draft::{drafts, same_rest, DraftView, Drafted};
use crate::engine::layout::{extended, extension_or_empty, law_contained_place_is_under_root};
use crate::engine::planner::{
    file_name_or_empty, fill_year, found_nothing, fresh_draft, group_of, holds_number,
    name_or_empty, no_norm, note_nothing, scanned_rightly, year_or, PlanOptions, Planner,
};
use crate::engine::reconcile::{copy_path, hash_notes, reconcile_drafts, reconciled, Findings};
use crate::engine::scan::{
    lemma_unread_stays, scanned_views, unread_notes, ScannedFile, ScannedView,
};
use crate::engine::stages::{
    all_check_notes, concludes, finalise_plan, law_copy_stays_under_root, law_plan_follows_routes,
    relative_of, validate_items,
};
use crate::engine::tv_group::{episode_key, episode_keys, group_shows, ShowGroup};
use crate::engine::tv_resolve::{
    episode_resolved_from, law_unnumbered_episode_is_never_ready, resolve_episode, ResolvedEpisode,
    ResolvedEpisodeView,
};
use crate::engine::tv_route::{detect_language_and_flags, language_and_flags, route, RouteContext};
use crate::engine::validate::is_contained;
use crate::parse::model::{EpisodeFields, ParseOptions};
use crate::parse::tv::{episode_fields, parse_episode_filename};
use vstd::prelude::*;

verus! {

/// Internal planner item for TV, changed from stage to stage.
#[derive(Debug, Clone)]
pub struct PlanItemInternalTv {
    pub id: ItemId,
    pub source: FilePath,
    pub relative: FilePath,
    pub class: FileClass,
    pub resolved: Option<ResolvedEpisode>,
    pub show_id: ShowId,
    /// Known once season and episodes are, from the file's own name or, for a
    /// sidecar, from its video.
    pub episode_id: Option<EpisodeId>,
    pub destination: Option<FilePath>,
    pub destination_relative: Option<FilePath>,
    pub action: Action,
    pub readiness: Readiness,
    /// For subtitles: the language.
    pub language: String,
    /// For subtitles: the flags.
    pub flags: Option<String>,
}

/// What of a planner item is about TV.
#[verifier::ext_equal]
pub struct TvRest {
    pub resolved: Option<ResolvedEpisodeView>,
    pub show_id: ShowIdView,
    pub episode_id: Option<EpisodeIdView>,
    pub language: Seq<char>,
    pub flags: Option<Seq<char>>,
}

impl Drafted for PlanItemInternalTv {
    type Key = (Seq<char>, Option<u16>, u16, Seq<u16>);

    type Rest = TvRest;

    open spec fn draft(&self) -> DraftView {
        DraftView {
            id: self.id,
            source: self.source.deep_view(),
            relative: self.relative.deep_view(),
            class: self.class,
            destination: self.destination.deep_view(),
            destination_relative: self.destination_relative.deep_view(),
            action: self.action.deep_view(),
            readiness: self.readiness.deep_view(),
        }
    }

    open spec fn identity(&self) -> Option<Self::Key> {
        match self.episode_id {
            Some(e) => Some(e.deep_view().key()),
            None => None,
        }
    }

    open spec fn rest(&self) -> Self::Rest {
        TvRest {
            resolved: self.resolved.deep_view(),
            show_id: self.show_id.deep_view(),
            episode_id: self.episode_id.deep_view(),
            language: self.language@,
            flags: self.flags.deep_view(),
        }
    }

    open spec fn main_class() -> FileClass {
        FileClass::Video
    }

    fn id(&self) -> (r: ItemId) {
        self.id
    }

    fn source(&self) -> (r: &FilePath) {
        &self.source
    }

    fn relative(&self) -> (r: &FilePath) {
        &self.relative
    }

    fn class(&self) -> (r: FileClass) {
        self.class
    }

    fn destination(&self) -> (r: Option<&FilePath>) {
        self.destination.as_ref()
    }

    fn destination_relative(&self) -> (r: Option<&FilePath>) {
        self.destination_relative.as_ref()
    }

    fn action(&self) -> (r: &Action) {
        &self.action
    }

    fn readiness(&self) -> (r: &Readiness) {
        &self.readiness
    }

    fn is_main(&self) -> (r: bool) {
        self.class == FileClass::Video
    }

    fn is_identified(&self) -> (r: bool) {
        self.episode_id.is_some()
    }

    fn same_identity(&self, other: &Self) -> (r: bool) {
        match (&self.episode_id, &other.episode_id) {
            (Some(a), Some(b)) => a.same(b),
            _ => false,
        }
    }

    fn set_action(&mut self, action: Action) {
        self.action = action;
    }

    fn set_destination(&mut self, to: FilePath) {
        self.destination = Some(to);
    }

    fn set_destination_relative(&mut self, to: FilePath) {
        self.destination_relative = Some(to);
    }
}

/// The parts of the items that are about TV.
pub open spec fn rests(items: Seq<PlanItemInternalTv>) -> Seq<TvRest> {
    Seq::new(items.len(), |i: int| items[i].rest())
}

/// The options that filenames are parsed with.
pub open spec fn parse_options() -> ParseOptions {
    ParseOptions { min_year: 1888, max_year: 2030 }
}

/// What is parsed from the name of an episode.
pub open spec fn parsed_from_name(p: PathView) -> EpisodeFields {
    episode_fields(name_or_empty(p), parse_options())
}

/// What is known of a scanned file from its name.
pub open spec fn started_rest(f: ScannedView) -> TvRest {
    TvRest {
        resolved: if f.class == FileClass::Video {
            Some(episode_resolved_from(parsed_from_name(f.absolute)))
        } else {
            None
        },
        show_id: ShowIdView { title: no_norm(), year: None },
        episode_id: None,
        language: "und"@,
        flags: None,
    }
}

/// What a scanned file is at the start.
pub open spec fn started_draft(n: int, f: ScannedView, cfg: Config) -> DraftView {
    fresh_draft(
        n,
        f,
        if f.class == FileClass::Video {
            episode_resolved_from(parsed_from_name(f.absolute)).readiness(cfg)
        } else {
            ReadinessView::Ready
        },
    )
}

/// Whether items are what scanned files are at the start.
pub open spec fn started(
    files: Seq<ScannedView>,
    cfg: Config,
    items: Seq<PlanItemInternalTv>,
) -> bool {
    &&& items.len() == files.len()
    &&& forall|i: int|
        0 <= i < items.len() ==> (#[trigger] items[i]).draft() == started_draft(i, files[i], cfg)
            && items[i].rest() == started_rest(files[i])
}

/// Parses a scanned file.
fn start_item(n: u64, f: &ScannedFile, cfg: &Config) -> (r: PlanItemInternalTv)
    ensures
        r.draft() == started_draft(n as int, f.deep_view(), *cfg),
        r.rest() == started_rest(f.deep_view()),
{
    let (resolved, readiness): (Option<ResolvedEpisode>, Readiness) = if f.class
        == FileClass::Video {
        let parsed = parse_episode_filename(
            &file_name_or_empty(&f.absolute),
            &ParseOptions::default(),
        );
        let e = resolve_episode(&parsed, cfg);
        let readiness = e.readiness(cfg);
        (Some(e), readiness)
    } else {
        (None, Readiness::Ready)
    };
    PlanItemInternalTv {
        id: ItemId::new(n),
        source: f.absolute.duplicate(),
        relative: f.relative.duplicate(),
        class: f.class,
        resolved,
        show_id: ShowId::new(Norm::empty()),
        episode_id: None,
        destination: None,
        destination_relative: None,
        action: Action::NoOp,
        readiness,
        language: "und".to_string(),
        flags: None,
    }
}

/// Parses scanned files and resolves them from their names.
pub fn parse_and_resolve(scanned: &Vec<ScannedFile>, cfg: &Config) -> (r: Vec<PlanItemInternalTv>)
    ensures
        started(scanned.deep_view(), *cfg, r@),
{
    let mut out: Vec<PlanItemInternalTv> = Vec::new();
    let mut i: usize = 0;
    while i < scanned.len()
        invariant
            i <= scanned@.len(),
            out@.len() == i,
            forall|k: int|
                0 <= k < i ==> (#[trigger] out@[k]).draft() == started_draft(
                    k,
                    scanned.deep_view()[k],
                    *cfg,
                ) && out@[k].rest() == started_rest(scanned.deep_view()[k]),
        decreases scanned@.len() - i,
    {
        out.push(start_item(i as u64, &scanned[i], cfg));
        i = i + 1;
    }
    out
}

/// What items are grouped by: those that have resolved fields, by their
/// numbers.
pub open spec fn item_keys(list: Seq<TvRest>) -> Seq<KeyedView>
    decreases list.len(),
{
    if list.len() == 0 {
        Seq::empty()
    } else {
        let rest = item_keys(list.drop_last());
        match list.last().resolved {
            Some(e) => rest.push(episode_key((list.len() - 1) as usize, e)),
            None => rest,
        }
    }
}

/// The show of a group of items.
pub open spec fn show_of(list: Seq<TvRest>, c: ClusterView) -> ShowIdView {
    let first = item_keys(list)[c.first].idx;
    ShowIdView {
        title: norm_of(list[first as int].resolved->0.title.ok()->0, false),
        year: c.year,
    }
}

/// Groups items by show and settles on a year for each.
pub fn group_items(items: &Vec<PlanItemInternalTv>) -> (r: Vec<ShowGroup>)
    ensures
        r@.len() == clusters(item_keys(rests(items@))).len(),
        forall|i: int|
            0 <= i < r@.len() ==> (#[trigger] r@[i]).id.deep_view() == show_of(
                rests(items@),
                clusters(item_keys(rests(items@)))[i],
            ) && r@[i].items@ == clusters(item_keys(rests(items@)))[i].members,
{
    let ghost list = rests(items@);
    let mut found: Vec<(usize, &ResolvedEpisode)> = Vec::new();
    let mut i: usize = 0;
    proof {
        assert(episode_keys(found@) =~= item_keys(list.take(0)));
    }
    while i < items.len()
        invariant
            i <= items@.len(),
            list == rests(items@),
            episode_keys(found@) == item_keys(list.take(i as int)),
            forall|k: int|
                0 <= k < found@.len() ==> (#[trigger] found@[k]).0 < i
                    && list[found@[k].0 as int].resolved == Some(found@[k].1.deep_view()),
        decreases items@.len() - i,
    {
        proof {
            assert(list.take(i + 1).drop_last() =~= list.take(i as int));
            assert(list.take(i + 1).last() == items@[i as int].rest());
        }
        if let Some(e) = &items[i].resolved {
            let ghost held = episode_keys(found@);
            found.push((i, e));
            proof {
                assert(episode_keys(found@) =~= held.push(episode_key(i, e.deep_view())));
            }
        }
        i = i + 1;
    }
    proof {
        assert(list.take(i as int) =~= list);
    }
    let groups = group_shows(&found);
    proof {
        let keys = item_keys(list);
        assert forall|k: int| 0 <= k < groups@.len() implies (#[trigger] groups@[k]).id.deep_view()
            == show_of(list, clusters(keys)[k]) by {
            lemma_clusters_have_first(keys, keys.len() as int, k);
            let c = clusters(keys)[k];
            assert(episode_keys(found@)[c.first] == keys[c.first]);
            assert(found@[c.first].0 == keys[c.first].idx);
        }
    }
    groups
}

/// The group that an item is in.
fn find_group(groups: &Vec<ShowGroup>, idx: usize, Ghost(cs): Ghost<Seq<ClusterView>>) -> (r: Option<
    usize,
>)
    requires
        groups@.len() == cs.len(),
        forall|k: int|
            0 <= k < groups@.len() ==> (#[trigger] groups@[k]).items@ == cs[k].members,
    ensures
        match r {
            Some(k) => k < groups@.len() && group_of(cs, idx, 0) == Some(k as int),
            None => group_of(cs, idx, 0) is None,
        },
{
    let mut k: usize = 0;
    while k < groups.len()
        invariant
            k <= groups@.len(),
            groups@.len() == cs.len(),
            forall|j: int|
                0 <= j < groups@.len() ==> (#[trigger] groups@[j]).items@ == cs[j].members,
            group_of(cs, idx, 0) == group_of(cs, idx, k as int),
        decreases groups@.len() - k,
    {
        if holds_number(&groups[k].items, idx) {
            return Some(k);
        }
        k = k + 1;
    }
    None
}

/// The episodes of a show that resolved fields give.
pub open spec fn episodes_given(show: ShowIdView, e: ResolvedEpisodeView) -> Option<EpisodeIdView> {
    match (e.season.ok(), e.episodes.ok()) {
        (Some(season), Some(episodes)) => Some(EpisodeIdView { show, season, episodes }),
        _ => None,
    }
}

/// An item that has the show of its group written back.
pub open spec fn in_group(list: Seq<TvRest>, i: int) -> TvRest {
    let groups = clusters(item_keys(list));
    match group_of(groups, i as usize, 0) {
        Some(k) => {
            let show = show_of(list, groups[k]);
            match list[i].resolved {
                Some(e) => TvRest {
                    show_id: show,
                    resolved: Some(
                        ResolvedEpisodeView { year: year_or(e.year, show.year), ..e },
                    ),
                    episode_id: match episodes_given(show, e) {
                        Some(id) => Some(id),
                        None => list[i].episode_id,
                    },
                    ..list[i]
                },
                None => TvRest { show_id: show, ..list[i] },
            }
        },
        None => list[i],
    }
}

/// Whether items have been grouped.
pub open spec fn regrouped(before: Seq<PlanItemInternalTv>, after: Seq<PlanItemInternalTv>) -> bool {
    &&& drafts(after) == drafts(before)
    &&& after.len() == before.len()
    &&& forall|i: int|
        0 <= i < after.len() ==> (#[trigger] after[i]).rest() == in_group(rests(before), i)
}

/// Writes the show of its group into an item.
fn join_group(item: &mut PlanItemInternalTv, show: &ShowId)
    ensures
        final(item).draft() == old(item).draft(),
        final(item).rest() == (match old(item).rest().resolved {
            Some(e) => TvRest {
                show_id: show.deep_view(),
                resolved: Some(ResolvedEpisodeView { year: year_or(e.year, show.year), ..e }),
                episode_id: match episodes_given(show.deep_view(), e) {
                    Some(id) => Some(id),
                    None => old(item).rest().episode_id,
                },
                ..old(item).rest()
            },
            None => TvRest { show_id: show.deep_view(), ..old(item).rest() },
        }),
{
    let ghost start = item.rest();
    item.show_id = show.duplicate();
    if let Some(e) = &item.resolved {
        let mut resolved = e.duplicate();
        resolved.year = fill_year(&e.year, show.year);
        let id = match (e.season.as_value(), e.episodes.as_value()) {
            (Some(season), Some(episodes)) => Some(
                EpisodeId::new(show.duplicate(), *season, episodes.duplicate()),
            ),
            _ => None,
        };
        item.resolved = Some(resolved);
        if id.is_some() {
            item.episode_id = id;
        }
    }
    proof {
        match start.resolved {
            Some(e) => {
                assert(item.rest() =~= (TvRest {
                    show_id: show.deep_view(),
                    resolved: Some(ResolvedEpisodeView { year: year_or(e.year, show.year), ..e }),
                    episode_id: match episodes_given(show.deep_view(), e) {
                        Some(id) => Some(id),
                        None => start.episode_id,
                    },
                    ..start
                }));
            },
            None => {
                assert(item.rest() =~= (TvRest { show_id: show.deep_view(), ..start }));
            },
        }
    }
}

/// Writes the show of each group, with the year that was settled on, back to
/// its members, and with it the episodes that each member's own name gives.
pub fn regroup_items(items: &mut Vec<PlanItemInternalTv>)
    ensures
        regrouped(old(items)@, final(items)@),
{
    let groups = group_items(items);
    let ghost start = items@;
    let ghost list = rests(start);
    let ghost cs = clusters(item_keys(list));
    let mut i: usize = 0;
    while i < items.len()
        invariant
            i <= items@.len(),
            start == old(items)@,
            list == rests(start),
            cs == clusters(item_keys(list)),
            groups@.len() == cs.len(),
            forall|k: int|
                0 <= k < groups@.len() ==> (#[trigger] groups@[k]).id.deep_view() == show_of(
                    list,
                    cs[k],
                ) && groups@[k].items@ == cs[k].members,
            items@.len() == start.len(),
            forall|k: int|
                0 <= k < i ==> (#[trigger] items@[k]).draft() == start[k].draft()
                    && items@[k].rest() == in_group(list, k),
            forall|k: int| i <= k < start.len() ==> (#[trigger] items@[k]) == start[k],
        decreases items@.len() - i,
    {
        let ghost held = items@;
        let home = find_group(&groups, i, Ghost(cs));
        proof {
            assert(list[i as int] == held[i as int].rest());
        }
        if let Some(g) = home {
            join_group(&mut items[i], &groups[g].id);
        }
        proof {
            assert(items@[i as int].rest() =~= in_group(list, i as int));
            assert forall|k: int| 0 <= k < i + 1 implies (#[trigger] items@[k]).draft()
                == start[k].draft() && items@[k].rest() == in_group(list, k) by {
                if k < i {
                    assert(items@[k] == held[k]);
                }
            }
        }
        i = i + 1;
    }
    proof {
        assert(drafts(items@) =~= drafts(start));
    }
}

/// Whether an item is of the given episodes.
pub open spec fn is_of_episodes(r: TvRest, season: u16, episodes: Seq<u16>) -> bool {
    r.episode_id matches Some(e) && e.season == season && e.episodes == episodes
}

/// The first video, from a place on, in the sidecar's directory that is of the
/// given episodes.
pub open spec fn anchor_by_episodes(
    ds: Seq<DraftView>,
    list: Seq<TvRest>,
    dir: PathView,
    root: PathView,
    season: u16,
    episodes: Seq<u16>,
    from: int,
) -> Option<int>
    decreases ds.len() - from,
{
    if from < 0 || from >= ds.len() {
        None
    } else if may_anchor(ds[from], FileClass::Video, dir, root) && is_of_episodes(
        list[from],
        season,
        episodes,
    ) {
        Some(from)
    } else {
        anchor_by_episodes(ds, list, dir, root, season, episodes, from + 1)
    }
}

/// The video that is found by episodes is one.
proof fn lemma_anchor_by_episodes(
    ds: Seq<DraftView>,
    list: Seq<TvRest>,
    dir: PathView,
    root: PathView,
    season: u16,
    episodes: Seq<u16>,
    from: int,
)
    requires
        0 <= from,
    ensures
        anchor_by_episodes(ds, list, dir, root, season, episodes, from) matches Some(b) ==> from
            <= b < ds.len() && may_anchor(ds[b], FileClass::Video, dir, root),
    decreases ds.len() - from,
{
    if from < ds.len() {
        lemma_anchor_by_episodes(ds, list, dir, root, season, episodes, from + 1);
    }
}

/// Whether all the videos in a directory are of one show.
pub open spec fn one_show(
    ds: Seq<DraftView>,
    list: Seq<TvRest>,
    dir: PathView,
    root: PathView,
    show: (Seq<char>, Option<u16>),
) -> bool {
    forall|j: int|
        0 <= j < ds.len() && may_anchor(#[trigger] ds[j], FileClass::Video, dir, root)
            ==> list[j].show_id.key() == show
}

/// The video that a subtitle's own name gives the episodes of.
pub open spec fn anchor_by_own_name(
    ds: Seq<DraftView>,
    list: Seq<TvRest>,
    root: PathView,
    i: int,
) -> Option<int> {
    let own = parsed_from_name(ds[i].source);
    if ds[i].class == FileClass::Subtitle && ds[i].source.file_name() is Some {
        match (own.season.ok(), own.episodes.ok()) {
            (Some(season), Some(episodes)) => anchor_by_episodes(
                ds,
                list,
                home_of(ds[i], root),
                root,
                season,
                episodes,
                0,
            ),
            _ => None,
        }
    } else {
        None
    }
}

/// The video of artwork or metadata in a directory in which all are of one
/// show.
pub open spec fn anchor_by_show(
    ds: Seq<DraftView>,
    list: Seq<TvRest>,
    root: PathView,
    i: int,
) -> Option<int> {
    let dir = home_of(ds[i], root);
    if ds[i].class == FileClass::Artwork || ds[i].class == FileClass::Metadata {
        match first_anchor(ds, FileClass::Video, dir, root, 0) {
            Some(f) => if one_show(ds, list, dir, root, list[f].show_id.key()) {
                Some(f)
            } else {
                None
            },
            None => None,
        }
    } else {
        None
    }
}

/// The video that a sidecar goes with. Evidence counts, in this order: the
/// episodes that a subtitle's own name gives; a name that begins with that of
/// the video; for artwork and metadata, that all the videos there are of one
/// show. That there is but one video is no evidence.
pub open spec fn anchor_of(ds: Seq<DraftView>, list: Seq<TvRest>, root: PathView, i: int) -> Option<
    int,
> {
    match anchor_by_own_name(ds, list, root, i) {
        Some(b) => Some(b),
        None => match anchor_by_name(ds, ds[i], FileClass::Video, root, ds.len() as int) {
            Some(b) => Some(b),
            None => anchor_by_show(ds, list, root, i),
        },
    }
}

/// The video that a sidecar goes with is one.
proof fn lemma_anchor_of(ds: Seq<DraftView>, list: Seq<TvRest>, root: PathView, i: int)
    requires
        0 <= i < ds.len(),
    ensures
        anchor_of(ds, list, root, i) matches Some(b) ==> 0 <= b < ds.len() && ds[b].class
            == FileClass::Video,
{
    let own = parsed_from_name(ds[i].source);
    if let (Some(season), Some(episodes)) = (own.season.ok(), own.episodes.ok()) {
        lemma_anchor_by_episodes(ds, list, home_of(ds[i], root), root, season, episodes, 0);
    }
    lemma_anchor_by_name(ds, ds[i], FileClass::Video, root, ds.len() as int);
    lemma_first_anchor(ds, FileClass::Video, home_of(ds[i], root), root, 0);
}

/// Looks for the video of given episodes.
fn find_by_episodes(
    items: &Vec<PlanItemInternalTv>,
    dir: &FilePath,
    root: &FilePath,
    season: u16,
    episodes: &Vec<u16>,
) -> (r: Option<usize>)
    ensures
        match r {
            Some(b) => b < items@.len() && anchor_by_episodes(
                drafts(items@),
                rests(items@),
                dir.deep_view(),
                root.deep_view(),
                season,
                episodes.deep_view(),
                0,
            ) == Some(b as int),
            None => anchor_by_episodes(
                drafts(items@),
                rests(items@),
                dir.deep_view(),
                root.deep_view(),
                season,
                episodes.deep_view(),
                0,
            ) is None,
        },
{
    let ghost ds = drafts(items@);
    let ghost list = rests(items@);
    let ghost dv = dir.deep_view();
    let ghost rv = root.deep_view();
    let ghost ev = episodes.deep_view();
    let mut i: usize = 0;
    while i < items.len()
        invariant
            i <= items@.len(),
            ds == drafts(items@),
            list == rests(items@),
            dv == dir.deep_view(),
            rv == root.deep_view(),
            ev == episodes.deep_view(),
            anchor_by_episodes(ds, list, dv, rv, season, ev, 0) == anchor_by_episodes(
                ds,
                list,
                dv,
                rv,
                season,
                ev,
                i as int,
            ),
        decreases items@.len() - i,
    {
        proof {
            assert(ds[i as int] == items@[i as int].draft());
            assert(list[i as int] == items@[i as int].rest());
        }
        if anchors(&items[i], dir, root) {
            if let Some(e) = &items[i].episode_id {
                if e.season == season && same_numbers(&e.episodes, episodes) {
                    return Some(i);
                }
            }
        }
        i = i + 1;
    }
    None
}

/// Tests whether all the videos in a directory are of one show.
fn all_of_show(
    items: &Vec<PlanItemInternalTv>,
    dir: &FilePath,
    root: &FilePath,
    show: &ShowId,
) -> (r: bool)
    ensures
        r == one_show(
            drafts(items@),
            rests(items@),
            dir.deep_view(),
            root.deep_view(),
            show.deep_view().key(),
        ),
{
    let ghost ds = drafts(items@);
    let ghost list = rests(items@);
    let mut i: usize = 0;
    while i < items.len()
        invariant
            i <= items@.len(),
            ds == drafts(items@),
            list == rests(items@),
            forall|j: int|
                0 <= j < i && may_anchor(
                    #[trigger] ds[j],
                    FileClass::Video,
                    dir.deep_view(),
                    root.deep_view(),
                ) ==> list[j].show_id.key() == show.deep_view().key(),
        decreases items@.len() - i,
    {
        proof {
            assert(ds[i as int] == items@[i as int].draft());
            assert(list[i as int] == items@[i as int].rest());
        }
        if anchors(&items[i], dir, root) && !items[i].show_id.same(show) {
            return false;
        }
        i = i + 1;
    }
    true
}

/// Looks for the video that a sidecar goes with.
pub fn choose_sidecar_parent(items: &Vec<PlanItemInternalTv>, i: usize, root: &FilePath) -> (r:
    Option<usize>)
    requires
        i < items@.len(),
    ensures
        match r {
            Some(b) => b < items@.len() && anchor_of(
                drafts(items@),
                rests(items@),
                root.deep_view(),
                i as int,
            ) == Some(b as int),
            None => anchor_of(drafts(items@), rests(items@), root.deep_view(), i as int) is None,
        },
{
    let ghost ds = drafts(items@);
    let ghost list = rests(items@);
    let ghost rv = root.deep_view();
    proof {
        assert(ds[i as int] == items@[i as int].draft());
    }
    let dir = directory_of(&items[i], root);
    if items[i].class == FileClass::Subtitle {
        if let Some(name) = items[i].source.file_name() {
            let own = parse_episode_filename(name, &ParseOptions::default());
            if let (Some(season), Some(episodes)) = (
                own.season.as_value(),
                own.episodes.as_value(),
            ) {
                let found = find_by_episodes(items, &dir, root, *season, episodes);
                if found.is_some() {
                    return found;
                }
            }
        }
    }
    proof {
        assert(anchor_by_own_name(ds, list, rv, i as int) is None);
    }
    let named = find_anchor_by_name(items, i, root);
    if named.is_some() {
        return named;
    }
    if items[i].class == FileClass::Artwork || items[i].class == FileClass::Metadata {
        if let Some(f) = find_first_anchor(items, &dir, root) {
            proof {
                assert(list[f as int] == items@[f as int].rest());
            }
            if all_of_show(items, &dir, root, &items[f].show_id) {
                return Some(f);
            }
        }
    }
    None
}

/// What an orphan asks for.
pub open spec fn orphaned() -> ReadinessView {
    ReadinessView::NeedsReview {
        missing: seq![FieldName::Title],
        reasons: seq!["orphan sidecar: no matching episode"@],
    }
}

/// The stem of a file's name; empty where it has none.
pub open spec fn stem_or_empty(p: PathView) -> Seq<char> {
    match p.stem() {
        Some(s) => s,
        None => Seq::empty(),
    }
}

/// What a sidecar takes over from its video. A subtitle has a language and
/// flags of its own.
pub open spec fn adopted(side: TvRest, d: DraftView, main: TvRest) -> TvRest {
    let heard = language_and_flags(stem_or_empty(d.source));
    TvRest {
        resolved: main.resolved,
        show_id: main.show_id,
        episode_id: main.episode_id,
        language: if d.class == FileClass::Subtitle {
            heard.0
        } else {
            side.language
        },
        flags: if d.class == FileClass::Subtitle {
            heard.1
        } else {
            side.flags
        },
    }
}

/// Whether an item has been associated.
pub open spec fn associated_item(
    items: Seq<PlanItemInternalTv>,
    a: PlanItemInternalTv,
    b: PlanItemInternalTv,
    root: PathView,
    i: int,
) -> bool {
    if !goes_along(a.class) {
        b.draft() == a.draft() && b.rest() == a.rest()
    } else {
        match anchor_of(drafts(items), rests(items), root, i) {
            Some(p) => {
                &&& b.draft() == (DraftView { readiness: ReadinessView::Ready, ..a.draft() })
                &&& b.rest() == adopted(a.rest(), a.draft(), items[p].rest())
            },
            None => {
                &&& b.draft() == (DraftView { readiness: orphaned(), ..a.draft() })
                &&& b.rest() == a.rest()
            },
        }
    }
}

/// Whether sidecars have been associated: each takes over what its video is,
/// or is an orphan.
pub open spec fn associated(
    before: Seq<PlanItemInternalTv>,
    after: Seq<PlanItemInternalTv>,
    root: PathView,
) -> bool {
    &&& before.len() == after.len()
    &&& forall|i: int|
        0 <= i < before.len() ==> associated_item(before, #[trigger] before[i], after[i], root, i)
}

/// Lets a sidecar take over what its video is.
fn adopt(item: &mut PlanItemInternalTv, main: PlanItemInternalTv)
    ensures
        final(item).draft() == (DraftView { readiness: ReadinessView::Ready, ..old(item).draft() }),
        final(item).rest() == adopted(old(item).rest(), old(item).draft(), main.rest()),
{
    let ghost start = item.rest();
    let ghost d = item.draft();
    item.show_id = main.show_id;
    item.episode_id = main.episode_id;
    item.resolved = main.resolved;
    item.readiness = Readiness::Ready;
    if item.class == FileClass::Subtitle {
        let stem = match item.source.file_stem() {
            Some(s) => s,
            None => "".to_string(),
        };
        proof {
            reveal_strlit("");
            assert(stem@ =~= stem_or_empty(d.source));
        }
        let (language, flags) = detect_language_and_flags(&stem);
        item.language = language;
        item.flags = flags;
    }
    proof {
        assert(item.rest() =~= adopted(start, d, main.rest()));
    }
}

/// A copy of what a sidecar takes over.
fn copy_identity(main: &PlanItemInternalTv) -> (r: PlanItemInternalTv)
    ensures
        r.rest() == main.rest(),
{
    PlanItemInternalTv {
        id: main.id,
        source: main.source.duplicate(),
        relative: main.relative.duplicate(),
        class: main.class,
        resolved: main.resolved.duplicate(),
        show_id: main.show_id.duplicate(),
        episode_id: main.episode_id.duplicate(),
        destination: None,
        destination_relative: None,
        action: Action::NoOp,
        readiness: Readiness::Ready,
        language: main.language.clone(),
        flags: main.flags.duplicate(),
    }
}

/// Associates subtitles, artwork and metadata with the episodes that they
/// belong to.
pub fn associate_sidecars(items: &mut Vec<PlanItemInternalTv>, root: &FilePath)
    ensures
        associated(old(items)@, final(items)@, root.deep_view()),
{
    let ghost start = items@;
    let ghost ds = drafts(start);
    let ghost list = rests(start);
    let ghost rv = root.deep_view();
    let mut parents: Vec<Option<usize>> = Vec::new();
    let mut i: usize = 0;
    while i < items.len()
        invariant
            i <= items@.len(),
            items@ == start,
            ds == drafts(start),
            list == rests(start),
            rv == root.deep_view(),
            parents@.len() == i,
            forall|k: int|
                0 <= k < i && goes_along(start[k].class) ==> (match #[trigger] parents@[k] {
                    Some(p) => p < start.len() && anchor_of(ds, list, rv, k) == Some(p as int),
                    None => anchor_of(ds, list, rv, k) is None,
                }),
        decreases items@.len() - i,
    {
        let parent: Option<usize> = if is_sidecar(items[i].class) {
            choose_sidecar_parent(items, i, root)
        } else {
            None
        };
        parents.push(parent);
        i = i + 1;
    }
    let mut k: usize = 0;
    while k < items.len()
        invariant
            k <= items@.len(),
            start == old(items)@,
            items@.len() == start.len(),
            parents@.len() == start.len(),
            ds == drafts(start),
            list == rests(start),
            rv == root.deep_view(),
            forall|j: int|
                0 <= j < start.len() && goes_along(start[j].class) ==> (match #[trigger] parents@[j] {
                    Some(p) => p < start.len() && anchor_of(ds, list, rv, j) == Some(p as int),
                    None => anchor_of(ds, list, rv, j) is None,
                }),
            forall|j: int| 0 <= j < k ==> associated_item(start, #[trigger] start[j], items@[j], rv, j),
            forall|j: int|
                0 <= j < start.len() && (j >= k || !goes_along(start[j].class)) ==> (
                #[trigger] items@[j]) == start[j],
        decreases items@.len() - k,
    {
        let ghost held = items@;
        if is_sidecar(items[k].class) {
            match parents[k] {
                Some(p) => {
                    proof {
                        lemma_anchor_of(ds, list, rv, k as int);
                        assert(ds[p as int] == start[p as int].draft());
                        assert(!goes_along(start[p as int].class));
                        assert(items@[p as int] == start[p as int]);
                    }
                    let main = copy_identity(&items[p]);
                    adopt(&mut items[k], main);
                },
                None => {
                    let mut reasons: Vec<String> = Vec::new();
                    reasons.push("orphan sidecar: no matching episode".to_string());
                    let mut missing: Vec<FieldName> = Vec::new();
                    missing.push(FieldName::Title);
                    proof {
                        assert(reasons.deep_view() =~= seq!["orphan sidecar: no matching episode"@]);
                        assert(missing@ =~= seq![FieldName::Title]);
                    }
                    items[k].readiness = Readiness::NeedsReview { missing, reasons };
                },
            }
        }
        proof {
            assert(associated_item(start, start[k as int], items@[k as int], rv, k as int));
            assert forall|j: int| 0 <= j < k + 1 implies associated_item(
                start,
                #[trigger] start[j],
                items@[j],
                rv,
                j,
            ) by {
                if j < k {
                    assert(items@[j] == held[j]);
                }
            }
        }
        k = k + 1;
    }
}

/// The fields that an item which is not ready lacks; the title where that is
/// not told.
pub open spec fn lacking(r: ReadinessView) -> Seq<FieldName> {
    match r {
        ReadinessView::NeedsReview { missing, .. } => missing,
        _ => seq![FieldName::Title],
    }
}

/// The fields that an item which is not ready lacks.
fn missing_fields_for(readiness: &Readiness) -> (r: Vec<FieldName>)
    ensures
        r@ == lacking(readiness.deep_view()),
{
    match readiness {
        Readiness::NeedsReview { missing, .. } => copy_names(missing),
        _ => {
            let mut out: Vec<FieldName> = Vec::new();
            out.push(FieldName::Title);
            proof {
                assert(out@ =~= seq![FieldName::Title]);
            }
            out
        },
    }
}

/// An item that has been routed. One that is not ready asks for a review of
/// what it lacks.
pub open spec fn routed_draft(
    it: PlanItemInternalTv,
    root: FilePath,
    v: VolumeSemantics,
    cfg: Config,
) -> DraftView {
    let d = it.draft();
    if !(d.readiness is Ready) {
        DraftView {
            action: ActionView::NeedsReview { path: d.source, missing: lacking(d.readiness) },
            ..d
        }
    } else {
        match (it.resolved, it.episode_id) {
            (Some(e), Some(id)) => {
                let ctx = RouteContext {
                    root: &root,
                    id: &id,
                    resolved: &e,
                    volume: &v,
                    cfg: &cfg,
                    language: it.language,
                    flags: it.flags,
                };
                match ctx.destination(d.class, d.source) {
                    Some(pair) => DraftView {
                        destination: Some(pair.0),
                        destination_relative: Some(pair.1),
                        ..d
                    },
                    None => d,
                }
            },
            _ => d,
        }
    }
}

/// Whether items have been routed.
pub open spec fn routed(
    before: Seq<PlanItemInternalTv>,
    after: Seq<PlanItemInternalTv>,
    root: FilePath,
    v: VolumeSemantics,
    cfg: Config,
) -> bool {
    &&& same_rest(before, after)
    &&& forall|i: int|
        0 <= i < before.len() ==> (#[trigger] after[i]).draft() == routed_draft(
            before[i],
            root,
            v,
            cfg,
        )
}

/// Routes an item.
fn route_item(
    item: &mut PlanItemInternalTv,
    root: &FilePath,
    volume: &VolumeSemantics,
    cfg: &Config,
)
    ensures
        final(item).draft() == routed_draft(*old(item), *root, *volume, *cfg),
        final(item).identity() == old(item).identity(),
        final(item).rest() == old(item).rest(),
{
    match &item.readiness {
        Readiness::Ready => {},
        _ => {
            let missing = missing_fields_for(&item.readiness);
            item.action = Action::NeedsReview { path: item.source.duplicate(), missing };
            return;
        },
    }
    let found = match (&item.resolved, &item.episode_id) {
        (Some(e), Some(id)) => {
            let flags = match &item.flags {
                Some(f) => Some(f.clone()),
                None => None,
            };
            let ctx = RouteContext {
                root,
                id,
                resolved: e,
                volume,
                cfg,
                language: item.language.clone(),
                flags,
            };
            proof {
                assert(ctx.language == item.language);
                assert(ctx.flags == item.flags);
            }
            route(&ctx, item.class, &item.source)
        },
        _ => None,
    };
    if let Some((absolute, relative)) = found {
        item.destination = Some(absolute);
        item.destination_relative = Some(relative);
    }
}

/// Routes items.
pub fn route_items(
    items: &mut Vec<PlanItemInternalTv>,
    root: &FilePath,
    volume: &VolumeSemantics,
    cfg: &Config,
)
    ensures
        routed(old(items)@, final(items)@, *root, *volume, *cfg),
{
    let ghost start = items@;
    let mut i: usize = 0;
    while i < items.len()
        invariant
            i <= items@.len(),
            start == old(items)@,
            items@.len() == start.len(),
            same_rest(start, items@),
            forall|k: int|
                0 <= k < i ==> (#[trigger] items@[k]).draft() == routed_draft(
                    start[k],
                    *root,
                    *volume,
                    *cfg,
                ),
            forall|k: int| i <= k < start.len() ==> (#[trigger] items@[k]) == start[k],
        decreases items@.len() - i,
    {
        let ghost held = items@;
        route_item(&mut items[i], root, volume, cfg);
        proof {
            assert forall|k: int| 0 <= k < start.len() implies (#[trigger] start[k]).identity()
                == items@[k].identity() && start[k].rest() == items@[k].rest() by {
                assert(start[k].identity() == held[k].identity());
                if k != i {
                    assert(items@[k] == held[k]);
                }
            }
            assert forall|k: int| 0 <= k < i + 1 implies (#[trigger] items@[k]).draft()
                == routed_draft(start[k], *root, *volume, *cfg) by {
                if k < i {
                    assert(items@[k] == held[k]);
                }
            }
        }
        i = i + 1;
    }
}

/// Reconciles items. Duplicates are videos of the same episodes with the same
/// bytes.
pub fn reconcile_tv<F: FileSystem>(
    fs: &mut F,
    items: &mut Vec<PlanItemInternalTv>,
    volume: &VolumeSemantics,
    cfg: &Config,
    notes: &mut Vec<Diagnostic>,
)
    ensures
        old(fs).is_steady() ==> final(fs).is_steady(),
        only_asks(old(fs).history(), final(fs).history()),
        final(fs).tree() == old(fs).tree(),
        exists|read: Findings| #[trigger]
            reconciled(
                old(fs).tree(),
                *cfg,
                *volume,
                old(items)@,
                final(items)@,
                read,
            ) && final(notes).deep_view() == old(notes).deep_view() + hash_notes(
                drafts(old(items)@),
                read.failed,
            ) && read.steady == old(fs).is_steady(),
        same_rest(old(items)@, final(items)@),
{
    reconcile_drafts(fs, items, volume, cfg, notes)
}

/// What the items of a TV plan are from stage to stage.
pub struct TvStages {
    pub files: Seq<ScannedView>,
    pub scanned: Seq<ScannedFile>,
    pub unread: Seq<(PathView, IoErrorView)>,
    pub started: Seq<PlanItemInternalTv>,
    pub regrouped: Seq<PlanItemInternalTv>,
    pub associated: Seq<PlanItemInternalTv>,
    pub routed: Seq<PlanItemInternalTv>,
    pub validated: Seq<PlanItemInternalTv>,
    pub settled: Seq<PlanItemInternalTv>,
    pub read: Findings,
}

/// Whether a plan for TV comes about by the stages.
pub open spec fn plans_tv(t: Tree, p: Planner, s: TvStages, plan: PlanView) -> bool {
    &&& p.heads(plan)
    &&& p.scans(t, s.scanned, s.unread)
    &&& s.files == classified(scanned_views(s.scanned), *p.cfg)
    &&& s.files.len() == 0 ==> found_nothing(s.unread, plan)
    &&& s.files.len() > 0 ==> {
        &&& started(s.files, *p.cfg, s.started)
        &&& regrouped(s.started, s.regrouped)
        &&& associated(s.regrouped, s.associated, p.root.deep_view())
        &&& routed(s.associated, s.routed, *p.root, p.volume, *p.cfg)
        &&& concludes(
            t,
            p.root.deep_view(),
            p.volume,
            *p.cfg,
            seq![FieldName::Title],
            true,
            s.routed,
            s.validated,
            s.settled,
            s.read,
            plan,
        )
        &&& plan.diagnostics == unread_notes(s.unread) + all_check_notes(
            drafts(s.routed),
            p.volume,
        ) + hash_notes(drafts(s.validated), s.read.failed)
    }
}

/// Run the TV planning pipeline.
pub fn plan_tv<F: FileSystem>(planner: &Planner, fs: &mut F, _opts: PlanOptions) -> (r: Result<
    Plan,
    IoError,
>)
    ensures
        old(fs).is_steady() ==> final(fs).is_steady(),
        only_asks(old(fs).history(), final(fs).history()),
        lists_first(
            old(fs).history(),
            final(fs).history(),
            planner.root.deep_view(),
            r is Ok,
        ),
        final(fs).tree() == old(fs).tree(),
        old(fs).is_steady() ==> r is Ok == is_dir(old(fs).tree(), planner.root.deep_view()),
        r matches Ok(plan) ==> exists|s: TvStages| #[trigger]
            plans_tv(old(fs).tree(), *planner, s, plan.deep_view()) && scanned_rightly(
                old(fs).tree(),
                *planner.cfg,
                old(fs).history(),
                final(fs).history(),
                s.scanned,
                s.unread,
                old(fs).is_steady(),
            ) && (old(fs).is_steady() ==> s.read.steady),
{
    let ghost h0 = fs.history();
    let ghost t = fs.tree();
    let ghost steady = fs.is_steady();
    let mut plan = planner.begin();
    let files = match planner.find_files(fs, &mut plan) {
        Ok(f) => f,
        Err(e) => {
            return Err(e);
        },
    };
    let ghost (scanned, unread) = choose|
        scanned: Seq<ScannedFile>,
        unread: Seq<(PathView, IoErrorView)>,
    | #[trigger]
        planner.scans(t, scanned, unread) && plan.deep_view().diagnostics == unread_notes(unread)
            && files.deep_view() == classified(scanned_views(scanned), *planner.cfg)
            && scanned_rightly(t, *planner.cfg, h0, fs.history(), scanned, unread, steady);
    let ghost h1 = fs.history();
    let ghost none: Seq<PlanItemInternalTv> = Seq::empty();
    if files.len() == 0 {
        note_nothing(&mut plan);
        proof {
            let s = TvStages {
                files: files.deep_view(),
                scanned,
                unread,
                started: none,
                regrouped: none,
                associated: none,
                routed: none,
                validated: none,
                settled: none,
                read: Findings { found: Seq::empty(), failed: Seq::empty(), steady },
            };
            assert(plans_tv(t, *planner, s, plan.deep_view()));
        }
        return Ok(plan);
    }
    let mut items = parse_and_resolve(&files, planner.cfg);
    let ghost s1 = items@;
    regroup_items(&mut items);
    let ghost s2 = items@;
    associate_sidecars(&mut items, planner.root);
    let ghost s3 = items@;
    route_items(&mut items, planner.root, &planner.volume, planner.cfg);
    let ghost s4 = items@;
    let mut missing: Vec<FieldName> = Vec::new();
    missing.push(FieldName::Title);
    proof {
        assert(missing@ =~= seq![FieldName::Title]);
    }
    validate_items(&mut items, planner.root, &planner.volume, &missing, &mut plan.diagnostics);
    let ghost s5 = items@;
    let ghost checked = plan.deep_view().diagnostics;
    let ghost now = fs.is_steady();
    reconcile_tv(fs, &mut items, &planner.volume, planner.cfg, &mut plan.diagnostics);
    let ghost s6 = items@;
    let ghost read = choose|read: Findings| #[trigger]
        reconciled(t, *planner.cfg, planner.volume, s5, s6, read) && plan.deep_view().diagnostics
            == checked + hash_notes(drafts(s5), read.failed) && read.steady == now;
    finalise_plan(fs, planner.root, &planner.volume, &items, true, &mut plan);
    proof {
        let s = TvStages {
            files: files.deep_view(),
            scanned,
            unread,
            started: s1,
            regrouped: s2,
            associated: s3,
            routed: s4,
            validated: s5,
            settled: s6,
            read,
        };
        lemma_unread_stays(t, h0, h1, fs.history(), unread, steady);
        assert(reconciled(t, *planner.cfg, planner.volume, s5, s6, read));
        assert(plans_tv(t, *planner, s, plan.deep_view()));
    }
    Ok(plan)
}

/// Up to routing an item is the file that was found.
proof fn lemma_item_is_file(t: Tree, p: Planner, s: TvStages, plan: PlanView, i: int)
    requires
        plans_tv(t, p, s, plan),
        0 <= i < s.files.len(),
    ensures
        s.associated.len() == s.files.len(),
        s.routed.len() == s.files.len(),
        s.associated[i].draft() == (DraftView {
            readiness: s.associated[i].draft().readiness,
            ..started_draft(i, s.files[i], *p.cfg)
        }),
        s.files[i].class == FileClass::Video ==> s.associated[i].draft() == started_draft(
            i,
            s.files[i],
            *p.cfg,
        ),
{
    assert(s.started[i].draft() == started_draft(i, s.files[i], *p.cfg));
    assert(drafts(s.regrouped)[i] == s.regrouped[i].draft());
    assert(drafts(s.started)[i] == s.started[i].draft());
    assert(associated_item(
        s.regrouped,
        s.regrouped[i],
        s.associated[i],
        p.root.deep_view(),
        i,
    ));
}

/// A destination that is contained is under the root.
proof fn lemma_route_is_under_root(
    it: PlanItemInternalTv,
    root: FilePath,
    v: VolumeSemantics,
    cfg: Config,
)
    requires
        it.draft().destination is None,
        routed_draft(it, root, v, cfg).destination is Some,
        is_contained(relative_of(routed_draft(it, root, v, cfg))),
    ensures
        it.draft().readiness is Ready,
        routed_draft(it, root, v, cfg).destination->0.starts_with(root.deep_view()),
        routed_draft(it, root, v, cfg).destination->0.parts.len() > root.deep_view().parts.len(),
{
    let d = it.draft();
    let e = it.resolved->0;
    let id = it.episode_id->0;
    let ctx = RouteContext {
        root: &root,
        id: &id,
        resolved: &e,
        volume: &v,
        cfg: &cfg,
        language: it.language,
        flags: it.flags,
    };
    let parts = extended(ctx.dirs(), ctx.file(d.class, d.source))->0;
    law_contained_place_is_under_root(root.deep_view(), parts, extension_or_empty(d.source), v);
}

/// What is moved was routed, is ready, and stays under the root.
proof fn lemma_moved_item(
    t: Tree,
    p: Planner,
    s: TvStages,
    plan: PlanView,
    a: PlanItemInternalTv,
    i: int,
)
    requires
        concludes(
            t,
            p.root.deep_view(),
            p.volume,
            *p.cfg,
            seq![FieldName::Title],
            true,
            s.routed,
            s.validated,
            s.settled,
            s.read,
            plan,
        ),
        0 <= i < s.routed.len(),
        s.routed[i].draft() == routed_draft(a, *p.root, p.volume, *p.cfg),
        a.draft().destination is None,
        a.draft().action is NoOp,
    ensures
        plan.items.len() == s.routed.len(),
        plan.items[i].source == a.draft().source,
        plan.items[i].class == a.draft().class,
        plan.items[i].readiness == a.draft().readiness,
        plan.items[i].action matches ActionView::Move { from, to } ==> a.draft().readiness is Ready
            && from == a.draft().source && to.starts_with(p.root.deep_view()),
{
    let root = p.root.deep_view();
    law_plan_follows_routes(
        t,
        root,
        p.volume,
        *p.cfg,
        seq![FieldName::Title],
        true,
        s.routed,
        s.validated,
        s.settled,
        s.read,
        plan,
        i,
    );
    if plan.items[i].action is Move {
        let d = s.routed[i].draft();
        assert(d.destination is Some);
        lemma_route_is_under_root(a, *p.root, p.volume, *p.cfg);
        let dest = d.destination->0;
        let to = plan.items[i].destination->0;
        if to != dest {
            let n = choose|n: nat| to == #[trigger] copy_path(dest, n);
            law_copy_stays_under_root(root, dest, n);
        }
    }
}

/// A TV plan moves nothing but what is ready, and nothing out of the root.
/// What is of no known class is never moved.
/// Every file that was found is in it, in its place. A video is moved only if
/// its own name gives season and episodes.
pub proof fn law_tv_plan_is_safe(t: Tree, p: Planner, s: TvStages, plan: PlanView, i: int)
    requires
        plans_tv(t, p, s, plan),
        0 <= i < s.files.len(),
    ensures
        plan.items.len() == s.files.len(),
        plan.items[i].source == s.files[i].absolute,
        plan.items[i].class == s.files[i].class,
        plan.items[i].action matches ActionView::Move { from, to } ==> plan.items[i].readiness
            is Ready && from == s.files[i].absolute && to.starts_with(p.root.deep_view()),
        s.files[i].class == FileClass::Unknown ==> !(plan.items[i].action is Move),
        plan.items[i].action is Move && s.files[i].class == FileClass::Video ==> parsed_from_name(
            s.files[i].absolute,
        ).season.is_known() && parsed_from_name(s.files[i].absolute).episodes.is_known(),
{
    lemma_item_is_file(t, p, s, plan, i);
    assert(s.routed[i].draft() == routed_draft(s.associated[i], *p.root, p.volume, *p.cfg));
    lemma_moved_item(t, p, s, plan, s.associated[i], i);
    let named = parsed_from_name(s.files[i].absolute);
    if !named.season.is_known() || !named.episodes.is_known() {
        law_unnumbered_episode_is_never_ready(episode_resolved_from(named), *p.cfg);
    }
}

} // verus!
