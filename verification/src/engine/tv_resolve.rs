//! TV resolve stage. Episodes are resolved from their filenames alone.

use crate::domain::config::Config;
use crate::domain::duplicate::Duplicate;
use crate::domain::plan::{FieldName, Readiness, ReadinessView};
use crate::domain::provenance::{Confidence, Field, FieldView};
use crate::engine::resolve::{
    add_reason, conclude, is_at_least, is_no_default, is_sure_enough, only_if, readiness_from, sure_enough,
};
use crate::parse::model::{EpisodeFields, ParsedEpisode};
use vstd::prelude::*;

verus! {

/// A TV episode with resolved fields ready for routing.
#[derive(Debug, Clone, PartialEq, Eq)]
pub struct ResolvedEpisode {
    /// Show title.
    pub title: Field<String>,
    /// Show year, only present to tell apart two shows that share a title.
    pub year: Field<u16>,
    pub season: Field<u16>,
    pub episodes: Field<Vec<u16>>,
    pub episode_title: Field<String>,
    pub resolution: Field<String>,
    pub source: Field<String>,
    pub video_codec: Field<String>,
    pub audio_format: Field<String>,
    pub hdr: Field<String>,
    pub copy: Field<u16>,
    /// Whether the marker was recognised but could mean more than one thing,
    /// which is another finding than a missing one.
    pub ambiguous: bool,
}

/// The contents of a [`ResolvedEpisode`].
#[verifier::ext_equal]
pub struct ResolvedEpisodeView {
    pub title: FieldView<Seq<char>>,
    pub year: FieldView<u16>,
    pub season: FieldView<u16>,
    pub episodes: FieldView<Seq<u16>>,
    pub episode_title: FieldView<Seq<char>>,
    pub resolution: FieldView<Seq<char>>,
    pub source: FieldView<Seq<char>>,
    pub video_codec: FieldView<Seq<char>>,
    pub audio_format: FieldView<Seq<char>>,
    pub hdr: FieldView<Seq<char>>,
    pub copy: FieldView<u16>,
    pub ambiguous: bool,
}

impl DeepView for ResolvedEpisode {
    type V = ResolvedEpisodeView;

    open spec fn deep_view(&self) -> ResolvedEpisodeView {
        ResolvedEpisodeView {
            title: self.title.deep_view(),
            year: self.year.deep_view(),
            season: self.season.deep_view(),
            episodes: self.episodes.deep_view(),
            episode_title: self.episode_title.deep_view(),
            resolution: self.resolution.deep_view(),
            source: self.source.deep_view(),
            video_codec: self.video_codec.deep_view(),
            audio_format: self.audio_format.deep_view(),
            hdr: self.hdr.deep_view(),
            copy: self.copy.deep_view(),
            ambiguous: self.ambiguous,
        }
    }
}

impl Duplicate for ResolvedEpisode {
    fn duplicate(&self) -> (r: Self) {
        ResolvedEpisode {
            title: self.title.duplicate(),
            year: self.year.duplicate(),
            season: self.season.duplicate(),
            episodes: self.episodes.duplicate(),
            episode_title: self.episode_title.duplicate(),
            resolution: self.resolution.duplicate(),
            source: self.source.duplicate(),
            video_codec: self.video_codec.duplicate(),
            audio_format: self.audio_format.duplicate(),
            hdr: self.hdr.duplicate(),
            copy: self.copy.duplicate(),
            ambiguous: self.ambiguous,
        }
    }
}

impl Default for ResolvedEpisode {
    fn default() -> (r: Self)
        ensures
            r.deep_view() == episode_resolved_from(EpisodeFields::blank()),
    {
        ResolvedEpisode::from_parsed(&ParsedEpisode::new())
    }
}

/// A parsed episode, resolved from its filename.
pub open spec fn episode_resolved_from(p: EpisodeFields) -> ResolvedEpisodeView {
    ResolvedEpisodeView {
        title: p.title,
        year: p.year,
        season: p.season,
        episodes: p.episodes,
        episode_title: p.episode_title,
        resolution: p.resolution,
        source: p.source,
        video_codec: p.video_codec,
        audio_format: p.audio_format,
        hdr: p.hdr,
        copy: p.copy,
        ambiguous: p.ambiguous,
    }
}

impl ResolvedEpisodeView {
    /// Whether something that is known is a configured default.
    pub open spec fn is_guessed(self) -> bool {
        ||| self.title.is_fallback()
        ||| self.year.is_fallback()
        ||| self.season.is_fallback()
        ||| self.episodes.is_fallback()
        ||| self.episode_title.is_fallback()
        ||| self.resolution.is_fallback()
        ||| self.source.is_fallback()
        ||| self.video_codec.is_fallback()
        ||| self.audio_format.is_fallback()
        ||| self.hdr.is_fallback()
        ||| self.copy.is_fallback()
    }

    /// Whether the required fields that are known are known surely enough.
    pub open spec fn sure(self, least: Confidence) -> bool {
        sure_enough(self.title.confidence(), least) && sure_enough(self.season.confidence(), least)
    }

    /// Whether the episode is ready, or ambiguous, or what is missing.
    pub open spec fn readiness(self, cfg: Config) -> ReadinessView {
        let no_title = !self.title.is_known();
        let no_season = !self.season.is_known();
        let no_episodes = !(self.episodes.ok() matches Some(list) && list.len() > 0);
        let no_year = cfg.behaviour.require_year_for_tv && !self.year.is_known();
        let unsure = !self.sure(cfg.behaviour.min_confidence);
        let guessed = self.is_guessed();
        if self.ambiguous {
            ReadinessView::Ambiguous {
                interpretations: seq![
                    "season/episode marker was ambiguous (e.g. cross-season range or absolute numbering) — confirm season and episode manually"@,
                ],
            }
        } else {
            readiness_from(
                only_if(no_title, seq![FieldName::Title]) + only_if(no_season, seq![FieldName::Season])
                    + only_if(no_episodes, seq![FieldName::Episodes]) + only_if(
                    no_year,
                    seq![FieldName::Year],
                ),
                only_if(no_title, seq!["title could not be determined"@]) + only_if(
                    no_season,
                    seq!["season could not be determined"@],
                ) + only_if(no_episodes, seq!["episode number could not be determined"@]) + only_if(
                    no_year,
                    seq!["year is required for tv"@],
                ) + only_if(unsure, seq!["confidence below configured minimum"@]) + only_if(
                    guessed,
                    seq!["a configured default never justifies a move"@],
                ),
            )
        }
    }
}

impl ResolvedEpisode {
    /// A parsed episode, resolved from its filename.
    pub fn from_parsed(p: &ParsedEpisode) -> (r: Self)
        ensures
            r.deep_view() == episode_resolved_from(p.deep_view()),
    {
        ResolvedEpisode {
            title: p.title.duplicate(),
            year: p.year.duplicate(),
            season: p.season.duplicate(),
            episodes: p.episodes.duplicate(),
            episode_title: p.episode_title.duplicate(),
            resolution: p.resolution.duplicate(),
            source: p.source.duplicate(),
            video_codec: p.video_codec.duplicate(),
            audio_format: p.audio_format.duplicate(),
            hdr: p.hdr.duplicate(),
            copy: p.copy.duplicate(),
            ambiguous: p.ambiguous,
        }
    }

    /// Determine readiness based on required fields (title, season and
    /// episodes; the year where it is asked for) and minimum confidence.
    pub fn readiness(&self, cfg: &Config) -> (r: Readiness)
        ensures
            r.deep_view() == self.deep_view().readiness(*cfg),
    {
        if self.ambiguous {
            let interpretations: Vec<String> = vec![
                "season/episode marker was ambiguous (e.g. cross-season range or absolute numbering) — confirm season and episode manually".to_string(),
            ];
            proof {
                assert(interpretations.deep_view() =~= seq![
                    "season/episode marker was ambiguous (e.g. cross-season range or absolute numbering) — confirm season and episode manually"@,
                ]);
            }
            return Readiness::Ambiguous { interpretations };
        }
        let mut missing: Vec<FieldName> = Vec::new();
        let mut reasons: Vec<String> = Vec::new();
        if !self.title.is_known() {
            missing.push(FieldName::Title);
            add_reason(&mut reasons, "title could not be determined");
        }
        if !self.season.is_known() {
            missing.push(FieldName::Season);
            add_reason(&mut reasons, "season could not be determined");
        }
        let has_episodes = match self.episodes.as_value() {
            Some(list) => list.len() > 0,
            None => false,
        };
        if !has_episodes {
            missing.push(FieldName::Episodes);
            add_reason(&mut reasons, "episode number could not be determined");
        }
        if cfg.behaviour.require_year_for_tv && !self.year.is_known() {
            missing.push(FieldName::Year);
            add_reason(&mut reasons, "year is required for tv");
        }
        if !self.meets_min_confidence(cfg) {
            add_reason(&mut reasons, "confidence below configured minimum");
        }
        if self.holds_default() {
            add_reason(&mut reasons, "a configured default never justifies a move");
        }
        proof {
            let v = self.deep_view();
            let no_title = !v.title.is_known();
            let no_season = !v.season.is_known();
            let no_episodes = !(v.episodes.ok() matches Some(list) && list.len() > 0);
            let no_year = cfg.behaviour.require_year_for_tv && !v.year.is_known();
            let unsure = !v.sure(cfg.behaviour.min_confidence);
            let guessed = v.is_guessed();
            assert(no_episodes == !has_episodes);
            assert(missing@ =~= only_if(no_title, seq![FieldName::Title]) + only_if(
                no_season,
                seq![FieldName::Season],
            ) + only_if(no_episodes, seq![FieldName::Episodes]) + only_if(
                no_year,
                seq![FieldName::Year],
            ));
            assert(reasons.deep_view() =~= only_if(no_title, seq!["title could not be determined"@])
                + only_if(no_season, seq!["season could not be determined"@]) + only_if(
                no_episodes,
                seq!["episode number could not be determined"@],
            ) + only_if(no_year, seq!["year is required for tv"@]) + only_if(
                unsure,
                seq!["confidence below configured minimum"@],
            ) + only_if(guessed, seq!["a configured default never justifies a move"@]));
        }
        conclude(missing, reasons)
    }

    /// Whether something that is known is a configured default.
    fn holds_default(&self) -> (r: bool)
        ensures
            r == self.deep_view().is_guessed(),
    {
        self.title.is_fallback()
            || self.year.is_fallback()
            || self.season.is_fallback()
            || self.episodes.is_fallback()
            || self.episode_title.is_fallback()
            || self.resolution.is_fallback()
            || self.source.is_fallback()
            || self.video_codec.is_fallback()
            || self.audio_format.is_fallback()
            || self.hdr.is_fallback()
            || self.copy.is_fallback()
    }

    /// Whether the required fields that are known are known surely enough.
    fn meets_min_confidence(&self, cfg: &Config) -> (r: bool)
        ensures
            r == self.deep_view().sure(cfg.behaviour.min_confidence),
    {
        let least = cfg.behaviour.min_confidence;
        is_sure_enough(self.title.confidence(), least) && is_sure_enough(
            self.season.confidence(),
            least,
        )
    }
}

/// Resolve a parsed episode from filename candidates.
pub fn resolve_episode(parsed: &ParsedEpisode, _cfg: &Config) -> (r: ResolvedEpisode)
    ensures
        r.deep_view() == episode_resolved_from(parsed.deep_view()),
{
    ResolvedEpisode::from_parsed(parsed)
}

/// An episode whose marker was ambiguous, or of which the season or the number
/// is not known, is never ready: nothing is made up.
pub proof fn law_unnumbered_episode_is_never_ready(e: ResolvedEpisodeView, cfg: Config)
    requires
        e.ambiguous || !e.season.is_known() || !e.episodes.is_known() || !e.title.is_known(),
    ensures
        !(e.readiness(cfg) is Ready),
{
    if !e.ambiguous {
        let no_title = !e.title.is_known();
        let no_season = !e.season.is_known();
        let no_episodes = !(e.episodes.ok() matches Some(list) && list.len() > 0);
        let no_year = cfg.behaviour.require_year_for_tv && !e.year.is_known();
        let missing = only_if(no_title, seq![FieldName::Title]) + only_if(
            no_season,
            seq![FieldName::Season],
        ) + only_if(no_episodes, seq![FieldName::Episodes]) + only_if(no_year, seq![FieldName::Year]);
        assert(missing.len() > 0);
    }
}

/// An episode of which something is a configured default is never ready: a default
/// leads to a remark, and never to a move.
pub proof fn law_guessed_episode_is_never_ready(e: ResolvedEpisodeView, cfg: Config)
    requires
        e.is_guessed(),
    ensures
        !(e.readiness(cfg) is Ready),
{
    if let ReadinessView::NeedsReview { reasons, .. } = e.readiness(cfg) {
        assert(reasons.len() > 0);
    }
}

/// An episode is ready exactly where its marker is not ambiguous, its title,
/// season and at least one episode number are known, its year too where that is
/// required, title and season surely enough, and nothing of it is a configured
/// default. Where it is not ready and not ambiguous, what is missing is said to
/// be.
pub proof fn law_episode_is_ready_when_all_is_known(e: ResolvedEpisodeView, cfg: Config)
    ensures
        e.readiness(cfg) is Ready <==> {
            &&& !e.ambiguous
            &&& e.title is Known
            &&& e.season is Known
            &&& e.episodes matches FieldView::Known { value, .. } && value.len() > 0
            &&& cfg.behaviour.require_year_for_tv ==> e.year is Known
            &&& is_at_least(e.title, cfg.behaviour.min_confidence)
            &&& is_at_least(e.season, cfg.behaviour.min_confidence)
            &&& is_no_default(e.title) && is_no_default(e.year) && is_no_default(e.season)
            &&& is_no_default(e.episodes) && is_no_default(e.episode_title)
            &&& is_no_default(e.resolution) && is_no_default(e.source)
            &&& is_no_default(e.video_codec) && is_no_default(e.audio_format)
            &&& is_no_default(e.hdr) && is_no_default(e.copy)
        },
        e.readiness(cfg) is Ambiguous <==> e.ambiguous,
        e.readiness(cfg) matches ReadinessView::NeedsReview { missing, .. } ==> {
            &&& missing.contains(FieldName::Title) <==> e.title is Unknown
            &&& missing.contains(FieldName::Season) <==> e.season is Unknown
            &&& missing.contains(FieldName::Year) <==> cfg.behaviour.require_year_for_tv
                && e.year is Unknown
            &&& missing.contains(FieldName::Episodes) <==> !(
            e.episodes matches FieldView::Known { value, .. } && value.len() > 0)
        },
{
    let no_title = !e.title.is_known();
    let no_season = !e.season.is_known();
    let no_episodes = !(e.episodes.ok() matches Some(list) && list.len() > 0);
    let no_year = cfg.behaviour.require_year_for_tv && !e.year.is_known();
    let unsure = !e.sure(cfg.behaviour.min_confidence);
    let guessed = e.is_guessed();
    let a = only_if(no_title, seq![FieldName::Title]);
    let b = a + only_if(no_season, seq![FieldName::Season]);
    let c = b + only_if(no_episodes, seq![FieldName::Episodes]);
    let missing = c + only_if(no_year, seq![FieldName::Year]);
    let reasons = only_if(no_title, seq!["title could not be determined"@]) + only_if(
        no_season,
        seq!["season could not be determined"@],
    ) + only_if(no_episodes, seq!["episode number could not be determined"@]) + only_if(
        no_year,
        seq!["year is required for tv"@],
    ) + only_if(unsure, seq!["confidence below configured minimum"@]) + only_if(
        guessed,
        seq!["a configured default never justifies a move"@],
    );
    assert(reasons.len() == 0 <==> !no_title && !no_season && !no_episodes && !no_year && !unsure
        && !guessed);
    if no_title {
        assert(missing[0] == FieldName::Title);
    }
    if no_season {
        assert(missing[a.len() as int] == FieldName::Season);
    }
    if no_episodes {
        assert(missing[b.len() as int] == FieldName::Episodes);
    }
    if no_year {
        assert(missing[missing.len() - 1] == FieldName::Year);
    }
}

} // verus!
