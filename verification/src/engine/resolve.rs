//! Resolve stage.
//!
//! Candidates for a field are merged by the source-preference table. Those of
//! the filename are the baseline; [`merge_field`] folds in others.

use crate::domain::config::Config;
use crate::domain::duplicate::Duplicate;
use crate::domain::identity::{pick_best, SourcePreference};
use crate::domain::plan::{FieldName, Readiness, ReadinessView};
use crate::domain::provenance::{Confidence, Field, FieldView, Source};
use crate::parse::model::{MovieFields, ParsedMovie};
use vstd::prelude::*;

verus! {

/// A movie with resolved fields ready for routing.
#[derive(Debug, Clone, PartialEq, Eq)]
pub struct ResolvedMovie {
    pub title: Field<String>,
    pub year: Field<u16>,
    pub edition: Field<String>,
    pub resolution: Field<String>,
    pub source: Field<String>,
    pub video_codec: Field<String>,
    pub audio_format: Field<String>,
    pub hdr: Field<String>,
    pub copy: Field<u16>,
}

/// The contents of a [`ResolvedMovie`].
#[verifier::ext_equal]
pub struct ResolvedMovieView {
    pub title: FieldView<Seq<char>>,
    pub year: FieldView<u16>,
    pub edition: FieldView<Seq<char>>,
    pub resolution: FieldView<Seq<char>>,
    pub source: FieldView<Seq<char>>,
    pub video_codec: FieldView<Seq<char>>,
    pub audio_format: FieldView<Seq<char>>,
    pub hdr: FieldView<Seq<char>>,
    pub copy: FieldView<u16>,
}

impl DeepView for ResolvedMovie {
    type V = ResolvedMovieView;

    open spec fn deep_view(&self) -> ResolvedMovieView {
        ResolvedMovieView {
            title: self.title.deep_view(),
            year: self.year.deep_view(),
            edition: self.edition.deep_view(),
            resolution: self.resolution.deep_view(),
            source: self.source.deep_view(),
            video_codec: self.video_codec.deep_view(),
            audio_format: self.audio_format.deep_view(),
            hdr: self.hdr.deep_view(),
            copy: self.copy.deep_view(),
        }
    }
}

impl Duplicate for ResolvedMovie {
    fn duplicate(&self) -> (r: Self) {
        ResolvedMovie {
            title: self.title.duplicate(),
            year: self.year.duplicate(),
            edition: self.edition.duplicate(),
            resolution: self.resolution.duplicate(),
            source: self.source.duplicate(),
            video_codec: self.video_codec.duplicate(),
            audio_format: self.audio_format.duplicate(),
            hdr: self.hdr.duplicate(),
            copy: self.copy.duplicate(),
        }
    }
}

impl Default for ResolvedMovie {
    fn default() -> (r: Self)
        ensures
            r.deep_view() == resolved_from(MovieFields::blank()),
    {
        ResolvedMovie::from_parsed(&ParsedMovie::new())
    }
}

/// A parsed movie, resolved from its filename alone.
pub open spec fn resolved_from(p: MovieFields) -> ResolvedMovieView {
    ResolvedMovieView {
        title: p.title,
        year: p.year,
        edition: p.edition,
        resolution: p.resolution,
        source: p.source,
        video_codec: p.video_codec,
        audio_format: p.audio_format,
        hdr: p.hdr,
        copy: p.copy,
    }
}

/// A list where a condition holds, else nothing.
pub open spec fn only_if<A>(b: bool, s: Seq<A>) -> Seq<A> {
    if b {
        s
    } else {
        Seq::empty()
    }
}

/// Whether a confidence, where there is one, is no lower than the least that
/// is asked for.
pub open spec fn sure_enough(c: Option<Confidence>, least: Confidence) -> bool {
    c matches Some(x) ==> x.level() >= least.level()
}

/// Whether a confidence, where there is one, is no lower than the least that
/// is asked for.
pub fn is_sure_enough(c: Option<Confidence>, least: Confidence) -> (r: bool)
    ensures
        r == sure_enough(c, least),
{
    match c {
        Some(x) => x.meets(least),
        None => true,
    }
}

/// Ready where nothing is missing and nothing speaks against it.
pub open spec fn readiness_from(missing: Seq<FieldName>, reasons: Seq<Seq<char>>) -> ReadinessView {
    if missing.len() == 0 && reasons.len() == 0 {
        ReadinessView::Ready
    } else {
        ReadinessView::NeedsReview { missing, reasons }
    }
}

/// Ready where nothing is missing and nothing speaks against it.
pub fn conclude(missing: Vec<FieldName>, reasons: Vec<String>) -> (r: Readiness)
    ensures
        r.deep_view() == readiness_from(missing@, reasons.deep_view()),
{
    if missing.len() == 0 && reasons.len() == 0 {
        Readiness::Ready
    } else {
        Readiness::NeedsReview { missing, reasons }
    }
}

/// Adds a reason.
pub fn add_reason(reasons: &mut Vec<String>, reason: &str)
    ensures
        final(reasons).deep_view() == old(reasons).deep_view().push(reason@),
{
    let ghost before = reasons.deep_view();
    reasons.push(reason.to_string());
    proof {
        assert(reasons.deep_view() =~= before.push(reason@));
    }
}

impl ResolvedMovieView {
    /// Whether something that is known is a configured default.
    pub open spec fn is_guessed(self) -> bool {
        ||| self.title.is_fallback()
        ||| self.year.is_fallback()
        ||| self.edition.is_fallback()
        ||| self.resolution.is_fallback()
        ||| self.source.is_fallback()
        ||| self.video_codec.is_fallback()
        ||| self.audio_format.is_fallback()
        ||| self.hdr.is_fallback()
        ||| self.copy.is_fallback()
    }

    /// Whether the required fields that are known are known surely enough.
    pub open spec fn sure(self, least: Confidence) -> bool {
        sure_enough(self.title.confidence(), least) && sure_enough(self.year.confidence(), least)
    }

    /// Whether the movie is ready, or what is missing.
    pub open spec fn readiness(self, cfg: Config) -> ReadinessView {
        let no_title = !self.title.is_known();
        let no_year = cfg.behaviour.require_year_for_movies && !self.year.is_known();
        let unsure = !self.sure(cfg.behaviour.min_confidence);
        let guessed = self.is_guessed();
        readiness_from(
            only_if(no_title, seq![FieldName::Title]) + only_if(no_year, seq![FieldName::Year]),
            only_if(no_title, seq!["title could not be determined"@]) + only_if(
                no_year,
                seq!["year is required for movies"@],
            ) + only_if(unsure, seq!["confidence below configured minimum"@]) + only_if(
                guessed,
                seq!["a configured default never justifies a move"@],
            ),
        )
    }
}

impl ResolvedMovie {
    /// A parsed movie, resolved from its filename alone.
    pub fn from_parsed(p: &ParsedMovie) -> (r: Self)
        ensures
            r.deep_view() == resolved_from(p.deep_view()),
    {
        ResolvedMovie {
            title: p.title.duplicate(),
            year: p.year.duplicate(),
            edition: p.edition.duplicate(),
            resolution: p.resolution.duplicate(),
            source: p.source.duplicate(),
            video_codec: p.video_codec.duplicate(),
            audio_format: p.audio_format.duplicate(),
            hdr: p.hdr.duplicate(),
            copy: p.copy.duplicate(),
        }
    }

    /// Determine readiness based on required fields and minimum confidence.
    pub fn readiness(&self, cfg: &Config) -> (r: Readiness)
        ensures
            r.deep_view() == self.deep_view().readiness(*cfg),
    {
        let mut missing: Vec<FieldName> = Vec::new();
        let mut reasons: Vec<String> = Vec::new();
        if !self.title.is_known() {
            missing.push(FieldName::Title);
            add_reason(&mut reasons, "title could not be determined");
        }
        if cfg.behaviour.require_year_for_movies && !self.year.is_known() {
            missing.push(FieldName::Year);
            add_reason(&mut reasons, "year is required for movies");
        }
        if !self.meets_min_confidence(cfg) {
            add_reason(&mut reasons, "confidence below configured minimum");
        }
        if self.holds_default() {
            add_reason(&mut reasons, "a configured default never justifies a move");
        }
        proof {
            let v = self.deep_view();
            let no_title = !v.title.is_known();
            let no_year = cfg.behaviour.require_year_for_movies && !v.year.is_known();
            let unsure = !v.sure(cfg.behaviour.min_confidence);
            let guessed = v.is_guessed();
            assert(missing@ =~= only_if(no_title, seq![FieldName::Title]) + only_if(
                no_year,
                seq![FieldName::Year],
            ));
            assert(reasons.deep_view() =~= only_if(no_title, seq!["title could not be determined"@])
                + only_if(no_year, seq!["year is required for movies"@]) + only_if(
                unsure,
                seq!["confidence below configured minimum"@],
            ) + only_if(guessed, seq!["a configured default never justifies a move"@]));
        }
        conclude(missing, reasons)
    }

    /// Whether something that is known is a configured default.
    fn holds_default(&self) -> (r: bool)
        ensures
            r == self.deep_view().is_guessed(),
    {
        self.title.is_fallback()
            || self.year.is_fallback()
            || self.edition.is_fallback()
            || self.resolution.is_fallback()
            || self.source.is_fallback()
            || self.video_codec.is_fallback()
            || self.audio_format.is_fallback()
            || self.hdr.is_fallback()
            || self.copy.is_fallback()
    }

    /// Whether the required fields that are known are known surely enough.
    fn meets_min_confidence(&self, cfg: &Config) -> (r: bool)
        ensures
            r == self.deep_view().sure(cfg.behaviour.min_confidence),
    {
        let least = cfg.behaviour.min_confidence;
        is_sure_enough(self.title.confidence(), least) && is_sure_enough(
            self.year.confidence(),
            least,
        )
    }
}

/// Resolve a parsed movie from filename candidates. Others are folded in
/// afterwards by [`merge_field`].
pub fn resolve_movie(parsed: &ParsedMovie, _cfg: &Config) -> (r: ResolvedMovie)
    ensures
        r.deep_view() == resolved_from(parsed.deep_view()),
{
    ResolvedMovie::from_parsed(parsed)
}

/// The better of two candidates: the first, unless the second is known and
/// the first is not, or its source ranks higher, or its confidence is higher
/// at equal rank.
pub open spec fn better<T>(
    a: FieldView<T>,
    b: FieldView<T>,
    prefs: SourcePreference,
) -> FieldView<T> {
    match (a, b) {
        (_, FieldView::Unknown { .. }) => a,
        (FieldView::Unknown { .. }, _) => b,
        (
            FieldView::Known { source: sa, confidence: ca, .. },
            FieldView::Known { source: sb, confidence: cb, .. },
        ) => if prefs.rank_of(sb) > prefs.rank_of(sa) || (prefs.rank_of(sb) == prefs.rank_of(sa)
            && cb.level() > ca.level()) {
            b
        } else {
            a
        },
    }
}

/// Keep the better of `current` and `candidate` per the source-preference table.
pub fn merge_field<T: Duplicate>(
    current: &Field<T>,
    candidate: Field<T>,
    prefs: &SourcePreference,
) -> (r: Field<T>)
    ensures
        r.deep_view() == better(current.deep_view(), candidate.deep_view(), *prefs),
{
    pick_best(current, &candidate, prefs).duplicate()
}

/// A movie of which something is a configured default is never ready: a default
/// leads to a remark, and never to a move.
pub proof fn law_guessed_movie_is_never_ready(m: ResolvedMovieView, cfg: Config)
    requires
        m.is_guessed(),
    ensures
        !(m.readiness(cfg) is Ready),
{
    if let ReadinessView::NeedsReview { reasons, .. } = m.readiness(cfg) {
        assert(reasons.len() > 0);
    }
}

/// Whether a field, where it is known, is no configured default.
pub open spec fn is_no_default<T>(f: FieldView<T>) -> bool {
    f matches FieldView::Known { source, .. } ==> source != Source::Fallback
}

/// Whether a field, where it is known, is known with a confidence.
pub open spec fn is_at_least<T>(f: FieldView<T>, least: Confidence) -> bool {
    f matches FieldView::Known { confidence, .. } ==> match least {
        Confidence::Low => true,
        Confidence::Medium => confidence != Confidence::Low,
        Confidence::High => confidence == Confidence::High,
    }
}

/// A movie is ready exactly where its title is known, its year too where that is
/// required, both surely enough where they are known, and nothing of it is a
/// configured default. Else what is missing is said to be.
pub proof fn law_movie_is_ready_when_all_is_known(m: ResolvedMovieView, cfg: Config)
    ensures
        m.readiness(cfg) is Ready <==> {
            &&& m.title is Known
            &&& cfg.behaviour.require_year_for_movies ==> m.year is Known
            &&& is_at_least(m.title, cfg.behaviour.min_confidence)
            &&& is_at_least(m.year, cfg.behaviour.min_confidence)
            &&& is_no_default(m.title) && is_no_default(m.year) && is_no_default(m.edition)
            &&& is_no_default(m.resolution) && is_no_default(m.source)
            &&& is_no_default(m.video_codec) && is_no_default(m.audio_format)
            &&& is_no_default(m.hdr) && is_no_default(m.copy)
        },
        m.readiness(cfg) matches ReadinessView::NeedsReview { missing, .. } ==> {
            &&& missing.contains(FieldName::Title) <==> m.title is Unknown
            &&& missing.contains(FieldName::Year) <==> cfg.behaviour.require_year_for_movies
                && m.year is Unknown
        },
{
    let no_title = !m.title.is_known();
    let no_year = cfg.behaviour.require_year_for_movies && !m.year.is_known();
    let unsure = !m.sure(cfg.behaviour.min_confidence);
    let guessed = m.is_guessed();
    let missing = only_if(no_title, seq![FieldName::Title]) + only_if(
        no_year,
        seq![FieldName::Year],
    );
    let reasons = only_if(no_title, seq!["title could not be determined"@]) + only_if(
        no_year,
        seq!["year is required for movies"@],
    ) + only_if(unsure, seq!["confidence below configured minimum"@]) + only_if(
        guessed,
        seq!["a configured default never justifies a move"@],
    );
    assert(reasons.len() == 0 <==> !no_title && !no_year && !unsure && !guessed);
    if no_title {
        assert(missing[0] == FieldName::Title);
    }
    if no_year {
        assert(missing[missing.len() - 1] == FieldName::Year);
    }
}

/// Of two candidates one is kept, and a known one where there is one. Neither
/// is of a source that ranks higher than that of the one that is kept, nor of as
/// high a source and a higher confidence; where they are equal in both, the
/// first is kept.
pub proof fn law_better_candidate_is_kept<T>(
    a: FieldView<T>,
    b: FieldView<T>,
    prefs: SourcePreference,
)
    ensures
        better(a, b, prefs) == a || better(a, b, prefs) == b,
        a is Known || b is Known ==> better(a, b, prefs) is Known,
        better(a, b, prefs) matches FieldView::Known { source, confidence, .. } ==> {
            &&& a matches FieldView::Known { source: sa, confidence: ca, .. } ==> prefs.rank_of(sa)
                < prefs.rank_of(source) || prefs.rank_of(sa) == prefs.rank_of(source) && ca.level()
                <= confidence.level()
            &&& b matches FieldView::Known { source: sb, confidence: cb, .. } ==> prefs.rank_of(sb)
                < prefs.rank_of(source) || prefs.rank_of(sb) == prefs.rank_of(source) && cb.level()
                <= confidence.level()
        },
        a matches FieldView::Known { source: sa, confidence: ca, .. } ==> (
        b matches FieldView::Known { source: sb, confidence: cb, .. } ==> (prefs.rank_of(sa)
            == prefs.rank_of(sb) && ca == cb ==> better(a, b, prefs) == a)),
{
}

} // verus!
