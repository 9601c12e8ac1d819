//! TV episode filename parsing.
//!
//! The season/episode marker is found first, against the raw filename, and
//! masked by a placeholder before the tokeniser and the extractors see the
//! name: a multi-episode marker such as `S01E01-E02` would otherwise be taken
//! for a release group, a year or a resolution. The placeholder is one more
//! claimed span, so the title is what stands before the first claimed span and
//! the episode title what stands between the marker and the next one.

use crate::domain::duplicate::Duplicate;
use crate::domain::provenance::{Confidence, Source};
use crate::parse::extractors::{
    capitalise, capitalised, AudioFormatExtractor, Claim, ClaimView, CopyNumberExtractor, Extractor,
    HdrExtractor, ParseField, ResolutionExtractor, SourceExtractor, VideoCodecExtractor,
    YearExtractor,
};
use crate::parse::model::{known, EpisodeFields, ParseOptions, ParsedEpisode};
use crate::parse::parser::{
    accept, accepted, canonical_audio, canonical_source, canonicalise_audio, canonicalise_source,
    earliest_start, first_start, from_name, gather_between, make_phrase, phrase, texts_between,
};
use crate::parse::tokens::{
    group_of, normal_form, normalise, release_group_of, tokenize, tokens_of, Token, TokenView,
};
use crate::pattern;
use crate::pattern::{Captured, CapturedView};
use crate::text;
use crate::text::{CharClass, Class};
use crate::unicode;
use vstd::prelude::*;

verus! {

/// Stands for the marker once it has been found: a private-use character, not
/// whitespace, a separator or a digit, so it is always a token of its own.
pub const PLACEHOLDER: char = '\u{E000}';

/// A cross-season range: `S01E01-S01E02`.
pub const CROSS_SEASON: &'static str =
    r"(?i)\bS(\d{1,2})E(\d{1,3})\s*-\s*S(\d{1,2})E(\d{1,3})\b";

/// Concatenated episodes: `S01E01E02`.
pub const CONCATENATED: &'static str = r"(?i)\bS\d{1,2}(?:E\d{1,3}){2,}\b";

/// Episodes chained by dashes: `S01E01-E02`, `S01E01-02`.
pub const DASH_CHAIN: &'static str = r"(?i)\bS\d{1,2}E\d{1,3}(?:-E?\d{1,3})+\b";

/// Episodes chained by ampersands: `S01E01 & S01E02`.
pub const AMP_CHAIN: &'static str =
    r"(?i)\bS\d{1,2}E\d{1,3}(?:[\s.]*&[\s.]*S\d{1,2}E\d{1,3})+\b";

/// A single episode: `S01E01`.
pub const SINGLE: &'static str = r"(?i)\bS(\d{1,2})E(\d{1,3})\b";

/// Concatenated episodes: `1x01x02`.
pub const CROSS_MULTI: &'static str = r"(?i)\b\d{1,2}x\d{1,3}(?:x\d{1,3})+\b";

/// A single episode: `1x05`.
pub const CROSS_SINGLE: &'static str = r"(?i)\b(\d{1,2})x(\d{1,3})\b";

/// A range without a season: `E01-E03`.
pub const BARE_RANGE: &'static str = r"(?i)\bE(\d{1,3})\s*-\s*E(\d{1,3})\b";

/// A numbered special: `Special 05`, `SP05`, `OVA 05`.
pub const SPECIAL_NUMBERED: &'static str = r"(?i)\b(Special|SP|OVA)[.\-_ ]*(\d{1,4})\b";

/// A special by its title alone: `Christmas Special`, `OVA`.
pub const SPECIAL_TITLED: &'static str =
    r"(?i)\b(?:(?:Christmas|Holiday|Halloween|Anniversary|New Year'?s?)[.\-_ ]+)?(?:Special|OVA)\b";

/// Absolute numbering: `Show - 137`.
pub const ABSOLUTE: &'static str = r"(?i)-\s*(\d{1,3})\s*$";

/// The season at the start of a marker.
pub const LEADING_SEASON: &'static str = r"(?i)^S(\d{1,2})";

/// The season and episode at the start of a marker.
pub const LEADING_EPISODE: &'static str = r"(?i)^S(\d{1,2})E(\d{1,3})";

/// Every episode number of a marker.
pub const EVERY_EPISODE: &'static str = r"(?i)E(\d{1,3})";

/// Every number after a dash.
pub const EVERY_DASHED: &'static str = r"(?i)-E?(\d{1,3})";

/// Every season and episode pair of a marker.
pub const EVERY_PAIR: &'static str = r"(?i)S(\d{1,2})E(\d{1,3})";

/// What a marker says.
#[derive(Debug, Clone, PartialEq, Eq)]
pub struct Marking {
    pub season: Option<u16>,
    pub episodes: Option<Vec<u16>>,
    pub ambiguous: bool,
    /// Set for a special by its title alone: the phrase is the whole
    /// designation, so it becomes the episode title.
    pub special_phrase: Option<String>,
}

/// The contents of a [`Marking`].
#[verifier::ext_equal]
pub struct MarkingView {
    pub season: Option<u16>,
    pub episodes: Option<Seq<u16>>,
    pub ambiguous: bool,
    pub special_phrase: Option<Seq<char>>,
}

impl DeepView for Marking {
    type V = MarkingView;

    open spec fn deep_view(&self) -> MarkingView {
        MarkingView {
            season: self.season,
            episodes: match self.episodes {
                Some(e) => Some(e@),
                None => None,
            },
            ambiguous: self.ambiguous,
            special_phrase: self.special_phrase.deep_view(),
        }
    }
}

/// The episodes of a season, or of none that is named.
pub open spec fn marking(season: Option<u16>, episodes: Seq<u16>) -> MarkingView {
    MarkingView { season, episodes: Some(episodes), ambiguous: false, special_phrase: None }
}

/// A range over more than one season, which is not guessed at.
pub open spec fn across_seasons() -> MarkingView {
    MarkingView { season: None, episodes: None, ambiguous: true, special_phrase: None }
}

impl Marking {
    /// The episodes of a season, or of none that is named.
    fn plain(season: Option<u16>, episodes: Vec<u16>) -> (r: Self)
        ensures
            r.deep_view() == marking(season, episodes@),
    {
        Marking { season, episodes: Some(episodes), ambiguous: false, special_phrase: None }
    }

    /// A range over more than one season.
    fn across() -> (r: Self)
        ensures
            r.deep_view() == across_seasons(),
    {
        Marking { season: None, episodes: None, ambiguous: true, special_phrase: None }
    }
}

/// What one rule says of a name: nothing, so that the next rule is asked, or
/// the answer, which may be that there is no marker.
pub enum Ruling {
    Pass,
    Answer(Option<Marking>),
}

/// The contents of a [`Ruling`].
#[verifier::ext_equal]
pub enum RulingView {
    Pass,
    Answer(Option<MarkingView>),
}

impl DeepView for Ruling {
    type V = RulingView;

    open spec fn deep_view(&self) -> RulingView {
        match *self {
            Ruling::Pass => RulingView::Pass,
            Ruling::Answer(m) => RulingView::Answer(m.deep_view()),
        }
    }
}

/// The episodes from `a` to `b`; both, where `b` is less.
pub open spec fn range(a: u16, b: u16) -> Seq<u16> {
    if b >= a {
        Seq::new((b - a + 1) as nat, |i: int| (a + i) as u16)
    } else {
        seq![a, b]
    }
}

/// Writes out a range of episodes.
pub fn expand_range(a: u16, b: u16) -> (r: Vec<u16>)
    ensures
        r@ == range(a, b),
{
    let mut out: Vec<u16> = Vec::new();
    if b >= a {
        let mut n: u16 = a;
        loop
            invariant
                a <= n <= b,
                out@ == range(a, b).take(n - a),
            decreases b - n,
        {
            out.push(n);
            proof {
                assert(out@ =~= range(a, b).take(n - a + 1));
            }
            if n == b {
                proof {
                    assert(range(a, b).take(n - a + 1) =~= range(a, b));
                }
                return out;
            }
            n = n + 1;
        }
    }
    out.push(a);
    out.push(b);
    proof {
        assert(out@ =~= seq![a, b]);
    }
    out
}

/// What a group of a match captured: the empty text where it took no part.
pub open spec fn nth_group(groups: Seq<Option<Seq<char>>>, i: int) -> Seq<char> {
    (CapturedView { before: Seq::empty(), groups, after: Seq::empty() }).group(i)
}

/// The numbers in one group of successive matches, those that are not numbers
/// left out.
pub open spec fn numbers_in(list: Seq<Seq<Option<Seq<char>>>>, i: int) -> Seq<u16>
    decreases list.len(),
{
    if list.len() == 0 {
        Seq::empty()
    } else {
        let rest = numbers_in(list.drop_last(), i);
        match text::number(nth_group(list.last(), i)) {
            Some(n) => rest.push(n),
            None => rest,
        }
    }
}

/// Reads one group of a match.
fn group_text(groups: &Vec<Option<String>>, i: usize) -> (r: String)
    ensures
        r@ == nth_group(groups.deep_view(), i as int),
{
    let ghost v = groups.deep_view();
    if i < groups.len() {
        proof {
            assert(v[i as int] == groups@[i as int].deep_view());
        }
        match &groups[i] {
            Some(g) => g.clone(),
            None => String::new(),
        }
    } else {
        String::new()
    }
}

/// Reads the numbers in one group of successive matches.
pub fn read_numbers(list: &Vec<Vec<Option<String>>>, i: usize) -> (r: Vec<u16>)
    ensures
        r@ == numbers_in(list.deep_view(), i as int),
{
    let ghost v = list.deep_view();
    let mut out: Vec<u16> = Vec::new();
    let mut k: usize = 0;
    while k < list.len()
        invariant
            k <= list@.len(),
            v == list.deep_view(),
            out@ == numbers_in(v.take(k as int), i as int),
        decreases list@.len() - k,
    {
        proof {
            assert(v.take(k + 1).drop_last() =~= v.take(k as int));
            assert(v.take(k + 1).last() == list@[k as int].deep_view());
        }
        if let Some(n) = text::parse_number(&group_text(&list[k], i)) {
            out.push(n);
        }
        k = k + 1;
    }
    proof {
        assert(v.take(k as int) =~= v);
    }
    out
}

/// The pairs of numbers in the first two groups of successive matches, those
/// that are not both numbers left out.
pub open spec fn pairs_in(list: Seq<Seq<Option<Seq<char>>>>) -> Seq<(u16, u16)>
    decreases list.len(),
{
    if list.len() == 0 {
        Seq::empty()
    } else {
        let rest = pairs_in(list.drop_last());
        match (text::number(nth_group(list.last(), 1)), text::number(nth_group(list.last(), 2))) {
            (Some(s), Some(e)) => rest.push((s, e)),
            _ => rest,
        }
    }
}

/// Reads the pairs of numbers in the first two groups of successive matches.
pub fn read_pairs(list: &Vec<Vec<Option<String>>>) -> (r: Vec<(u16, u16)>)
    ensures
        r@ == pairs_in(list.deep_view()),
{
    let ghost v = list.deep_view();
    let mut out: Vec<(u16, u16)> = Vec::new();
    let mut k: usize = 0;
    while k < list.len()
        invariant
            k <= list@.len(),
            v == list.deep_view(),
            out@ == pairs_in(v.take(k as int)),
        decreases list@.len() - k,
    {
        proof {
            assert(v.take(k + 1).drop_last() =~= v.take(k as int));
            assert(v.take(k + 1).last() == list@[k as int].deep_view());
        }
        let s = text::parse_number(&group_text(&list[k], 1));
        let e = text::parse_number(&group_text(&list[k], 2));
        if let Some(season) = s {
            if let Some(episode) = e {
                out.push((season, episode));
            }
        }
        k = k + 1;
    }
    proof {
        assert(v.take(k as int) =~= v);
    }
    out
}

// ---------------------------------------------------------------------------
// The rules, in the order in which they are asked
// ---------------------------------------------------------------------------

/// `S01E01-S01E02`: the range within one season; over two it is ambiguous.
pub open spec fn cross_season_ruling(found: Option<CapturedView>) -> RulingView {
    match found {
        None => RulingView::Pass,
        Some(c) => match (
            text::number(c.group(1)),
            text::number(c.group(2)),
            text::number(c.group(3)),
            text::number(c.group(4)),
        ) {
            (Some(s1), Some(e1), Some(s2), Some(e2)) => RulingView::Answer(
                Some(
                    if s1 == s2 {
                        marking(Some(s1), range(e1, e2))
                    } else {
                        across_seasons()
                    },
                ),
            ),
            _ => RulingView::Answer(None),
        },
    }
}

/// Rules on a match of [`CROSS_SEASON`].
pub fn rule_cross_season(found: &Option<Captured>) -> (r: Ruling)
    ensures
        r.deep_view() == cross_season_ruling(found.deep_view()),
{
    match found {
        None => Ruling::Pass,
        Some(c) => {
            let s1 = text::parse_number(c.group(1));
            let e1 = text::parse_number(c.group(2));
            let s2 = text::parse_number(c.group(3));
            let e2 = text::parse_number(c.group(4));
            match (s1, e1, s2, e2) {
                (Some(s1), Some(e1), Some(s2), Some(e2)) => Ruling::Answer(
                    Some(
                        if s1 == s2 {
                            Marking::plain(Some(s1), expand_range(e1, e2))
                        } else {
                            Marking::across()
                        },
                    ),
                ),
                _ => Ruling::Answer(None),
            }
        },
    }
}

/// `S01E01E02`: the season at its start, and every episode number.
pub open spec fn concatenated_ruling(
    lead: Option<CapturedView>,
    every: Seq<Seq<Option<Seq<char>>>>,
) -> RulingView {
    match lead {
        None => RulingView::Pass,
        Some(c) => match text::number(c.group(1)) {
            Some(season) => if numbers_in(every, 1).len() > 0 {
                RulingView::Answer(Some(marking(Some(season), numbers_in(every, 1))))
            } else {
                RulingView::Pass
            },
            None => RulingView::Pass,
        },
    }
}

/// Rules on the season and the episodes within a match of [`CONCATENATED`].
pub fn rule_concatenated(lead: &Option<Captured>, every: &Vec<Vec<Option<String>>>) -> (r: Ruling)
    ensures
        r.deep_view() == concatenated_ruling(lead.deep_view(), every.deep_view()),
{
    if let Some(c) = lead {
        if let Some(season) = text::parse_number(c.group(1)) {
            let episodes = read_numbers(every, 1);
            if episodes.len() > 0 {
                return Ruling::Answer(Some(Marking::plain(Some(season), episodes)));
            }
        }
    }
    Ruling::Pass
}

/// `S01E01-E02`: the season and episode at its start, and every number after a
/// dash.
pub open spec fn dash_chain_ruling(
    lead: Option<CapturedView>,
    every: Seq<Seq<Option<Seq<char>>>>,
) -> RulingView {
    match lead {
        None => RulingView::Pass,
        Some(c) => match (text::number(c.group(1)), text::number(c.group(2))) {
            (Some(season), Some(first)) => RulingView::Answer(
                Some(marking(Some(season), seq![first] + numbers_in(every, 1))),
            ),
            _ => RulingView::Answer(None),
        },
    }
}

/// Rules on the start of a match of [`DASH_CHAIN`] and the numbers after its
/// dashes.
pub fn rule_dash_chain(lead: &Option<Captured>, every: &Vec<Vec<Option<String>>>) -> (r: Ruling)
    ensures
        r.deep_view() == dash_chain_ruling(lead.deep_view(), every.deep_view()),
{
    match lead {
        None => Ruling::Pass,
        Some(c) => match (text::parse_number(c.group(1)), text::parse_number(c.group(2))) {
            (Some(season), Some(first)) => {
                let mut episodes: Vec<u16> = vec![first];
                let mut more = read_numbers(every, 1);
                episodes.append(&mut more);
                proof {
                    assert(episodes@ =~= seq![first] + numbers_in(every.deep_view(), 1));
                }
                Ruling::Answer(Some(Marking::plain(Some(season), episodes)))
            },
            _ => Ruling::Answer(None),
        },
    }
}

/// The second numbers of pairs.
pub open spec fn seconds(pairs: Seq<(u16, u16)>) -> Seq<u16> {
    Seq::new(pairs.len(), |i: int| pairs[i].1)
}

/// `S01E01 & S01E02`: the episodes, where all are of one season.
pub open spec fn amp_chain_ruling(every: Seq<Seq<Option<Seq<char>>>>) -> RulingView {
    let pairs = pairs_in(every);
    if pairs.len() == 0 {
        RulingView::Pass
    } else if forall|i: int| 0 <= i < pairs.len() ==> (#[trigger] pairs[i]).0 == pairs[0].0 {
        RulingView::Answer(Some(marking(Some(pairs[0].0), seconds(pairs))))
    } else {
        RulingView::Answer(Some(across_seasons()))
    }
}

/// Rules on the season and episode pairs within a match of [`AMP_CHAIN`].
pub fn rule_amp_chain(every: &Vec<Vec<Option<String>>>) -> (r: Ruling)
    ensures
        r.deep_view() == amp_chain_ruling(every.deep_view()),
{
    let pairs = read_pairs(every);
    if pairs.len() == 0 {
        return Ruling::Pass;
    }
    let base: u16 = pairs[0].0;
    let mut episodes: Vec<u16> = Vec::new();
    let mut i: usize = 0;
    while i < pairs.len()
        invariant
            i <= pairs@.len(),
            pairs@ == pairs_in(every.deep_view()),
            pairs@.len() > 0,
            base == pairs@[0].0,
            forall|k: int| 0 <= k < i ==> (#[trigger] pairs@[k]).0 == base,
            episodes@ == seconds(pairs@).take(i as int),
        decreases pairs@.len() - i,
    {
        if pairs[i].0 != base {
            return Ruling::Answer(Some(Marking::across()));
        }
        episodes.push(pairs[i].1);
        i = i + 1;
    }
    proof {
        assert(seconds(pairs@).take(i as int) =~= seconds(pairs@));
    }
    Ruling::Answer(Some(Marking::plain(Some(base), episodes)))
}

/// A season and one episode, in two groups of a match.
pub open spec fn single_ruling(found: Option<CapturedView>) -> RulingView {
    match found {
        None => RulingView::Pass,
        Some(c) => match (text::number(c.group(1)), text::number(c.group(2))) {
            (Some(season), Some(ep)) => RulingView::Answer(Some(marking(Some(season), seq![ep]))),
            _ => RulingView::Answer(None),
        },
    }
}

/// Rules on a match of [`SINGLE`] or [`CROSS_SINGLE`].
pub fn rule_single(found: &Option<Captured>) -> (r: Ruling)
    ensures
        r.deep_view() == single_ruling(found.deep_view()),
{
    match found {
        None => Ruling::Pass,
        Some(c) => match (text::parse_number(c.group(1)), text::parse_number(c.group(2))) {
            (Some(season), Some(ep)) => {
                let episodes: Vec<u16> = vec![ep];
                proof {
                    assert(episodes@ =~= seq![ep]);
                }
                Ruling::Answer(Some(Marking::plain(Some(season), episodes)))
            },
            _ => Ruling::Answer(None),
        },
    }
}

/// The numbers among texts, those that are not numbers left out.
pub open spec fn numbers_among(list: Seq<Seq<char>>) -> Seq<u16>
    decreases list.len(),
{
    if list.len() == 0 {
        Seq::empty()
    } else {
        match text::number(list.last()) {
            Some(n) => numbers_among(list.drop_last()).push(n),
            None => numbers_among(list.drop_last()),
        }
    }
}

/// `1x01x02`: the season before the first cross, and the episodes after it.
pub open spec fn cross_multi_ruling(found: Option<CapturedView>) -> RulingView {
    match found {
        None => RulingView::Pass,
        Some(c) => {
            let parts = text::split(c.group(0), CharClass::In(seq!['x', 'X']));
            let episodes = numbers_among(parts.skip(1));
            match text::number(parts[0]) {
                Some(season) => if episodes.len() > 0 {
                    RulingView::Answer(Some(marking(Some(season), episodes)))
                } else {
                    RulingView::Pass
                },
                None => RulingView::Pass,
            }
        },
    }
}

/// Rules on a match of [`CROSS_MULTI`].
pub fn rule_cross_multi(found: &Option<Captured>) -> (r: Ruling)
    ensures
        r.deep_view() == cross_multi_ruling(found.deep_view()),
{
    if let Some(c) = found {
        let cross: Vec<char> = vec!['x', 'X'];
        proof {
            assert(cross@ =~= seq!['x', 'X']);
        }
        let parts = text::split_at_class(&text::to_chars(c.group(0)), Class::In(&cross));
        let ghost v = text::texts(parts@);
        proof {
            assert(v.len() == parts@.len());
        }
        if parts.len() == 0 {
            return Ruling::Pass;
        }
        proof {
            assert(v[0] == parts@[0]@);
        }
        if let Some(season) = text::parse_u16(&parts[0]) {
            let mut episodes: Vec<u16> = Vec::new();
            let mut i: usize = 1;
            while i < parts.len()
                invariant
                    1 <= i <= parts@.len(),
                    v == text::texts(parts@),
                    episodes@ == numbers_among(v.skip(1).take(i - 1)),
                decreases parts@.len() - i,
            {
                proof {
                    assert(v.skip(1).take(i + 1 - 1).drop_last() =~= v.skip(1).take(i - 1));
                    assert(v.skip(1).take(i + 1 - 1).last() == parts@[i as int]@);
                }
                if let Some(n) = text::parse_u16(&parts[i]) {
                    episodes.push(n);
                }
                i = i + 1;
            }
            proof {
                assert(v.skip(1).take(i - 1) =~= v.skip(1));
            }
            if episodes.len() > 0 {
                return Ruling::Answer(Some(Marking::plain(Some(season), episodes)));
            }
        }
    }
    Ruling::Pass
}

/// `E01-E03`: the range, with no season.
pub open spec fn bare_range_ruling(found: Option<CapturedView>) -> RulingView {
    match found {
        None => RulingView::Pass,
        Some(c) => match (text::number(c.group(1)), text::number(c.group(2))) {
            (Some(e1), Some(e2)) => RulingView::Answer(Some(marking(None, range(e1, e2)))),
            _ => RulingView::Answer(None),
        },
    }
}

/// Rules on a match of [`BARE_RANGE`].
pub fn rule_bare_range(found: &Option<Captured>) -> (r: Ruling)
    ensures
        r.deep_view() == bare_range_ruling(found.deep_view()),
{
    match found {
        None => Ruling::Pass,
        Some(c) => match (text::parse_number(c.group(1)), text::parse_number(c.group(2))) {
            (Some(e1), Some(e2)) => Ruling::Answer(
                Some(Marking::plain(None, expand_range(e1, e2))),
            ),
            _ => Ruling::Answer(None),
        },
    }
}

/// `Special 05`: an episode of season zero.
pub open spec fn special_numbered_ruling(found: Option<CapturedView>) -> RulingView {
    match found {
        None => RulingView::Pass,
        Some(c) => match text::number(c.group(2)) {
            Some(ep) => RulingView::Answer(Some(marking(Some(0), seq![ep]))),
            None => RulingView::Answer(None),
        },
    }
}

/// Rules on a match of [`SPECIAL_NUMBERED`].
pub fn rule_special_numbered(found: &Option<Captured>) -> (r: Ruling)
    ensures
        r.deep_view() == special_numbered_ruling(found.deep_view()),
{
    match found {
        None => Ruling::Pass,
        Some(c) => match text::parse_number(c.group(2)) {
            Some(ep) => {
                let episodes: Vec<u16> = vec![ep];
                proof {
                    assert(episodes@ =~= seq![ep]);
                }
                Ruling::Answer(Some(Marking::plain(Some(0), episodes)))
            },
            None => Ruling::Answer(None),
        },
    }
}

/// A word of a special's title as it is usually spelt.
pub open spec fn tidied_word(w: Seq<char>) -> Seq<char> {
    let l = unicode::lowercase(w);
    if l == "ova"@ {
        "OVA"@
    } else if l == "sp"@ {
        "SP"@
    } else {
        capitalised(l)
    }
}

/// A special's title as it is usually spelt.
pub open spec fn tidied_phrase(s: Seq<char>) -> Seq<char> {
    let w = text::words(s);
    text::join(Seq::new(w.len(), |i: int| tidied_word(w[i])), seq![' '])
}

/// Spells a special's title the usual way.
pub fn tidy_phrase(s: &str) -> (r: String)
    ensures
        r@ == tidied_phrase(s@),
{
    let words = text::to_words(&text::to_chars(s));
    let ghost w = text::words(s@);
    let ghost want = Seq::new(w.len(), |i: int| tidied_word(w[i]));
    let mut out: Vec<Vec<char>> = Vec::new();
    let mut i: usize = 0;
    while i < words.len()
        invariant
            i <= words@.len(),
            text::texts(words@) == w,
            want == Seq::new(w.len(), |i: int| tidied_word(w[i])),
            text::texts(out@) == want.take(i as int),
        decreases words@.len() - i,
    {
        let ghost before = text::texts(out@);
        let l = unicode::to_lowercase(&text::to_text(&words[i]));
        let tidy = if text::same_text(&l, "ova") {
            text::to_chars("OVA")
        } else if text::same_text(&l, "sp") {
            text::to_chars("SP")
        } else {
            capitalise(&text::to_chars(&l))
        };
        out.push(tidy);
        proof {
            assert(text::texts(words@)[i as int] == words@[i as int]@);
            assert(text::texts(out@) =~= before.push(want[i as int]));
            assert(want.take(i + 1) =~= want.take(i as int).push(want[i as int]));
        }
        i = i + 1;
    }
    proof {
        assert(text::texts(words@).len() == words@.len());
        assert(want.take(i as int) =~= want);
    }
    let space: Vec<char> = vec![' '];
    proof {
        assert(space@ =~= seq![' ']);
    }
    text::to_text(&text::joined(&out, &space))
}

/// `Christmas Special`: season zero, with no episode number, which is never
/// invented.
pub open spec fn special_titled_ruling(found: Option<CapturedView>) -> RulingView {
    match found {
        None => RulingView::Pass,
        Some(c) => RulingView::Answer(
            Some(
                MarkingView {
                    season: Some(0),
                    episodes: None,
                    ambiguous: false,
                    special_phrase: Some(tidied_phrase(c.group(0))),
                },
            ),
        ),
    }
}

/// Rules on a match of [`SPECIAL_TITLED`].
pub fn rule_special_titled(found: &Option<Captured>) -> (r: Ruling)
    ensures
        r.deep_view() == special_titled_ruling(found.deep_view()),
{
    match found {
        None => Ruling::Pass,
        Some(c) => Ruling::Answer(
            Some(
                Marking {
                    season: Some(0),
                    episodes: None,
                    ambiguous: false,
                    special_phrase: Some(tidy_phrase(c.group(0))),
                },
            ),
        ),
    }
}

/// `Show - 137`: an absolute number, ambiguous by design, unless it is a year.
pub open spec fn absolute_ruling(
    found: Option<CapturedView>,
    min_year: u16,
    max_year: u16,
) -> RulingView {
    match found {
        None => RulingView::Pass,
        Some(c) => match text::number(c.group(1)) {
            Some(n) => if min_year <= n && n <= max_year {
                RulingView::Pass
            } else {
                RulingView::Answer(
                    Some(MarkingView { ambiguous: true, ..marking(None, seq![n]) }),
                )
            },
            None => RulingView::Pass,
        },
    }
}

/// Rules on a match of [`ABSOLUTE`].
pub fn rule_absolute(found: &Option<Captured>, min_year: u16, max_year: u16) -> (r: Ruling)
    ensures
        r.deep_view() == absolute_ruling(found.deep_view(), min_year, max_year),
{
    if let Some(c) = found {
        if let Some(n) = text::parse_number(c.group(1)) {
            if !(min_year <= n && n <= max_year) {
                let episodes: Vec<u16> = vec![n];
                proof {
                    assert(episodes@ =~= seq![n]);
                }
                return Ruling::Answer(
                    Some(
                        Marking {
                            season: None,
                            episodes: Some(episodes),
                            ambiguous: true,
                            special_phrase: None,
                        },
                    ),
                );
            }
        }
    }
    Ruling::Pass
}

// ---------------------------------------------------------------------------
// Finding the marker
// ---------------------------------------------------------------------------

/// A marker found in a name: what it says, and the text on either side of it.
#[derive(Debug, Clone, PartialEq, Eq)]
pub struct Marker {
    pub before: String,
    pub after: String,
    pub marking: Marking,
}

/// The contents of a [`Marker`].
#[verifier::ext_equal]
pub struct MarkerView {
    pub before: Seq<char>,
    pub after: Seq<char>,
    pub marking: MarkingView,
}

impl DeepView for Marker {
    type V = MarkerView;

    open spec fn deep_view(&self) -> MarkerView {
        MarkerView {
            before: self.before@,
            after: self.after@,
            marking: self.marking.deep_view(),
        }
    }
}

/// The answer of a rule on a match: nothing where the rule passes.
pub open spec fn answer(found: Option<CapturedView>, ruling: RulingView) -> Option<
    Option<MarkerView>,
> {
    match ruling {
        RulingView::Pass => None,
        RulingView::Answer(None) => Some(None),
        RulingView::Answer(Some(marking)) => match found {
            Some(c) => Some(Some(MarkerView { before: c.before, after: c.after, marking })),
            None => Some(None),
        },
    }
}

/// Turns the ruling on a match into an answer.
fn settle(found: Option<Captured>, ruling: Ruling) -> (r: Option<Option<Marker>>)
    ensures
        r.deep_view() == answer(found.deep_view(), ruling.deep_view()),
{
    match ruling {
        Ruling::Pass => None,
        Ruling::Answer(None) => Some(None),
        Ruling::Answer(Some(marking)) => match found {
            Some(c) => Some(Some(Marker { before: c.before, after: c.after, marking })),
            None => Some(None),
        },
    }
}

/// The answer of the rule on concatenated episodes.
pub open spec fn concatenated_answer(t: Seq<char>) -> Option<Option<MarkerView>> {
    match pattern::captures_of(CONCATENATED@, t) {
        Some(c) => answer(
            Some(c),
            concatenated_ruling(
                pattern::captures_of(LEADING_SEASON@, c.group(0)),
                pattern::all_captures_of(EVERY_EPISODE@, c.group(0)),
            ),
        ),
        None => None,
    }
}

/// Asks the rule on concatenated episodes.
fn ask_concatenated(t: &str) -> (r: Option<Option<Marker>>)
    ensures
        r.deep_view() == concatenated_answer(t@),
{
    match pattern::captures(CONCATENATED, t) {
        Some(c) => {
            let lead = pattern::captures(LEADING_SEASON, c.group(0));
            let every = pattern::all_captures(EVERY_EPISODE, c.group(0));
            let ruling = rule_concatenated(&lead, &every);
            settle(Some(c), ruling)
        },
        None => None,
    }
}

/// The answer of the rule on episodes chained by dashes.
pub open spec fn dash_chain_answer(t: Seq<char>) -> Option<Option<MarkerView>> {
    match pattern::captures_of(DASH_CHAIN@, t) {
        Some(c) => answer(
            Some(c),
            dash_chain_ruling(
                pattern::captures_of(LEADING_EPISODE@, c.group(0)),
                pattern::all_captures_of(EVERY_DASHED@, c.group(0)),
            ),
        ),
        None => None,
    }
}

/// Asks the rule on episodes chained by dashes.
fn ask_dash_chain(t: &str) -> (r: Option<Option<Marker>>)
    ensures
        r.deep_view() == dash_chain_answer(t@),
{
    match pattern::captures(DASH_CHAIN, t) {
        Some(c) => {
            let lead = pattern::captures(LEADING_EPISODE, c.group(0));
            let every = pattern::all_captures(EVERY_DASHED, c.group(0));
            let ruling = rule_dash_chain(&lead, &every);
            settle(Some(c), ruling)
        },
        None => None,
    }
}

/// The answer of the rule on episodes chained by ampersands.
pub open spec fn amp_chain_answer(t: Seq<char>) -> Option<Option<MarkerView>> {
    match pattern::captures_of(AMP_CHAIN@, t) {
        Some(c) => answer(
            Some(c),
            amp_chain_ruling(pattern::all_captures_of(EVERY_PAIR@, c.group(0))),
        ),
        None => None,
    }
}

/// Asks the rule on episodes chained by ampersands.
fn ask_amp_chain(t: &str) -> (r: Option<Option<Marker>>)
    ensures
        r.deep_view() == amp_chain_answer(t@),
{
    match pattern::captures(AMP_CHAIN, t) {
        Some(c) => {
            let every = pattern::all_captures(EVERY_PAIR, c.group(0));
            let ruling = rule_amp_chain(&every);
            settle(Some(c), ruling)
        },
        None => None,
    }
}

/// A name without its extension, where something stands before the dot.
pub open spec fn stem_of(name: Seq<char>) -> Seq<char> {
    let dot = text::last_where(name, CharClass::Is('.'), true);
    if dot > 0 {
        name.take(dot)
    } else {
        name
    }
}

/// The match of absolute numbering at the end of the stem, with the extension
/// put back after it.
pub open spec fn absolute_match(t: Seq<char>) -> Option<CapturedView> {
    match pattern::captures_of(ABSOLUTE@, stem_of(t)) {
        Some(c) => Some(CapturedView { after: c.after + t.skip(stem_of(t).len() as int), ..c }),
        None => None,
    }
}

/// The answer of the rule on absolute numbering.
pub open spec fn absolute_answer(t: Seq<char>, min_year: u16, max_year: u16) -> Option<
    Option<MarkerView>,
> {
    answer(absolute_match(t), absolute_ruling(absolute_match(t), min_year, max_year))
}

/// Asks the rule on absolute numbering.
fn ask_absolute(t: &str, min_year: u16, max_year: u16) -> (r: Option<Option<Marker>>)
    ensures
        r.deep_view() == absolute_answer(t@, min_year, max_year),
{
    let chars = text::to_chars(t);
    let n: usize = match text::rfind_char(&chars, '.') {
        Some(i) => if i > 0 {
            i
        } else {
            chars.len()
        },
        None => chars.len(),
    };
    let stem = text::slice_of(&chars, 0, n);
    let extension = text::to_text(&text::slice_of(&chars, n, chars.len()));
    proof {
        assert(stem@ =~= stem_of(t@));
        assert(extension@ =~= t@.skip(n as int));
    }
    let found = match pattern::captures(ABSOLUTE, &text::to_text(&stem)) {
        Some(c) => {
            let mut c = c;
            c.after.append(&extension);
            Some(c)
        },
        None => None,
    };
    let ruling = rule_absolute(&found, min_year, max_year);
    settle(found, ruling)
}

/// The first of two answers.
pub open spec fn or_else(a: Option<Option<MarkerView>>, b: Option<Option<MarkerView>>) -> Option<
    Option<MarkerView>,
> {
    match a {
        Some(_) => a,
        None => b,
    }
}

/// The answer of a rule that rules on the match of one pattern.
pub open spec fn answer_by(pattern: Seq<char>, t: Seq<char>, rule: Rule) -> Option<
    Option<MarkerView>,
> {
    let c = pattern::captures_of(pattern, t);
    answer(
        c,
        match rule {
            Rule::CrossSeason => cross_season_ruling(c),
            Rule::Single => single_ruling(c),
            Rule::CrossMulti => cross_multi_ruling(c),
            Rule::BareRange => bare_range_ruling(c),
            Rule::SpecialNumbered => special_numbered_ruling(c),
            Rule::SpecialTitled => special_titled_ruling(c),
        },
    )
}

/// The rules that rule on the match of one pattern.
#[derive(Debug, Clone, Copy, PartialEq, Eq, Structural)]
pub enum Rule {
    CrossSeason,
    Single,
    CrossMulti,
    BareRange,
    SpecialNumbered,
    SpecialTitled,
}

/// Asks a rule that rules on the match of one pattern.
fn ask(pattern: &str, t: &str, rule: Rule) -> (r: Option<Option<Marker>>)
    ensures
        r.deep_view() == answer_by(pattern@, t@, rule),
{
    let c = pattern::captures(pattern, t);
    let ruling = match rule {
        Rule::CrossSeason => rule_cross_season(&c),
        Rule::Single => rule_single(&c),
        Rule::CrossMulti => rule_cross_multi(&c),
        Rule::BareRange => rule_bare_range(&c),
        Rule::SpecialNumbered => rule_special_numbered(&c),
        Rule::SpecialTitled => rule_special_titled(&c),
    };
    settle(c, ruling)
}

/// The answer of the rules up to the plain season and episode forms.
pub open spec fn season_answer(t: Seq<char>) -> Option<Option<MarkerView>> {
    or_else(
        answer_by(CROSS_SEASON@, t, Rule::CrossSeason),
        or_else(
            concatenated_answer(t),
            or_else(
                dash_chain_answer(t),
                or_else(
                    amp_chain_answer(t),
                    or_else(
                        answer_by(SINGLE@, t, Rule::Single),
                        or_else(
                            answer_by(CROSS_MULTI@, t, Rule::CrossMulti),
                            answer_by(CROSS_SINGLE@, t, Rule::Single),
                        ),
                    ),
                ),
            ),
        ),
    )
}

/// The answer of the rules on names without a season.
pub open spec fn seasonless_answer(t: Seq<char>, min_year: u16, max_year: u16) -> Option<
    Option<MarkerView>,
> {
    or_else(
        answer_by(BARE_RANGE@, t, Rule::BareRange),
        or_else(
            answer_by(SPECIAL_NUMBERED@, t, Rule::SpecialNumbered),
            or_else(
                answer_by(SPECIAL_TITLED@, t, Rule::SpecialTitled),
                absolute_answer(t, min_year, max_year),
            ),
        ),
    )
}

/// The marker of a name: the answer of the first rule that has one.
pub open spec fn marker_of(t: Seq<char>, min_year: u16, max_year: u16) -> Option<MarkerView> {
    match or_else(season_answer(t), seasonless_answer(t, min_year, max_year)) {
        Some(a) => a,
        None => None,
    }
}

/// Asks the rules up to the plain season and episode forms.
pub fn ask_season(t: &str) -> (r: Option<Option<Marker>>)
    ensures
        r.deep_view() == season_answer(t@),
{
    if let Some(a) = ask(CROSS_SEASON, t, Rule::CrossSeason) {
        return Some(a);
    }
    if let Some(a) = ask_concatenated(t) {
        return Some(a);
    }
    if let Some(a) = ask_dash_chain(t) {
        return Some(a);
    }
    if let Some(a) = ask_amp_chain(t) {
        return Some(a);
    }
    if let Some(a) = ask(SINGLE, t, Rule::Single) {
        return Some(a);
    }
    if let Some(a) = ask(CROSS_MULTI, t, Rule::CrossMulti) {
        return Some(a);
    }
    ask(CROSS_SINGLE, t, Rule::Single)
}

/// Finds the season/episode marker of a name. The rules are asked from the
/// most specific form to the least; a number is never invented.
pub fn find_marker(t: &str, min_year: u16, max_year: u16) -> (r: Option<Marker>)
    ensures
        r.deep_view() == marker_of(t@, min_year, max_year),
{
    if let Some(a) = ask_season(t) {
        return a;
    }
    if let Some(a) = ask(BARE_RANGE, t, Rule::BareRange) {
        return a;
    }
    if let Some(a) = ask(SPECIAL_NUMBERED, t, Rule::SpecialNumbered) {
        return a;
    }
    if let Some(a) = ask(SPECIAL_TITLED, t, Rule::SpecialTitled) {
        return a;
    }
    if let Some(a) = ask_absolute(t, min_year, max_year) {
        return a;
    }
    None
}

// ---------------------------------------------------------------------------
// Parsing
// ---------------------------------------------------------------------------

/// The fields of an episode with the value of a claim written in.
pub open spec fn with_claim(m: EpisodeFields, c: ClaimView) -> EpisodeFields {
    match c.field {
        ParseField::Year => match text::number(c.value) {
            Some(y) => EpisodeFields { year: from_name(y, Confidence::High), ..m },
            None => m,
        },
        ParseField::Resolution => EpisodeFields {
            resolution: from_name(c.value, Confidence::Medium),
            ..m
        },
        ParseField::Source => EpisodeFields {
            source: from_name(canonical_source(c.value), Confidence::Medium),
            ..m
        },
        ParseField::VideoCodec => EpisodeFields {
            video_codec: from_name(c.value, Confidence::Medium),
            ..m
        },
        ParseField::AudioFormat => EpisodeFields {
            audio_format: from_name(canonical_audio(c.value), Confidence::Medium),
            ..m
        },
        ParseField::Hdr => EpisodeFields { hdr: from_name(c.value, Confidence::Medium), ..m },
        ParseField::Copy => match text::number(c.value) {
            Some(n) => EpisodeFields { copy: from_name(n, Confidence::High), ..m },
            None => m,
        },
        _ => m,
    }
}

/// The fields of an episode with the values of claims written in, in order.
pub open spec fn with_claims(m: EpisodeFields, claims: Seq<ClaimView>) -> EpisodeFields
    decreases claims.len(),
{
    if claims.len() == 0 {
        m
    } else {
        with_claim(with_claims(m, claims.drop_last()), claims.last())
    }
}

/// Writes the value of a claim into the fields of an episode. Edition,
/// language and release group are not claimed in an episode name.
pub fn apply_claim(episode: &mut ParsedEpisode, claim: &Claim)
    ensures
        final(episode).deep_view() == with_claim(old(episode).deep_view(), claim.deep_view()),
{
    let src = Source::Filename;
    match claim.field {
        ParseField::Year => {
            if let Some(y) = text::parse_number(&claim.value) {
                episode.year = known(y, src, Confidence::High);
            }
        },
        ParseField::Resolution => {
            episode.resolution = known(claim.value.clone(), src, Confidence::Medium);
        },
        ParseField::Source => {
            episode.source = known(canonicalise_source(&claim.value), src, Confidence::Medium);
        },
        ParseField::VideoCodec => {
            episode.video_codec = known(claim.value.clone(), src, Confidence::Medium);
        },
        ParseField::AudioFormat => {
            episode.audio_format = known(canonicalise_audio(&claim.value), src, Confidence::Medium);
        },
        ParseField::Hdr => {
            episode.hdr = known(claim.value.clone(), src, Confidence::Medium);
        },
        ParseField::Copy => {
            if let Some(n) = text::parse_number(&claim.value) {
                episode.copy = known(n, src, Confidence::High);
            }
        },
        ParseField::Edition | ParseField::Language | ParseField::ReleaseGroup => {},
    }
}

/// The text of the placeholder token.
pub open spec fn placeholder() -> Seq<char> {
    seq![PLACEHOLDER]
}

/// The placeholder token, if there is one.
pub open spec fn placeholder_token(tokens: Seq<TokenView>) -> Option<TokenView>
    decreases tokens.len(),
{
    if tokens.len() == 0 {
        None
    } else if tokens[0].text == placeholder() {
        Some(tokens[0])
    } else {
        placeholder_token(tokens.skip(1))
    }
}

/// Whether a text is the placeholder.
fn is_placeholder(s: &[char]) -> (r: bool)
    ensures
        r == (s@ == placeholder()),
{
    if s.len() == 1 && s[0] == PLACEHOLDER {
        proof {
            assert(s@ =~= placeholder());
        }
        true
    } else {
        false
    }
}

/// Finds the span of the placeholder token.
fn find_placeholder(tokens: &Vec<Token>) -> (r: Option<(usize, usize)>)
    ensures
        match r {
            Some(span) => placeholder_token(tokens.deep_view()) matches Some(t) && t.start
                == span.0 as nat && t.end == span.1 as nat,
            None => placeholder_token(tokens.deep_view()) is None,
        },
{
    let ghost v = tokens.deep_view();
    let mut i: usize = 0;
    proof {
        assert(v.skip(0) =~= v);
    }
    while i < tokens.len()
        invariant
            i <= tokens@.len(),
            v == tokens.deep_view(),
            placeholder_token(v) == placeholder_token(v.skip(i as int)),
        decreases tokens@.len() - i,
    {
        proof {
            assert(v.skip(i as int)[0] == tokens@[i as int].deep_view());
            assert(v.skip(i as int).skip(1) =~= v.skip(i + 1));
        }
        if is_placeholder(&text::to_chars(tokens[i].as_str())) {
            return Some((tokens[i].start, tokens[i].end));
        }
        i = i + 1;
    }
    proof {
        assert(v.skip(i as int) =~= Seq::empty());
    }
    None
}

/// Whether a text is nothing but dashes.
pub open spec fn is_bare_separator(s: Seq<char>) -> bool {
    s.len() > 0 && text::first_where(s, CharClass::Is('-'), false) == s.len()
}

/// The words of a title: without the placeholder and bare separators.
pub open spec fn plain_words(list: Seq<Seq<char>>) -> Seq<Seq<char>>
    decreases list.len(),
{
    if list.len() == 0 {
        Seq::empty()
    } else {
        let rest = plain_words(list.drop_last());
        if list.last() == placeholder() || is_bare_separator(list.last()) {
            rest
        } else {
            rest.push(list.last())
        }
    }
}

/// Keeps the words of a title.
fn keep_plain(list: &Vec<Vec<char>>) -> (r: Vec<Vec<char>>)
    ensures
        text::texts(r@) == plain_words(text::texts(list@)),
{
    let ghost v = text::texts(list@);
    let mut out: Vec<Vec<char>> = Vec::new();
    let mut i: usize = 0;
    proof {
        assert(text::texts(out@) =~= Seq::empty());
    }
    while i < list.len()
        invariant
            i <= list@.len(),
            v == text::texts(list@),
            text::texts(out@) == plain_words(v.take(i as int)),
        decreases list@.len() - i,
    {
        let ghost before = text::texts(out@);
        proof {
            assert(v.take(i + 1).drop_last() =~= v.take(i as int));
            assert(v.take(i + 1).last() == list@[i as int]@);
        }
        let bare = list[i].len() > 0 && text::find_first(&list[i], Class::Is('-'), false)
            == list[i].len();
        if !is_placeholder(&list[i]) && !bare {
            let w = text::slice_of(&list[i], 0, list[i].len());
            proof {
                assert(w@ =~= list@[i as int]@);
            }
            out.push(w);
            proof {
                assert(text::texts(out@) =~= before.push(list@[i as int]@));
            }
        }
        i = i + 1;
    }
    proof {
        assert(v.take(i as int) =~= v);
    }
    out
}

/// The claims that start at or after a position.
pub open spec fn claims_from(claims: Seq<ClaimView>, from: nat) -> Seq<ClaimView>
    decreases claims.len(),
{
    if claims.len() == 0 {
        Seq::empty()
    } else {
        let rest = claims_from(claims.drop_last(), from);
        if claims.last().start >= from {
            rest.push(claims.last())
        } else {
            rest
        }
    }
}

/// Keeps the claims that start at or after a position.
fn keep_from(claims: &Vec<Claim>, from: usize) -> (r: Vec<Claim>)
    ensures
        r.deep_view() == claims_from(claims.deep_view(), from as nat),
{
    let ghost v = claims.deep_view();
    let mut out: Vec<Claim> = Vec::new();
    let mut i: usize = 0;
    proof {
        assert(out.deep_view() =~= Seq::empty());
    }
    while i < claims.len()
        invariant
            i <= claims@.len(),
            v == claims.deep_view(),
            out.deep_view() == claims_from(v.take(i as int), from as nat),
        decreases claims@.len() - i,
    {
        let ghost before = out.deep_view();
        proof {
            assert(v.take(i + 1).drop_last() =~= v.take(i as int));
            assert(v.take(i + 1).last() == claims@[i as int].deep_view());
        }
        if claims[i].start >= from {
            out.push(claims[i].duplicate());
            proof {
                assert(out.deep_view() =~= before.push(claims@[i as int].deep_view()));
            }
        }
        i = i + 1;
    }
    proof {
        assert(v.take(i as int) =~= v);
    }
    out
}

/// The title that stands between two positions.
pub open spec fn title_between(tokens: Seq<TokenView>, from: nat, to: nat) -> Seq<char> {
    phrase(plain_words(texts_between(tokens, from, to)))
}

/// Reads the title that stands between two positions.
fn read_title(tokens: &Vec<Token>, from: usize, to: usize) -> (r: String)
    ensures
        r@ == title_between(tokens.deep_view(), from as nat, to as nat),
{
    make_phrase(&keep_plain(&gather_between(tokens, from, to)))
}

/// The title of the episode: the phrase of a special, else what stands between
/// the marker and the next claim.
pub open spec fn episode_title_of(
    tokens: Seq<TokenView>,
    length: nat,
    claims: Seq<ClaimView>,
    marking: MarkingView,
) -> Option<Seq<char>> {
    match marking.special_phrase {
        Some(p) => Some(p),
        None => match placeholder_token(tokens) {
            Some(t) => {
                let end = first_start(claims_from(claims, t.end), length);
                let title = title_between(tokens, t.end, end);
                if title.len() > 0 {
                    Some(title)
                } else {
                    None
                }
            },
            None => None,
        },
    }
}

/// Reads the title of the episode.
fn read_episode_title(
    tokens: &Vec<Token>,
    length: usize,
    claims: &Vec<Claim>,
    marking: &Marking,
) -> (r: Option<String>)
    ensures
        r.deep_view() == episode_title_of(
            tokens.deep_view(),
            length as nat,
            claims.deep_view(),
            marking.deep_view(),
        ),
{
    match &marking.special_phrase {
        Some(p) => Some(p.clone()),
        None => match find_placeholder(tokens) {
            Some((_, end)) => {
                let next: usize = earliest_start(&keep_from(claims, end), length);
                let title = read_title(tokens, end, next);
                if title.as_str().is_empty() {
                    None
                } else {
                    Some(title)
                }
            },
            None => None,
        },
    }
}

/// The fields of an episode with what its marker says written in.
pub open spec fn with_marking(e: EpisodeFields, m: MarkingView) -> EpisodeFields {
    EpisodeFields {
        season: match m.season {
            Some(s) => from_name(s, Confidence::High),
            None => e.season,
        },
        episodes: match m.episodes {
            Some(list) => from_name(
                list,
                if m.ambiguous {
                    Confidence::Low
                } else {
                    Confidence::High
                },
            ),
            None => e.episodes,
        },
        ambiguous: m.ambiguous,
        ..e
    }
}

/// The fields of an episode, from the tokens of its name, the claims on them,
/// what the marker says and the release group.
pub open spec fn episode_from(
    tokens: Seq<TokenView>,
    length: nat,
    claims: Seq<ClaimView>,
    marker: Option<MarkingView>,
    group: Option<Seq<char>>,
) -> EpisodeFields {
    let tagged = with_claims(EpisodeFields::blank(), claims);
    let anchor = first_start(
        claims,
        match placeholder_token(tokens) {
            Some(t) => t.start,
            None => length,
        },
    );
    let title = title_between(tokens, 0, anchor);
    let titled = if title.len() > 0 {
        EpisodeFields { title: from_name(title, Confidence::Medium), ..tagged }
    } else {
        tagged
    };
    let marked = match marker {
        Some(m) => with_marking(
            match episode_title_of(tokens, length, claims, m) {
                Some(t) => EpisodeFields {
                    episode_title: from_name(t, Confidence::Medium),
                    ..titled
                },
                None => titled,
            },
            m,
        ),
        None => titled,
    };
    match group {
        Some(g) => EpisodeFields { release_group: from_name(g, Confidence::Low), ..marked },
        None => marked,
    }
}

/// Puts the fields of an episode together from the tokens of its name, the
/// claims on them, what the marker says and the release group.
pub fn assemble_episode(
    tokens: &Vec<Token>,
    length: usize,
    claims: &Vec<Claim>,
    marker: &Option<Marking>,
    group: Option<String>,
) -> (r: ParsedEpisode)
    ensures
        r.deep_view() == episode_from(
            tokens.deep_view(),
            length as nat,
            claims.deep_view(),
            marker.deep_view(),
            group.deep_view(),
        ),
{
    let mut episode = ParsedEpisode::new();
    let ghost v = claims.deep_view();
    let mut i: usize = 0;
    while i < claims.len()
        invariant
            i <= claims@.len(),
            v == claims.deep_view(),
            episode.deep_view() == with_claims(EpisodeFields::blank(), v.take(i as int)),
        decreases claims@.len() - i,
    {
        proof {
            assert(v.take(i + 1).drop_last() =~= v.take(i as int));
            assert(v.take(i + 1).last() == claims@[i as int].deep_view());
        }
        apply_claim(&mut episode, &claims[i]);
        i = i + 1;
    }
    proof {
        assert(v.take(i as int) =~= v);
    }
    let limit: usize = match find_placeholder(tokens) {
        Some((start, _)) => start,
        None => length,
    };
    let title = read_title(tokens, 0, earliest_start(claims, limit));
    if !title.as_str().is_empty() {
        episode.title = known(title, Source::Filename, Confidence::Medium);
    }
    if let Some(m) = marker {
        if let Some(t) = read_episode_title(tokens, length, claims, m) {
            episode.episode_title = known(t, Source::Filename, Confidence::Medium);
        }
        if let Some(season) = m.season {
            episode.season = known(season, Source::Filename, Confidence::High);
        }
        if let Some(list) = &m.episodes {
            let copy = list.duplicate();
            proof {
                assert(list.deep_view() =~= list@);
                assert(copy.deep_view() =~= copy@);
            }
            episode.episodes = known(
                copy,
                Source::Filename,
                if m.ambiguous {
                    Confidence::Low
                } else {
                    Confidence::High
                },
            );
        }
        episode.ambiguous = m.ambiguous;
    }
    if let Some(g) = group {
        episode.release_group = known(g, Source::Filename, Confidence::Low);
    }
    episode
}

/// The spans that the episode extractors claim, in order of priority.
pub open spec fn episode_candidates(
    tokens: Seq<TokenView>,
    normalised: Seq<char>,
    opts: ParseOptions,
) -> Seq<Option<ClaimView>> {
    seq![
        ResolutionExtractor.claim_of(tokens, normalised),
        SourceExtractor.claim_of(tokens, normalised),
        VideoCodecExtractor.claim_of(tokens, normalised),
        AudioFormatExtractor.claim_of(tokens, normalised),
        HdrExtractor.claim_of(tokens, normalised),
        crate::parse::extractors::year_claim(tokens, opts.min_year, opts.max_year),
        CopyNumberExtractor.claim_of(tokens, normalised),
    ]
}

/// A name with its word separators made spaces, so that a marker that touches
/// one still stands on word boundaries.
pub open spec fn prescanned(filename: Seq<char>) -> Seq<char> {
    text::spaced(filename, CharClass::In(seq!['_', '+']))
}

/// A name with its marker replaced by the placeholder.
pub open spec fn masked(filename: Seq<char>, marker: Option<MarkerView>) -> Seq<char> {
    match marker {
        Some(m) => m.before + seq![' ', PLACEHOLDER, ' '] + m.after,
        None => prescanned(filename),
    }
}

/// The fields that an episode filename gives once its marker has been found.
pub open spec fn episode_fields_given(
    filename: Seq<char>,
    opts: ParseOptions,
    marker: Option<MarkerView>,
) -> EpisodeFields {
    let name = masked(filename, marker);
    let tokens = tokens_of(name);
    let normalised = normal_form(name);
    if tokens.len() == 0 {
        EpisodeFields::blank()
    } else {
        episode_from(
            tokens,
            text::utf8_len(normalised),
            accepted(episode_candidates(tokens, normalised, opts)),
            match marker {
                Some(m) => Some(m.marking),
                None => None,
            },
            group_of(name),
        )
    }
}

/// The fields that an episode filename gives.
pub open spec fn episode_fields(filename: Seq<char>, opts: ParseOptions) -> EpisodeFields {
    episode_fields_given(
        filename,
        opts,
        marker_of(prescanned(filename), opts.min_year, opts.max_year),
    )
}

/// Replaces the marker of a name by the placeholder.
fn mask_marker(prescanned_name: String, marker: &Option<Marker>) -> (r: String)
    ensures
        r@ == (match marker.deep_view() {
            Some(m) => m.before + seq![' ', PLACEHOLDER, ' '] + m.after,
            None => prescanned_name@,
        }),
{
    match marker {
        Some(m) => {
            let mut out = m.before.clone();
            out.push(' ');
            out.push(PLACEHOLDER);
            out.push(' ');
            out.append(&m.after);
            proof {
                assert(out@ =~= m.before@ + seq![' ', PLACEHOLDER, ' '] + m.after@);
            }
            out
        },
        None => prescanned_name,
    }
}

/// Makes the word separators of a name spaces.
fn replace_word_separators(filename: &str) -> (r: String)
    ensures
        r@ == prescanned(filename@),
{
    let marks: Vec<char> = vec!['_', '+'];
    proof {
        assert(marks@ =~= seq!['_', '+']);
    }
    text::to_text(&text::with_spaces(&text::to_chars(filename), Class::In(&marks)))
}

/// Parses an episode filename whose marker has been found.
pub fn parse_episode_given(filename: &str, opts: &ParseOptions, marker: Option<Marker>) -> (r:
    ParsedEpisode)
    ensures
        r.deep_view() == episode_fields_given(filename@, *opts, marker.deep_view()),
{
    let name = mask_marker(replace_word_separators(filename), &marker);
    let normalised = normalise(&name);
    let tokens = tokenize(&name);
    if tokens.len() == 0 {
        return ParsedEpisode::new();
    }
    let candidates: Vec<Option<Claim>> = vec![
        ResolutionExtractor.extract(&tokens, &normalised),
        SourceExtractor.extract(&tokens, &normalised),
        VideoCodecExtractor.extract(&tokens, &normalised),
        AudioFormatExtractor.extract(&tokens, &normalised),
        HdrExtractor.extract(&tokens, &normalised),
        YearExtractor::new(opts.min_year, opts.max_year).extract(&tokens, &normalised),
        CopyNumberExtractor.extract(&tokens, &normalised),
    ];
    proof {
        assert(candidates.deep_view() =~= episode_candidates(
            tokens.deep_view(),
            normalised@,
            *opts,
        ));
    }
    let claims = accept(&candidates);
    let marking = match marker {
        Some(m) => Some(m.marking),
        None => None,
    };
    assemble_episode(
        &tokens,
        text::byte_len(&normalised),
        &claims,
        &marking,
        release_group_of(&name),
    )
}

/// Parse a filename as a TV episode. Language is left alone: short language
/// codes collide with common title words.
pub fn parse_episode_filename(filename: &str, opts: &ParseOptions) -> (r: ParsedEpisode)
    ensures
        r.deep_view() == episode_fields(filename@, *opts),
{
    let name = replace_word_separators(filename);
    let marker = find_marker(&name, opts.min_year, opts.max_year);
    parse_episode_given(filename, opts, marker)
}

/// No episode number is invented: the parsed episodes are those that the
/// marker gives, and unknown where it gives none or there is no marker.
pub proof fn law_episodes_come_from_marker(filename: Seq<char>, opts: ParseOptions)
    ensures
        ({
            let marker = marker_of(prescanned(filename), opts.min_year, opts.max_year);
            let e = episode_fields(filename, opts);
            e.episodes matches crate::domain::provenance::FieldView::Known { value, .. }
                ==> marker is Some && marker->0.marking.episodes == Some(value)
        }),
        ({
            let marker = marker_of(prescanned(filename), opts.min_year, opts.max_year);
            let e = episode_fields(filename, opts);
            e.season matches crate::domain::provenance::FieldView::Known { value, .. }
                ==> marker is Some && marker->0.marking.season == Some(value)
        }),
{
    let marker = marker_of(prescanned(filename), opts.min_year, opts.max_year);
    let name = masked(filename, marker);
    let claims = accepted(episode_candidates(tokens_of(name), normal_form(name), opts));
    lemma_claims_leave_marker_fields(EpisodeFields::blank(), claims);
}

/// Claims write neither the season nor the episodes, and make nothing
/// ambiguous.
pub proof fn lemma_claims_leave_marker_fields(m: EpisodeFields, claims: Seq<ClaimView>)
    ensures
        with_claims(m, claims).season == m.season,
        with_claims(m, claims).episodes == m.episodes,
        with_claims(m, claims).ambiguous == m.ambiguous,
    decreases claims.len(),
{
    if claims.len() > 0 {
        lemma_claims_leave_marker_fields(m, claims.drop_last());
    }
}

/// Claims write in what comes from the name.
proof fn lemma_claims_come_from_name(m: EpisodeFields, claims: Seq<ClaimView>)
    requires
        m.comes_from_name(),
    ensures
        with_claims(m, claims).comes_from_name(),
    decreases claims.len(),
{
    if claims.len() > 0 {
        lemma_claims_come_from_name(m, claims.drop_last());
    }
}

/// What is put together comes from the name.
proof fn lemma_episode_comes_from_name(
    tokens: Seq<TokenView>,
    length: nat,
    claims: Seq<ClaimView>,
    marker: Option<MarkingView>,
    group: Option<Seq<char>>,
)
    ensures
        episode_from(tokens, length, claims, marker, group).comes_from_name(),
{
    lemma_claims_come_from_name(EpisodeFields::blank(), claims);
}

/// Everything that an episode filename gives is said to come from the name:
/// nothing is a default, and nothing is invented.
pub proof fn law_episode_fields_come_from_name(
    filename: Seq<char>,
    opts: ParseOptions,
    marker: Option<MarkerView>,
)
    ensures
        episode_fields_given(filename, opts, marker).comes_from_name(),
{
    let name = masked(filename, marker);
    let tokens = tokens_of(name);
    let normalised = normal_form(name);
    lemma_episode_comes_from_name(
        tokens,
        text::utf8_len(normalised),
        accepted(episode_candidates(tokens, normalised, opts)),
        match marker {
            Some(m) => Some(m.marking),
            None => None,
        },
        group_of(name),
    );
}

} // verus!
