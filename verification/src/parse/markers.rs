//! What the season/episode marker of a name says of the episode.

use crate::domain::provenance::Confidence;
use crate::parse::model::{EpisodeFields, ParseOptions};
use crate::parse::parser::accepted;
use crate::parse::tokens::{normal_form, tokens_of};
use crate::parse::tv::{
    absolute_match, episode_candidates, episode_fields, lemma_claims_leave_marker_fields, marker_of,
    masked, nth_group, numbers_among, numbers_in, pairs_in, prescanned, stem_of, MarkerView,
    ABSOLUTE, AMP_CHAIN, BARE_RANGE, CONCATENATED, CROSS_MULTI, CROSS_SEASON, CROSS_SINGLE,
    DASH_CHAIN, EVERY_DASHED, EVERY_EPISODE, EVERY_PAIR, LEADING_EPISODE, LEADING_SEASON,
    PLACEHOLDER, SINGLE, SPECIAL_NUMBERED, SPECIAL_TITLED,
};
use crate::pattern;
use crate::pattern::CapturedView;
use crate::text;
use crate::text::CharClass;
use vstd::prelude::*;

verus! {

/// Whether a text is the digits of a number, with any zeros in front.
pub open spec fn writes(s: Seq<char>, n: u16) -> bool {
    exists|width: nat| s == #[trigger] text::padded(n as nat, width)
}

/// The digits of a number denote it, whatever zeros stand in front.
pub proof fn law_written_number_is_read(s: Seq<char>, n: u16)
    requires
        writes(s, n),
    ensures
        text::number(s) == Some(n),
{
    let width = choose|width: nat| s == #[trigger] text::padded(n as nat, width);
    let d = text::decimal(n as nat);
    text::lemma_decimal(n as nat);
    if d.len() < width {
        let zeros = Seq::new((width - d.len()) as nat, |i: int| '0');
        lemma_zeros_in_front(zeros, d);
        assert forall|i: int| 0 <= i < s.len() implies text::is_digit(#[trigger] s[i]) by {
            if i < zeros.len() {
                assert(s[i] == '0');
            } else {
                assert(s[i] == d[i - zeros.len()]);
            }
        }
    }
    assert(text::is_digit(s[0]));
    assert(text::unsigned_part(s) == s);
}

/// Zeros in front of digits change no value.
proof fn lemma_zeros_in_front(zeros: Seq<char>, d: Seq<char>)
    requires
        forall|i: int| 0 <= i < zeros.len() ==> zeros[i] == '0',
    ensures
        text::decimal_value(zeros + d) == text::decimal_value(d),
    decreases d.len(), zeros.len(),
{
    if d.len() > 0 {
        lemma_zeros_in_front(zeros, d.drop_last());
        assert((zeros + d).drop_last() =~= zeros + d.drop_last());
        assert((zeros + d).last() == d.last());
    } else if zeros.len() > 0 {
        let less = zeros.drop_last();
        lemma_zeros_in_front(less, d);
        assert(zeros + d =~= zeros);
        assert(less + d =~= less);
        assert(zeros.last() == '0');
    } else {
        assert(zeros + d =~= d);
    }
}

/// Whether a match leaves something of a name to be read.
pub open spec fn leaves_text(c: CapturedView) -> bool {
    tokens_of(c.before + seq![' ', PLACEHOLDER, ' '] + c.after).len() > 0
}

/// Whether the fields of an episode are of a season, where one is given, and
/// have exactly these episodes, where some are given.
pub open spec fn says(
    e: EpisodeFields,
    season: Option<u16>,
    episodes: Option<Seq<u16>>,
    ambiguous: bool,
) -> bool {
    &&& e.season.ok() == season
    &&& e.episodes.ok() == episodes
    &&& e.ambiguous == ambiguous
}

/// The season and the episodes are those of the marker.
proof fn lemma_says(filename: Seq<char>, opts: ParseOptions, m: MarkerView, c: CapturedView)
    requires
        marker_of(prescanned(filename), opts.min_year, opts.max_year) == Some(m),
        m.before == c.before,
        m.after == c.after,
        leaves_text(c),
    ensures
        says(
            episode_fields(filename, opts),
            m.marking.season,
            m.marking.episodes,
            m.marking.ambiguous,
        ),
{
    let name = masked(filename, Some(m));
    let claims = accepted(episode_candidates(tokens_of(name), normal_form(name), opts));
    lemma_claims_leave_marker_fields(EpisodeFields::blank(), claims);
}

/// Whether none of the forms that name several episodes of a season is found.
pub open spec fn names_no_several(t: Seq<char>) -> bool {
    &&& pattern::captures_of(CROSS_SEASON@, t) is None
    &&& pattern::captures_of(CONCATENATED@, t) is None
    &&& pattern::captures_of(DASH_CHAIN@, t) is None
    &&& pattern::captures_of(AMP_CHAIN@, t) is None
}

/// Whether no form with a season is found.
pub open spec fn names_no_season(t: Seq<char>) -> bool {
    &&& names_no_several(t)
    &&& pattern::captures_of(SINGLE@, t) is None
    &&& pattern::captures_of(CROSS_MULTI@, t) is None
    &&& pattern::captures_of(CROSS_SINGLE@, t) is None
}

/// A name whose marker is `S`, a season, `E` and an episode, as in `S02E05`, is
/// of that season and has that episode and no other. So is one whose marker is
/// a season, `x` and an episode, as in `2x05`.
pub proof fn law_single_marker_is_read(
    filename: Seq<char>,
    opts: ParseOptions,
    c: CapturedView,
    season: u16,
    episode: u16,
)
    requires
        names_no_several(prescanned(filename)),
        ({
            let t = prescanned(filename);
            ||| pattern::captures_of(SINGLE@, t) == Some(c)
            ||| pattern::captures_of(SINGLE@, t) is None && pattern::captures_of(CROSS_MULTI@, t)
                is None && pattern::captures_of(CROSS_SINGLE@, t) == Some(c)
        }),
        writes(c.group(1), season),
        writes(c.group(2), episode),
        leaves_text(c),
    ensures
        says(episode_fields(filename, opts), Some(season), Some(seq![episode]), false),
{
    let m = lemma_single_marker(filename, opts, c, season, episode);
    lemma_says(filename, opts, m, c);
}

/// The marker of a name that names one episode.
pub(crate) proof fn lemma_single_marker(
    filename: Seq<char>,
    opts: ParseOptions,
    c: CapturedView,
    season: u16,
    episode: u16,
) -> (m: MarkerView)
    requires
        names_no_several(prescanned(filename)),
        ({
            let t = prescanned(filename);
            ||| pattern::captures_of(SINGLE@, t) == Some(c)
            ||| pattern::captures_of(SINGLE@, t) is None && pattern::captures_of(CROSS_MULTI@, t)
                is None && pattern::captures_of(CROSS_SINGLE@, t) == Some(c)
        }),
        writes(c.group(1), season),
        writes(c.group(2), episode),
    ensures
        marker_of(prescanned(filename), opts.min_year, opts.max_year) == Some(m),
        m.before == c.before,
        m.after == c.after,
        m.marking.season == Some(season),
        m.marking.episodes == Some(seq![episode]),
        !m.marking.ambiguous,
        m.marking.special_phrase is None,
{
    law_written_number_is_read(c.group(1), season);
    law_written_number_is_read(c.group(2), episode);
    marker_of(prescanned(filename), opts.min_year, opts.max_year)->0
}

/// A name whose marker spans from one episode to another of the same season, as
/// in `S02E03-S02E06`, has every episode from the one to the other, in order,
/// and none besides. A range over two seasons gives neither a season nor an
/// episode.
pub proof fn law_range_marker_is_read(
    filename: Seq<char>,
    opts: ParseOptions,
    c: CapturedView,
    from: (u16, u16),
    to: (u16, u16),
)
    requires
        pattern::captures_of(CROSS_SEASON@, prescanned(filename)) == Some(c),
        writes(c.group(1), from.0),
        writes(c.group(2), from.1),
        writes(c.group(3), to.0),
        writes(c.group(4), to.1),
        leaves_text(c),
    ensures
        from.0 != to.0 ==> says(episode_fields(filename, opts), None, None, true),
        from.0 == to.0 && from.1 <= to.1 ==> is_range_of(
            episode_fields(filename, opts),
            Some(from.0),
            from.1,
            to.1,
        ),
{
    law_written_number_is_read(c.group(1), from.0);
    law_written_number_is_read(c.group(2), from.1);
    law_written_number_is_read(c.group(3), to.0);
    law_written_number_is_read(c.group(4), to.1);
    let m = marker_of(prescanned(filename), opts.min_year, opts.max_year);
    assert(m is Some);
    lemma_says(filename, opts, m->0, c);
}

/// Whether an episode has every number from one to another, in order, and none
/// besides.
pub open spec fn is_range_of(e: EpisodeFields, season: Option<u16>, from: u16, to: u16) -> bool {
    &&& e.season.ok() == season
    &&& !e.ambiguous
    &&& e.episodes.ok() matches Some(list) && list.len() == to - from + 1 && forall|i: int|
        0 <= i < list.len() ==> #[trigger] list[i] == from + i
}

/// A name without a season that spans from one episode to another, as in
/// `E03-E06`, has every episode from the one to the other; no season is
/// invented.
pub proof fn law_bare_range_is_read(
    filename: Seq<char>,
    opts: ParseOptions,
    c: CapturedView,
    from: u16,
    to: u16,
)
    requires
        names_no_season(prescanned(filename)),
        pattern::captures_of(BARE_RANGE@, prescanned(filename)) == Some(c),
        writes(c.group(1), from),
        writes(c.group(2), to),
        from <= to,
        leaves_text(c),
    ensures
        is_range_of(episode_fields(filename, opts), None, from, to),
{
    law_written_number_is_read(c.group(1), from);
    law_written_number_is_read(c.group(2), to);
    let m = marker_of(prescanned(filename), opts.min_year, opts.max_year);
    assert(m is Some);
    lemma_says(filename, opts, m->0, c);
}

/// Whether one group of successive matches writes numbers.
pub open spec fn all_write(list: Seq<Seq<Option<Seq<char>>>>, i: int, ns: Seq<u16>) -> bool {
    list.len() == ns.len() && forall|k: int|
        0 <= k < list.len() ==> #[trigger] writes(nth_group(list[k], i), ns[k])
}

/// The numbers that matches write are read, all of them and in their order.
proof fn lemma_numbers_in(list: Seq<Seq<Option<Seq<char>>>>, i: int, ns: Seq<u16>)
    requires
        all_write(list, i, ns),
    ensures
        numbers_in(list, i) == ns,
    decreases list.len(),
{
    if list.len() == 0 {
        assert(numbers_in(list, i) =~= ns);
    } else {
        let k = list.len() - 1;
        assert(writes(nth_group(list[k], i), ns[k]));
        law_written_number_is_read(nth_group(list[k], i), ns[k]);
        assert forall|j: int| 0 <= j < list.drop_last().len() implies #[trigger] writes(
            nth_group(list.drop_last()[j], i),
            ns.drop_last()[j],
        ) by {
            assert(writes(nth_group(list[j], i), ns[j]));
        }
        lemma_numbers_in(list.drop_last(), i, ns.drop_last());
        assert(numbers_in(list, i) =~= ns);
    }
}

/// A name whose marker is a season and several episodes, as in `S02E03E04`, is
/// of that season and has exactly these episodes, in their order.
pub proof fn law_concatenated_marker_is_read(
    filename: Seq<char>,
    opts: ParseOptions,
    c: CapturedView,
    lead: CapturedView,
    season: u16,
    episodes: Seq<u16>,
)
    requires
        pattern::captures_of(CROSS_SEASON@, prescanned(filename)) is None,
        pattern::captures_of(CONCATENATED@, prescanned(filename)) == Some(c),
        pattern::captures_of(LEADING_SEASON@, c.group(0)) == Some(lead),
        writes(lead.group(1), season),
        all_write(pattern::all_captures_of(EVERY_EPISODE@, c.group(0)), 1, episodes),
        episodes.len() > 0,
        leaves_text(c),
    ensures
        says(episode_fields(filename, opts), Some(season), Some(episodes), false),
{
    law_written_number_is_read(lead.group(1), season);
    lemma_numbers_in(pattern::all_captures_of(EVERY_EPISODE@, c.group(0)), 1, episodes);
    let m = marker_of(prescanned(filename), opts.min_year, opts.max_year);
    assert(m is Some);
    lemma_says(filename, opts, m->0, c);
}

/// A name whose marker is a season and an episode and more episodes behind
/// dashes, as in `S02E03-E04`, is of that season and has exactly these
/// episodes, in their order.
pub proof fn law_dashed_marker_is_read(
    filename: Seq<char>,
    opts: ParseOptions,
    c: CapturedView,
    lead: CapturedView,
    season: u16,
    first: u16,
    more: Seq<u16>,
)
    requires
        pattern::captures_of(CROSS_SEASON@, prescanned(filename)) is None,
        pattern::captures_of(CONCATENATED@, prescanned(filename)) is None,
        pattern::captures_of(DASH_CHAIN@, prescanned(filename)) == Some(c),
        pattern::captures_of(LEADING_EPISODE@, c.group(0)) == Some(lead),
        writes(lead.group(1), season),
        writes(lead.group(2), first),
        all_write(pattern::all_captures_of(EVERY_DASHED@, c.group(0)), 1, more),
        leaves_text(c),
    ensures
        says(episode_fields(filename, opts), Some(season), Some(seq![first] + more), false),
{
    law_written_number_is_read(lead.group(1), season);
    law_written_number_is_read(lead.group(2), first);
    lemma_numbers_in(pattern::all_captures_of(EVERY_DASHED@, c.group(0)), 1, more);
    let m = marker_of(prescanned(filename), opts.min_year, opts.max_year);
    assert(m is Some);
    lemma_says(filename, opts, m->0, c);
}

/// The pairs that matches write are read, all of them and in their order.
proof fn lemma_pairs_in(
    list: Seq<Seq<Option<Seq<char>>>>,
    seasons: Seq<u16>,
    episodes: Seq<u16>,
)
    requires
        all_write(list, 1, seasons),
        all_write(list, 2, episodes),
    ensures
        pairs_in(list).len() == list.len(),
        forall|k: int|
            0 <= k < list.len() ==> #[trigger] pairs_in(list)[k] == (seasons[k], episodes[k]),
    decreases list.len(),
{
    if list.len() > 0 {
        let n = list.len() - 1;
        assert(writes(nth_group(list[n], 1), seasons[n]));
        assert(writes(nth_group(list[n], 2), episodes[n]));
        law_written_number_is_read(nth_group(list[n], 1), seasons[n]);
        law_written_number_is_read(nth_group(list[n], 2), episodes[n]);
        let less = list.drop_last();
        assert forall|j: int| 0 <= j < less.len() implies #[trigger] writes(
            nth_group(less[j], 1),
            seasons.drop_last()[j],
        ) by {
            assert(writes(nth_group(list[j], 1), seasons[j]));
        }
        assert forall|j: int| 0 <= j < less.len() implies #[trigger] writes(
            nth_group(less[j], 2),
            episodes.drop_last()[j],
        ) by {
            assert(writes(nth_group(list[j], 2), episodes[j]));
        }
        lemma_pairs_in(less, seasons.drop_last(), episodes.drop_last());
        assert forall|k: int| 0 <= k < list.len() implies #[trigger] pairs_in(list)[k] == (
            seasons[k],
            episodes[k],
        ) by {
            if k < n {
                assert(pairs_in(less)[k] == (seasons.drop_last()[k], episodes.drop_last()[k]));
            }
        }
    }
}

/// A name whose marker is several episodes with ampersands between them, as in
/// `S02E03 & S02E04`, has exactly these episodes, in their order, where all are
/// of one season, and gives neither season nor episode where they are not.
pub proof fn law_ampersand_marker_is_read(
    filename: Seq<char>,
    opts: ParseOptions,
    c: CapturedView,
    seasons: Seq<u16>,
    episodes: Seq<u16>,
)
    requires
        pattern::captures_of(CROSS_SEASON@, prescanned(filename)) is None,
        pattern::captures_of(CONCATENATED@, prescanned(filename)) is None,
        pattern::captures_of(DASH_CHAIN@, prescanned(filename)) is None,
        pattern::captures_of(AMP_CHAIN@, prescanned(filename)) == Some(c),
        all_write(pattern::all_captures_of(EVERY_PAIR@, c.group(0)), 1, seasons),
        all_write(pattern::all_captures_of(EVERY_PAIR@, c.group(0)), 2, episodes),
        seasons.len() > 0,
        leaves_text(c),
    ensures
        (forall|k: int| 0 <= k < seasons.len() ==> #[trigger] seasons[k] == seasons[0]) ==> says(
            episode_fields(filename, opts),
            Some(seasons[0]),
            Some(episodes),
            false,
        ),
        (exists|k: int| 0 <= k < seasons.len() && #[trigger] seasons[k] != seasons[0]) ==> says(
            episode_fields(filename, opts),
            None,
            None,
            true,
        ),
{
    let every = pattern::all_captures_of(EVERY_PAIR@, c.group(0));
    lemma_pairs_in(every, seasons, episodes);
    let pairs = pairs_in(every);
    assert(pairs[0] == (seasons[0], episodes[0]));
    if exists|k: int| 0 <= k < seasons.len() && #[trigger] seasons[k] != seasons[0] {
        let k = choose|k: int| 0 <= k < seasons.len() && #[trigger] seasons[k] != seasons[0];
        assert(pairs[k].0 != pairs[0].0);
    } else {
        assert forall|k: int| 0 <= k < pairs.len() implies (#[trigger] pairs[k]).0
            == pairs[0].0 by {
            assert(seasons[k] == seasons[0]);
        }
        assert(crate::parse::tv::seconds(pairs) =~= episodes);
    }
    let m = marker_of(prescanned(filename), opts.min_year, opts.max_year);
    assert(m is Some);
    lemma_says(filename, opts, m->0, c);
}

/// A name whose marker is a numbered special, as in `Special 05`, is that
/// episode of season 0. One whose marker is a special without a number is of
/// season 0, and no episode is invented.
pub proof fn law_special_marker_is_read(
    filename: Seq<char>,
    opts: ParseOptions,
    c: CapturedView,
    episode: u16,
)
    requires
        names_no_season(prescanned(filename)),
        pattern::captures_of(BARE_RANGE@, prescanned(filename)) is None,
        ({
            let t = prescanned(filename);
            ||| pattern::captures_of(SPECIAL_NUMBERED@, t) == Some(c) && writes(c.group(2), episode)
            ||| pattern::captures_of(SPECIAL_NUMBERED@, t) is None && pattern::captures_of(
                SPECIAL_TITLED@,
                t,
            ) == Some(c)
        }),
        leaves_text(c),
    ensures
        pattern::captures_of(SPECIAL_NUMBERED@, prescanned(filename)) is Some ==> says(
            episode_fields(filename, opts),
            Some(0),
            Some(seq![episode]),
            false,
        ),
        pattern::captures_of(SPECIAL_NUMBERED@, prescanned(filename)) is None ==> says(
            episode_fields(filename, opts),
            Some(0),
            None,
            false,
        ),
{
    if pattern::captures_of(SPECIAL_NUMBERED@, prescanned(filename)) is Some {
        law_written_number_is_read(c.group(2), episode);
    }
    let m = marker_of(prescanned(filename), opts.min_year, opts.max_year);
    assert(m is Some);
    lemma_says(filename, opts, m->0, c);
}

/// A name that ends in a dash and a number that is no year, as in
/// `Show - 137`, has that episode of a season that is not told, and is marked
/// as ambiguous.
pub proof fn law_absolute_number_is_read(
    filename: Seq<char>,
    opts: ParseOptions,
    c: CapturedView,
    episode: u16,
)
    requires
        names_no_season(prescanned(filename)),
        pattern::captures_of(BARE_RANGE@, prescanned(filename)) is None,
        pattern::captures_of(SPECIAL_NUMBERED@, prescanned(filename)) is None,
        pattern::captures_of(SPECIAL_TITLED@, prescanned(filename)) is None,
        pattern::captures_of(ABSOLUTE@, stem_of(prescanned(filename))) is Some,
        absolute_match(prescanned(filename)) == Some(c),
        writes(c.group(1), episode),
        !(opts.min_year <= episode <= opts.max_year),
        leaves_text(c),
    ensures
        says(episode_fields(filename, opts), None, Some(seq![episode]), true),
        episode_fields(filename, opts).episodes matches
            crate::domain::provenance::FieldView::Known { confidence, .. } && confidence
            == Confidence::Low,
{
    law_written_number_is_read(c.group(1), episode);
    let m = marker_of(prescanned(filename), opts.min_year, opts.max_year);
    assert(m is Some);
    lemma_says(filename, opts, m->0, c);
}

/// A name in which no form of marker is found gives neither a season nor an
/// episode.
pub proof fn law_unmarked_name_says_nothing(filename: Seq<char>, opts: ParseOptions)
    requires
        names_no_season(prescanned(filename)),
        pattern::captures_of(BARE_RANGE@, prescanned(filename)) is None,
        pattern::captures_of(SPECIAL_NUMBERED@, prescanned(filename)) is None,
        pattern::captures_of(SPECIAL_TITLED@, prescanned(filename)) is None,
        pattern::captures_of(ABSOLUTE@, stem_of(prescanned(filename))) is None,
    ensures
        says(episode_fields(filename, opts), None, None, false),
{
    let name = masked(filename, None);
    let claims = accepted(episode_candidates(tokens_of(name), normal_form(name), opts));
    lemma_claims_leave_marker_fields(EpisodeFields::blank(), claims);
    assert(marker_of(prescanned(filename), opts.min_year, opts.max_year) is None);
}

/// Digits hold no cross.
proof fn lemma_number_has_no_cross(s: Seq<char>, n: u16)
    requires
        writes(s, n),
    ensures
        text::free_of(s, CharClass::In(seq!['x', 'X'])),
{
    law_written_number_is_read(s, n);
    let width = choose|width: nat| s == #[trigger] text::padded(n as nat, width);
    text::lemma_decimal(n as nat);
    let d = text::decimal(n as nat);
    assert forall|i: int| 0 <= i < s.len() implies !CharClass::In(seq!['x', 'X']).holds(
        #[trigger] s[i],
    ) by {
        let set = seq!['x', 'X'];
        let zeros = s.len() - d.len();
        if i >= zeros {
            assert(s[i] == d[i - zeros]);
            assert(text::is_digit(d[i - zeros]));
        } else {
            assert(s[i] == '0');
        }
        if set.contains(s[i]) {
            let j = choose|j: int| 0 <= j < set.len() && set[j] == s[i];
        }
    }
}

/// Texts that write numbers are read as these, all of them and in their order.
proof fn lemma_numbers_among(list: Seq<Seq<char>>, ns: Seq<u16>)
    requires
        list.len() == ns.len(),
        forall|k: int| 0 <= k < list.len() ==> writes(#[trigger] list[k], ns[k]),
    ensures
        numbers_among(list) == ns,
    decreases list.len(),
{
    if list.len() == 0 {
        assert(numbers_among(list) =~= ns);
    } else {
        let k = list.len() - 1;
        assert(writes(list[k], ns[k]));
        law_written_number_is_read(list[k], ns[k]);
        assert forall|j: int| 0 <= j < list.drop_last().len() implies writes(
            #[trigger] list.drop_last()[j],
            ns.drop_last()[j],
        ) by {
            assert(writes(list[j], ns[j]));
        }
        lemma_numbers_among(list.drop_last(), ns.drop_last());
        assert(numbers_among(list) =~= ns);
    }
}

/// A name whose marker is a season and several episodes with crosses between
/// them, as in `2x03x04`, is of that season and has exactly these episodes, in
/// their order.
pub proof fn law_crossed_marker_is_read(
    filename: Seq<char>,
    opts: ParseOptions,
    c: CapturedView,
    numbers: Seq<Seq<char>>,
    season: u16,
    episodes: Seq<u16>,
)
    requires
        names_no_several(prescanned(filename)),
        pattern::captures_of(SINGLE@, prescanned(filename)) is None,
        pattern::captures_of(CROSS_MULTI@, prescanned(filename)) == Some(c),
        c.group(0) == text::join(numbers, seq!['x']),
        numbers.len() == episodes.len() + 1,
        episodes.len() > 0,
        writes(numbers[0], season),
        forall|k: int|
            0 < k < numbers.len() ==> writes(#[trigger] numbers[k], episodes[k - 1]),
        leaves_text(c),
    ensures
        says(episode_fields(filename, opts), Some(season), Some(episodes), false),
{
    let cross = CharClass::In(seq!['x', 'X']);
    assert(seq!['x', 'X'][0] == 'x');
    assert(cross.holds('x'));
    assert forall|i: int| 0 <= i < numbers.len() implies text::free_of(
        #[trigger] numbers[i],
        cross,
    ) by {
        if i == 0 {
            lemma_number_has_no_cross(numbers[0], season);
        } else {
            lemma_number_has_no_cross(numbers[i], episodes[i - 1]);
        }
    }
    text::law_split_undoes_join(numbers, 'x', cross);
    law_written_number_is_read(numbers[0], season);
    let rest = numbers.skip(1);
    assert forall|k: int| 0 <= k < rest.len() implies writes(#[trigger] rest[k], episodes[k]) by {
        assert(rest[k] == numbers[k + 1]);
    }
    lemma_numbers_among(rest, episodes);
    let m = marker_of(prescanned(filename), opts.min_year, opts.max_year);
    assert(m is Some);
    lemma_says(filename, opts, m->0, c);
}

} // verus!
