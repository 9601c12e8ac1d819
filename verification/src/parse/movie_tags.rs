//! What the words of a normalised movie name come to be.

use crate::domain::provenance::{Confidence, FieldView};
use crate::parse::movie::{
    episode_marker, from_filename, group_at_end, in_bracket, language_words, mask_after_group,
    mask_after_marker, mask_after_year, movie_in, subtitle_flags, taken, year_at, year_place,
    MovieParseView, ParseOptions,
};
use crate::parse::movie_words::{
    law_first_free_word_is_taken, law_title_is_the_text_before_the_first_claim,
    law_year_stands_alone, stands_free, takes_word,
};
use crate::parse::vocab;
use crate::text;
use crate::text::CharClass;
use vstd::prelude::*;

verus! {

/// The words that the seven tags of a movie are looked for among: resolution,
/// source, video codec, audio format, HDR format, edition and language.
pub open spec fn words_for(rank: int) -> Seq<Seq<char>> {
    if rank == 0 {
        vocab::resolution_words()
    } else if rank == 1 {
        vocab::source_words()
    } else if rank == 2 {
        vocab::video_codec_words()
    } else if rank == 3 {
        vocab::audio_words()
    } else if rank == 4 {
        vocab::hdr_words()
    } else if rank == 5 {
        vocab::edition_words()
    } else {
        language_words()
    }
}

/// The seven tags of a movie, in the same order.
pub open spec fn tag(m: MovieParseView, rank: int) -> Option<Seq<char>> {
    if rank == 0 {
        m.resolution.ok()
    } else if rank == 1 {
        m.source.ok()
    } else if rank == 2 {
        m.video_codec.ok()
    } else if rank == 3 {
        m.audio_format.ok()
    } else if rank == 4 {
        m.hdr.ok()
    } else if rank == 5 {
        m.edition.ok()
    } else {
        m.language.ok()
    }
}

/// What is kept of a word: the code of a language, and the word itself of
/// everything else.
pub open spec fn kept(rank: int, w: Seq<char>) -> Seq<char> {
    if rank == 6 {
        vocab::language_code(text::ascii_lowercase(w))
    } else {
        w
    }
}

/// Whether a word stands by itself at a place of a text, letter case aside.
pub open spec fn stands(t: Seq<char>, w: Seq<char>, i: int) -> bool {
    0 <= i < t.len() && stands_free(t, Seq::empty(), w, i)
}

/// Whether a word of a list stands by itself somewhere in a text.
pub open spec fn has_word(t: Seq<char>, list: Seq<Seq<char>>) -> bool {
    exists|i: int, k: int| 0 <= k < list.len() && #[trigger] stands(t, list[k], i)
}

/// Whether a word is the first of a list that stands by itself in a text.
pub open spec fn is_first_word(t: Seq<char>, list: Seq<Seq<char>>, w: Seq<char>, i: int) -> bool {
    &&& list.contains(w)
    &&& stands(t, w, i)
    &&& forall|j: int, k: int| 0 <= j < i && 0 <= k < list.len() ==> !#[trigger] stands(t, list[k], j)
}

/// The seven masks, before and after each tag is looked for.
spec fn mask_before(t: Seq<char>, rank: int) -> Seq<bool>
    decreases rank,
{
    if rank <= 0 {
        mask_after_marker(t, taken(t, mask_after_group(t), subtitle_flags()).0)
    } else {
        taken(t, mask_before(t, rank - 1), words_for(rank - 1)).0
    }
}

/// Every tag is what is taken among its words.
proof fn lemma_tag(t: Seq<char>, opts: ParseOptions, rank: int)
    requires
        0 <= rank < 7,
    ensures
        tag(movie_in(t, opts), rank) == (match taken(t, mask_before(t, rank), words_for(rank)).1 {
            Some(w) => Some(kept(rank, w)),
            None => None,
        }),
{
    reveal_with_fuel(mask_before, 8);
}

/// Taking a word keeps the length of the mask.
proof fn lemma_taken_keeps_len(t: Seq<char>, mask: Seq<bool>, list: Seq<Seq<char>>)
    requires
        mask.len() == t.len(),
    ensures
        taken(t, mask, list).0.len() == t.len(),
{
    law_first_free_word_is_taken(t, mask, list);
}

/// The masks are as long as the text.
proof fn lemma_mask_len(t: Seq<char>, rank: int)
    ensures
        mask_before(t, rank).len() == t.len(),
    decreases rank,
{
    if rank <= 0 {
        lemma_taken_keeps_len(t, mask_after_group(t), subtitle_flags());
    } else {
        lemma_mask_len(t, rank - 1);
        lemma_taken_keeps_len(t, mask_before(t, rank - 1), words_for(rank - 1));
    }
}

/// A tag of a movie is a word of its own list that stands by itself in the name;
/// of a language the code is kept. So none comes to stand for another.
pub proof fn law_tag_is_a_word_of_its_list(t: Seq<char>, opts: ParseOptions, rank: int)
    requires
        0 <= rank < 7,
        tag(movie_in(t, opts), rank) is Some,
    ensures
        exists|w: Seq<char>, i: int|
            words_for(rank).contains(w) && #[trigger] stands(t, w, i) && tag(
                movie_in(t, opts),
                rank,
            ) == Some(kept(rank, w)),
{
    lemma_tag(t, opts, rank);
    lemma_mask_len(t, rank);
    let mask = mask_before(t, rank);
    let list = words_for(rank);
    law_first_free_word_is_taken(t, mask, list);
    let (after, word) = taken(t, mask, list);
    let i = choose|i: int| #[trigger] takes_word(t, mask, after, list, word->0, i);
    assert(stands(t, word->0, i));
}

/// Whether nothing of a name is claimed before the tags are looked for: it has
/// no release group, no episode marker and no subtitle flag.
pub open spec fn is_plain(t: Seq<char>) -> bool {
    &&& group_at_end(t) is None
    &&& episode_marker(t) is None
    &&& !has_word(t, subtitle_flags())
}

/// Nothing is taken where no word stands.
proof fn lemma_nothing_taken(t: Seq<char>, mask: Seq<bool>, list: Seq<Seq<char>>)
    requires
        mask.len() == t.len(),
        !has_word(t, list),
    ensures
        taken(t, mask, list) == (mask, None::<Seq<char>>),
{
    law_first_free_word_is_taken(t, mask, list);
    let (after, word) = taken(t, mask, list);
    if word is Some {
        let i = choose|i: int| #[trigger] takes_word(t, mask, after, list, word->0, i);
        let k = choose|k: int| 0 <= k < list.len() && list[k] == word->0;
        assert(stands(t, list[k], i));
    }
}

/// Nothing is claimed up to a tag where no word before it stands.
proof fn lemma_nothing_claimed(t: Seq<char>, rank: int, upto: int)
    requires
        is_plain(t),
        0 <= upto <= rank,
        forall|r: int| 0 <= r < rank ==> !has_word(t, #[trigger] words_for(r)),
    ensures
        mask_before(t, upto) == Seq::new(t.len(), |i: int| false),
    decreases upto,
{
    let none = Seq::new(t.len(), |i: int| false);
    if upto <= 0 {
        lemma_nothing_taken(t, none, subtitle_flags());
    } else {
        lemma_nothing_claimed(t, rank, upto - 1);
        assert(!has_word(t, words_for(upto - 1)));
        lemma_nothing_taken(t, none, words_for(upto - 1));
    }
}

/// A name in which nothing is claimed before a tag is looked for has the tag
/// that the first word of the tag's list gives, and no such tag where no word of
/// the list stands in the name.
pub proof fn law_first_word_gives_the_tag(t: Seq<char>, opts: ParseOptions, rank: int)
    requires
        0 <= rank < 7,
        is_plain(t),
        forall|r: int| 0 <= r < rank ==> !has_word(t, #[trigger] words_for(r)),
    ensures
        has_word(t, words_for(rank)) ==> exists|w: Seq<char>, i: int| #[trigger]
            is_first_word(t, words_for(rank), w, i) && tag(movie_in(t, opts), rank) == Some(
                kept(rank, w),
            ),
        !has_word(t, words_for(rank)) ==> tag(movie_in(t, opts), rank) is None,
{
    let none = Seq::new(t.len(), |i: int| false);
    let list = words_for(rank);
    lemma_tag(t, opts, rank);
    lemma_nothing_claimed(t, rank, rank);
    law_first_free_word_is_taken(t, none, list);
    let (after, word) = taken(t, none, list);
    if word is Some {
        let i = choose|i: int| #[trigger] takes_word(t, none, after, list, word->0, i);
        assert(stands(t, word->0, i));
        assert forall|j: int, k: int| 0 <= j < i && 0 <= k < list.len() implies !#[trigger] stands(
            t,
            list[k],
            j,
        ) by {
            assert(!stands_free(t, none, list[k], j));
        }
        assert(is_first_word(t, list, word->0, i));
        let k = choose|k: int| 0 <= k < list.len() && list[k] == word->0;
        assert(stands(t, list[k], i));
    } else if has_word(t, list) {
        let (i, k) = choose|i: int, k: int|
            0 <= k < list.len() && #[trigger] stands(t, list[k], i);
        assert(!stands_free(t, none, list[k], i));
    }
}

/// The year of a movie is four digits of the name, within the years that are
/// looked for. It is sure where it stands right behind an opening bracket, and
/// less so elsewhere.
pub proof fn law_year_is_one_in_the_name(t: Seq<char>, opts: ParseOptions)
    requires
        movie_in(t, opts).year.ok() is Some,
    ensures
        movie_in(t, opts).year matches FieldView::Known { value, confidence, .. } && opts.min_year
            <= value <= opts.max_year && exists|i: int|
            0 <= i && i + 4 <= t.len() && text::number(#[trigger] t.subrange(i, i + 4)) == Some(
                value,
            ) && (confidence == Confidence::High <==> i > 0 && (t[i - 1] == '(' || t[i - 1]
                == '[')),
{
    reveal_with_fuel(mask_before, 8);
    let mask = mask_before(t, 7);
    lemma_mask_len(t, 7);
    let i = year_place(t, mask, opts)->0;
    law_year_stands_alone(t, mask, opts, i);
    assert(movie_in(t, opts).year == from_filename(
        year_at(t, mask, i, opts),
        if in_bracket(t, i) {
            Confidence::High
        } else {
            Confidence::Medium
        },
    ));
    assert(text::number(t.subrange(i, i + 4)) == movie_in(t, opts).year.ok());
}

/// The release group of a movie is what the name ends with, in brackets or
/// behind a dash. It is sure in brackets and less so behind a dash.
pub proof fn law_group_ends_the_name(t: Seq<char>, opts: ParseOptions, group: Seq<char>)
    requires
        movie_in(t, opts).release_group.ok() == Some(group),
    ensures
        movie_in(t, opts).release_group matches FieldView::Known { confidence, .. } && exists|
            before: Seq<char>,
        |
            if confidence == Confidence::High {
                t == #[trigger] (before + seq!['[']) + group + seq![']']
            } else {
                t == before + seq!['-'] + group
            },
{
    let found = group_at_end(t)->0;
    let at = found.0;
    let before = t.take(at);
    if found.2 {
        text::lemma_last_where(t.drop_last(), CharClass::Is('['), true);
        assert(t.drop_last()[at] == t[at]);
        assert(t =~= before + seq!['['] + group + seq![']']);
    } else {
        text::lemma_last_where(t, CharClass::Is('-'), true);
        assert(t =~= before + seq!['-'] + group);
        assert((before + seq!['[']).len() > 0);
    }
}

/// Whether no word of a name is a tag.
pub open spec fn has_no_tag(t: Seq<char>) -> bool {
    is_plain(t) && forall|r: int| 0 <= r < 7 ==> !has_word(t, #[trigger] words_for(r))
}

/// A text without whitespace, dashes and colons at its ends.
pub open spec fn tidy(s: Seq<char>) -> Seq<char> {
    text::trim(text::trim(s, CharClass::Space), CharClass::In(seq!['-', ' ', ':']))
}

/// Where nothing else of a name is a tag, its title is what stands before the
/// year and the bracket that opens right before it, without whitespace, dashes
/// and colons at its ends; the year is the digits that stand there.
pub proof fn law_title_stands_before_the_year(t: Seq<char>, opts: ParseOptions, i: int)
    requires
        has_no_tag(t),
        year_place(t, Seq::new(t.len(), |j: int| false), opts) == Some(i),
        tidy(t.take(year_begins(t, i))).len() > 0,
    ensures
        movie_in(t, opts).title.ok() == Some(tidy(t.take(year_begins(t, i)))),
        movie_in(t, opts).year.ok() == text::number(t.subrange(i, i + 4)),
{
    reveal_with_fuel(mask_before, 8);
    let none = Seq::new(t.len(), |j: int| false);
    lemma_nothing_claimed(t, 7, 7);
    law_year_stands_alone(t, none, opts, i);
    let b = year_begins(t, i);
    let mask = mask_after_year(t, none, opts);
    let before = t.take(b);
    lemma_something_to_tidy(before);
    law_title_is_the_text_before_the_first_claim(t, mask, b);
}

/// Where a year begins, with the bracket that opens right before it.
pub open spec fn year_begins(t: Seq<char>, i: int) -> int {
    if i > 0 && (t[i - 1] == '(' || t[i - 1] == '[') {
        i - 1
    } else {
        i
    }
}

/// What is left of a text that is tidied was there before.
proof fn lemma_something_to_tidy(s: Seq<char>)
    requires
        tidy(s).len() > 0,
    ensures
        text::trim(s, CharClass::Space).len() > 0,
        s.len() > 0,
{
}

/// Where nothing of a name is a tag and it has no year, its title is all of it,
/// without whitespace, dashes and colons at its ends, and the year is unknown.
pub proof fn law_title_is_all_where_nothing_is_a_tag(t: Seq<char>, opts: ParseOptions)
    requires
        has_no_tag(t),
        year_place(t, Seq::new(t.len(), |j: int| false), opts) is None,
        tidy(t).len() > 0,
    ensures
        movie_in(t, opts).title.ok() == Some(tidy(t)),
        movie_in(t, opts).year.ok() is None,
{
    reveal_with_fuel(mask_before, 8);
    let none = Seq::new(t.len(), |j: int| false);
    lemma_nothing_claimed(t, 7, 7);
    lemma_something_to_tidy(t);
    assert(t.take(t.len() as int) =~= t);
    law_title_is_the_text_before_the_first_claim(t, none, t.len() as int);
}

} // verus!
