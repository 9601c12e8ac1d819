//! Which words of a normalised name are claimed, and which are left for the
//! title.

use crate::parse::mask::{free, free_end, lemma_free_end, residual_from};
use crate::parse::movie::{
    found_from, last_year, listed_at, taken, title_of, year_at, year_fits, year_place,
    ParseOptions,
};
use crate::text;
use crate::text::CharClass;
use crate::unicode;
use vstd::prelude::*;

verus! {

/// Whether a word stands unclaimed at a place of a text, letter case aside, with
/// no letter or digit right before or behind it.
pub open spec fn stands_free(t: Seq<char>, mask: Seq<bool>, w: Seq<char>, i: int) -> bool {
    &&& 0 <= i
    &&& i + w.len() <= t.len()
    &&& text::ascii_lowercase(t.subrange(i, i + w.len())) == text::ascii_lowercase(w)
    &&& i > 0 ==> !unicode::char_is_alphanumeric(t[i - 1])
    &&& i + w.len() < t.len() ==> !unicode::char_is_alphanumeric(t[i + w.len()])
    &&& forall|j: int| i <= j < i + w.len() && j < mask.len() ==> !#[trigger] mask[j]
}

/// The first word of a list from one on.
proof fn lemma_listed(t: Seq<char>, mask: Seq<bool>, list: Seq<Seq<char>>, i: int, k: int)
    requires
        0 <= k,
    ensures
        match listed_at(t, mask, list, i, k) {
            Some(n) => k <= n < list.len() && stands_free(t, mask, list[n], i),
            None => forall|n: int|
                k <= n < list.len() ==> !stands_free(t, mask, #[trigger] list[n], i),
        },
    decreases list.len() - k,
{
    if k < list.len() {
        lemma_listed(t, mask, list, i, k + 1);
        let w = list[k];
        assert(free(mask, i, i + w.len()) || !stands_free(t, mask, w, i)) by {
            if stands_free(t, mask, w, i) {
                assert forall|j: int| i <= j < i + w.len() && 0 <= j < mask.len() implies
                    !#[trigger] mask[j] by {}
            }
        }
    }
}

/// The first place from one on.
proof fn lemma_found(t: Seq<char>, mask: Seq<bool>, list: Seq<Seq<char>>, i: int)
    requires
        0 <= i,
    ensures
        match found_from(t, mask, list, i) {
            Some((at, n)) => {
                &&& i <= at < t.len()
                &&& 0 <= n < list.len()
                &&& stands_free(t, mask, list[n], at)
                &&& forall|j: int, m: int|
                    i <= j < at && 0 <= m < list.len() ==> !#[trigger] stands_free(
                        t,
                        mask,
                        list[m],
                        j,
                    )
            },
            None => forall|j: int, m: int|
                i <= j < t.len() && 0 <= m < list.len() ==> !#[trigger] stands_free(
                    t,
                    mask,
                    list[m],
                    j,
                ),
        },
    decreases t.len() - i,
{
    if i < t.len() {
        lemma_listed(t, mask, list, i, 0);
        lemma_found(t, mask, list, i + 1);
    }
}

/// The word of a list that is taken is the first that stands unclaimed in the
/// text, whatever its case, and is claimed then with nothing besides; none is
/// taken, and nothing claimed, where none stands there.
pub proof fn law_first_free_word_is_taken(t: Seq<char>, mask: Seq<bool>, list: Seq<Seq<char>>)
    requires
        mask.len() == t.len(),
    ensures
        ({
            let (after, word) = taken(t, mask, list);
            word is Some ==> exists|i: int| #[trigger]
                takes_word(t, mask, after, list, word->0, i)
        }),
        taken(t, mask, list).1 is None ==> taken(t, mask, list).0 == mask && forall|
            j: int,
            m: int,
        |
            0 <= j < t.len() && 0 <= m < list.len() ==> !#[trigger] stands_free(
                t,
                mask,
                list[m],
                j,
            ),
{
    lemma_found(t, mask, list, 0);
    let found = found_from(t, mask, list, 0);
    if found is Some {
        let i = (found->0).0;
        let w = list[(found->0).1];
        let (after, word) = taken(t, mask, list);
        assert(list.contains(w));
        assert(word == Some(w));
        assert(claims_just(mask, after, i, i + w.len()));
        assert(takes_word(t, mask, after, list, word->0, i));
    }
}

/// Whether a word of a list stands unclaimed at a place, and none before it, and
/// has been claimed there.
pub open spec fn takes_word(
    t: Seq<char>,
    mask: Seq<bool>,
    after: Seq<bool>,
    list: Seq<Seq<char>>,
    w: Seq<char>,
    i: int,
) -> bool {
    &&& 0 <= i < t.len()
    &&& list.contains(w)
    &&& stands_free(t, mask, w, i)
    &&& claims_just(mask, after, i, i + w.len())
    &&& forall|j: int, m: int|
        0 <= j < i && 0 <= m < list.len() ==> !#[trigger] stands_free(t, mask, list[m], j)
}

/// Whether a range has been claimed, and nothing besides.
pub open spec fn claims_just(before: Seq<bool>, after: Seq<bool>, from: int, to: int) -> bool {
    after.len() == before.len() && forall|j: int|
        0 <= j < before.len() ==> #[trigger] after[j] == (before[j] || from <= j < to)
}

/// The last place of a year before one.
proof fn lemma_last_year(
    t: Seq<char>,
    mask: Seq<bool>,
    n: int,
    opts: ParseOptions,
    bracketed: bool,
)
    ensures
        match last_year(t, mask, n, opts, bracketed) {
            Some(i) => 0 <= i < n && year_fits(t, mask, i, opts, bracketed) && forall|j: int|
                i < j < n ==> !#[trigger] year_fits(t, mask, j, opts, bracketed),
            None => forall|j: int|
                0 <= j < n ==> !#[trigger] year_fits(t, mask, j, opts, bracketed),
        },
    decreases n,
{
    if n > 0 {
        lemma_last_year(t, mask, n - 1, opts, bracketed);
    }
}

/// The year is four digits that stand alone and unclaimed, within the years that
/// are looked for: the last such right behind an opening bracket, and without
/// one the last before which a letter or digit is left for the title.
pub proof fn law_year_stands_alone(t: Seq<char>, mask: Seq<bool>, opts: ParseOptions, i: int)
    requires
        year_place(t, mask, opts) == Some(i),
        mask.len() == t.len(),
    ensures
        0 <= i && i + 4 <= t.len(),
        text::all_digits(t.subrange(i, i + 4)),
        year_at(t, mask, i, opts) == text::number(t.subrange(i, i + 4)),
        year_at(t, mask, i, opts) matches Some(y) && opts.min_year <= y <= opts.max_year,
        i > 0 ==> !unicode::char_is_alphanumeric(t[i - 1]),
        i + 4 < t.len() ==> !unicode::char_is_alphanumeric(t[i + 4]),
        forall|j: int| i <= j < i + 4 ==> !#[trigger] mask[j],
        (i > 0 && (t[i - 1] == '(' || t[i - 1] == '[')) || exists|k: int|
            0 <= k < i && unicode::char_is_alphanumeric(#[trigger] t[k]) && !mask[k],
{
    lemma_last_year(t, mask, t.len() as int, opts, true);
    lemma_last_year(t, mask, t.len() as int, opts, false);
    assert forall|j: int| i <= j < i + 4 implies !#[trigger] mask[j] by {
        assert(free(mask, i, i + 4));
    }
}

/// Where a name begins with text that nothing claims, the title is that text up
/// to the first claim, without whitespace, dashes and colons at its ends.
pub proof fn law_title_is_the_text_before_the_first_claim(t: Seq<char>, mask: Seq<bool>, b: int)
    requires
        mask.len() == t.len(),
        0 < b <= t.len(),
        forall|j: int| 0 <= j < b ==> !#[trigger] mask[j],
        b < t.len() ==> mask[b],
        text::trim(t.take(b), CharClass::Space).len() > 0,
    ensures
        title_of(t, residual_from(mask, 0)) == text::trim(
            text::trim(t.take(b), CharClass::Space),
            CharClass::In(seq!['-', ' ', ':']),
        ),
{
    lemma_free_end(mask, 0);
    let end = free_end(mask, 0);
    assert(end == b) by {
        if end < b {
            assert(mask[end]);
        } else if end > b {
            assert(!mask[b]);
        }
    }
    let runs = residual_from(mask, 0);
    assert(runs[0] == (0int, b));
    assert(t.subrange(0, b) =~= t.take(b));
}

} // verus!
