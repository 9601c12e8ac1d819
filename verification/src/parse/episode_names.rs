//! What the words of an episode's name are read as: the title of the show before
//! the marker, and the title of the episode behind it.

use crate::parse::extractors::{bracketed_year, ClaimView, ParseField};
use crate::parse::markers::{
    law_single_marker_is_read, leaves_text, lemma_single_marker, names_no_several, says,
    writes,
};
use crate::parse::model::{EpisodeFields, ParseOptions};
use crate::parse::parser::{accepted, first_start, phrase, texts_between};
use crate::parse::round_trip::{
    begins_plainly, ends_title, is_idle, is_letter, is_plain_title, is_plain_word, is_tag,
    is_tag_text, is_year, is_year_in_brackets, lemma_accepted_from, lemma_bare_year_behind,
    lemma_base_name, lemma_bracketed_year_behind, lemma_claimed, lemma_first_start,
    lemma_idle_is_no_year, lemma_none_accepted, lemma_only_bare_year, lemma_phrase, lemma_spells,
    lemma_vocab_claim_behind, lemma_vocabularies, spells,
};
use crate::parse::tokens::{
    bracketed_group, dashed_group, group_of, law_tokens_are_words, law_tokens_in_order, normal_form,
    separators, split_group, token_texts, tokens_from, tokens_of, TokenView,
};
use crate::parse::tv::{
    claims_from, episode_candidates, episode_fields, episode_from, episode_title_of,
    is_bare_separator, marker_of, masked, placeholder, placeholder_token, plain_words, prescanned,
    title_between, with_claims, MarkerView, MarkingView, PLACEHOLDER, SINGLE,
};
use crate::parse::vocab;
use crate::parse::words::{are_words, is_word, lemma_joined_words, lemma_one_more_word};
use crate::pattern;
use crate::pattern::CapturedView;
use crate::text;
use crate::text::CharClass;
use vstd::prelude::*;

verus! {

/// Whether a text is a dash.
pub open spec fn is_dash(w: Seq<char>) -> bool {
    w == seq!['-']
}

/// Whether texts are plain words without a meaning of their own, and dashes.
pub open spec fn are_words_and_dashes(list: Seq<Seq<char>>) -> bool {
    forall|i: int|
        0 <= i < list.len() ==> is_dash(#[trigger] list[i]) || (is_plain_word(list[i])
            && !vocab::is_reserved(list[i]))
}

/// Texts without the dashes among them.
pub open spec fn undashed(list: Seq<Seq<char>>) -> Seq<Seq<char>> {
    list.filter(|w: Seq<char>| !is_dash(w))
}

/// The words of a title are all but the dashes.
proof fn lemma_plain_words(list: Seq<Seq<char>>)
    requires
        are_words_and_dashes(list),
    ensures
        plain_words(list) == undashed(list),
        forall|i: int|
            0 <= i < undashed(list).len() ==> is_plain_word(#[trigger] undashed(list)[i])
                && !vocab::is_reserved(undashed(list)[i]),
    decreases list.len(),
{
    let keep = |w: Seq<char>| !is_dash(w);
    reveal(Seq::filter);
    if list.len() > 0 {
        let less = list.drop_last();
        let w = list.last();
        assert(w == list[list.len() - 1]);
        assert forall|i: int| 0 <= i < less.len() implies is_dash(#[trigger] less[i]) || (
        is_plain_word(less[i]) && !vocab::is_reserved(less[i])) by {
            assert(less[i] == list[i]);
        }
        lemma_plain_words(less);
        text::lemma_first_where(w, CharClass::Is('-'), false);
        if is_dash(w) {
            assert(w[0] == '-');
            assert(is_bare_separator(w));
        } else {
            assert(is_letter(w[0]));
            assert(w != placeholder()) by {
                assert(placeholder()[0] == PLACEHOLDER);
            }
            assert(!is_bare_separator(w)) by {
                assert(text::first_where(w, CharClass::Is('-'), false) == 0);
            }
        }
    }
}

/// The texts of the tokens between two places are those of the tokens from one
/// to another.
proof fn lemma_texts_in(tokens: Seq<TokenView>, a: int, b: int, from: nat, to: nat)
    requires
        0 <= a <= b <= tokens.len(),
        forall|i: int| 0 <= i < a ==> (#[trigger] tokens[i]).start < from,
        forall|i: int|
            a <= i < b ==> from <= (#[trigger] tokens[i]).start && tokens[i].end <= to,
        forall|i: int| b <= i < tokens.len() ==> to < (#[trigger] tokens[i]).end,
    ensures
        texts_between(tokens, from, to) == token_texts(tokens.subrange(a, b)),
    decreases tokens.len(),
{
    if tokens.len() == 0 {
        assert(token_texts(tokens.subrange(a, b)) =~= Seq::empty());
    } else {
        let head = tokens.drop_last();
        let n = tokens.len() - 1;
        assert(tokens.last() == tokens[n]);
        let c = if a <= n {
            a
        } else {
            n
        };
        let d = if b <= n {
            b
        } else {
            n
        };
        assert forall|i: int| 0 <= i < c implies (#[trigger] head[i]).start < from by {
            assert(head[i] == tokens[i]);
        }
        assert forall|i: int| c <= i < d implies from <= (#[trigger] head[i]).start && head[i].end
            <= to by {
            assert(head[i] == tokens[i]);
        }
        assert forall|i: int| d <= i < head.len() implies to < (#[trigger] head[i]).end by {
            assert(head[i] == tokens[i]);
        }
        lemma_texts_in(head, c, d, from, to);
        if a <= n && b == n + 1 {
            assert(token_texts(tokens.subrange(a, b)) =~= token_texts(head.subrange(c, d)).push(
                tokens[n].text,
            ));
        } else {
            assert(tokens.subrange(a, b) =~= head.subrange(c, d));
        }
    }
}

/// The placeholder is the first token that is one.
proof fn lemma_placeholder_token(tokens: Seq<TokenView>, k: int)
    requires
        0 <= k < tokens.len(),
        tokens[k].text == placeholder(),
        forall|i: int| 0 <= i < k ==> (#[trigger] tokens[i]).text != placeholder(),
    ensures
        placeholder_token(tokens) == Some(tokens[k]),
    decreases tokens.len(),
{
    if k > 0 {
        assert(tokens[0].text != placeholder());
        let rest = tokens.skip(1);
        assert(rest[k - 1] == tokens[k]);
        assert forall|i: int| 0 <= i < k - 1 implies (#[trigger] rest[i]).text != placeholder() by {
            assert(rest[i] == tokens[i + 1]);
        }
        lemma_placeholder_token(rest, k - 1);
    }
}

/// All claims start at or after a place before all of them.
proof fn lemma_claims_from(claims: Seq<ClaimView>, from: nat)
    requires
        forall|i: int| 0 <= i < claims.len() ==> from <= (#[trigger] claims[i]).start,
    ensures
        claims_from(claims, from) == claims,
    decreases claims.len(),
{
    if claims.len() == 0 {
        assert(claims_from(claims, from) =~= claims);
    } else {
        let head = claims.drop_last();
        assert(claims.last() == claims[claims.len() - 1]);
        assert forall|i: int| 0 <= i < head.len() implies from <= (#[trigger] head[i]).start by {
            assert(head[i] == claims[i]);
        }
        lemma_claims_from(head, from);
        assert(claims_from(claims, from) =~= claims);
    }
}

/// The claims of an episode's name stand at or behind the first tag, and one of
/// them begins before its end; without a tag there are none.
proof fn lemma_claims_behind(
    tokens: Seq<TokenView>,
    n: int,
    normalised: Seq<char>,
    opts: ParseOptions,
)
    requires
        begins_plainly(tokens, n),
        0 < n,
        forall|i: int| 0 <= i < tokens.len() ==> (#[trigger] tokens[i]).start < tokens[i].end
            && tokens[i].text.len() > 0,
        forall|i: int, j: int|
            0 <= i < j < tokens.len() ==> (#[trigger] tokens[i]).end <= (
            #[trigger] tokens[j]).start,
        n < tokens.len() ==> ends_title(token_texts(tokens.skip(n)), opts),
    ensures
        ({
            let claims = accepted(episode_candidates(tokens, normalised, opts));
            &&& n == tokens.len() ==> claims.len() == 0
            &&& n < tokens.len() ==> (exists|i: int|
                0 <= i < claims.len() && (#[trigger] claims[i]).start < tokens[n].end)
            &&& forall|i: int|
                0 <= i < claims.len() ==> tokens[n - 1].end <= (#[trigger] claims[i]).start
        }),
{
    let cands = episode_candidates(tokens, normalised, opts);
    lemma_vocabularies();
    lemma_vocab_claim_behind(ParseField::Resolution, vocab::resolution_words(), tokens, n);
    lemma_vocab_claim_behind(ParseField::Source, vocab::source_words(), tokens, n);
    lemma_vocab_claim_behind(ParseField::VideoCodec, vocab::video_codec_words(), tokens, n);
    lemma_vocab_claim_behind(ParseField::AudioFormat, vocab::audio_words(), tokens, n);
    lemma_vocab_claim_behind(ParseField::Hdr, vocab::hdr_words(), tokens, n);
    lemma_bracketed_year_behind(tokens, n, opts);
    lemma_bare_year_behind(tokens, n, tokens.len() as int, opts);
    assert(tokens.last() == tokens[tokens.len() - 1]);
    if n == tokens.len() {
        assert(is_idle(tokens[n - 1].text));
        lemma_idle_is_no_year(tokens[n - 1].text, opts.min_year, opts.max_year);
        lemma_none_accepted(cands);
    } else {
        let from = tokens[n - 1].end;
        assert(forall|i: int| 0 <= i < cands.len() ==> (#[trigger] cands[i] matches Some(c)
            ==> from <= c.start));
        lemma_accepted_from(cands, from);
        let tags = token_texts(tokens.skip(n));
        let tag = tokens[n].text;
        assert(tags[0] == tag);
        lemma_spells(vocab::resolution_words(), tag);
        lemma_spells(vocab::source_words(), tag);
        lemma_spells(vocab::video_codec_words(), tag);
        lemma_spells(vocab::audio_words(), tag);
        lemma_spells(vocab::hdr_words(), tag);
        let k: int = if spells(vocab::resolution_words(), tag) {
            0
        } else if spells(vocab::source_words(), tag) {
            1
        } else if spells(vocab::video_codec_words(), tag) {
            2
        } else if spells(vocab::audio_words(), tag) {
            3
        } else if spells(vocab::hdr_words(), tag) {
            4
        } else {
            5
        };
        if !is_tag(tag) && !is_year_in_brackets(tag, opts) {
            assert forall|j: int| n < j < tokens.len() implies !is_year(
                (#[trigger] tokens[j]).text,
                opts,
            ) && !is_year_in_brackets(tokens[j].text, opts) by {
                assert(tags[j - n] == tokens[j].text);
            }
            assert(bracketed_year(tokens, opts.min_year, opts.max_year) is None);
            lemma_only_bare_year(tokens, n, tokens.len() as int, opts);
        }
        assert(cands[k] is Some && cands[k]->0.end == tokens[n].end && cands[k]->0.start
            == tokens[n].start);
        lemma_claimed(cands, k);
    }
}

/// The words of an episode's name are its titles: those before the marker, with
/// single spaces between them, are the title of the show, and those between the
/// marker and the first tag the title of the episode, where there are any and
/// the marker is no title itself. Dashes are no words, and tags are none,
/// however many there are.
pub proof fn law_words_around_the_marker_are_the_titles(
    filename: Seq<char>,
    opts: ParseOptions,
    m: MarkerView,
    before: Seq<Seq<char>>,
    after: Seq<Seq<char>>,
    tags: Seq<Seq<char>>,
)
    requires
        marker_of(prescanned(filename), opts.min_year, opts.max_year) == Some(m),
        token_texts(tokens_of(m.before + seq![' ', PLACEHOLDER, ' '] + m.after)) == before
            + seq![seq![PLACEHOLDER]] + after + tags,
        are_words_and_dashes(before),
        are_words_and_dashes(after),
        tags.len() > 0 ==> ends_title(tags, opts),
        undashed(before).len() > 0,
    ensures
        episode_fields(filename, opts).title.ok() == Some(text::join(undashed(before), seq![' '])),
        m.marking.special_phrase is None ==> episode_fields(filename, opts).episode_title.ok() == (
        if undashed(after).len() > 0 {
            Some(text::join(undashed(after), seq![' ']))
        } else {
            None
        }),
        m.marking.special_phrase matches Some(p) ==> episode_fields(
            filename,
            opts,
        ).episode_title.ok() == Some(p),
{
    let name = masked(filename, Some(m));
    let tokens = tokens_of(name);
    let normalised = normal_form(name);
    let claims = accepted(episode_candidates(tokens, normalised, opts));
    assert(token_texts(tokens).len() == tokens.len());
    law_tokens_in_order(normalised, 0);
    assert(tokens == tokens_from(normalised, 0));
    let length = text::utf8_len(normalised);
    lemma_titles_of_tokens(tokens, normalised, opts, m.marking, before, after, tags);
    lemma_claims_leave_titles(EpisodeFields::blank(), claims);
    assert(episode_fields(filename, opts) == episode_from(
        tokens,
        length,
        claims,
        Some(m.marking),
        group_of(name),
    ));
}

/// The titles that tokens give.
proof fn lemma_titles_of_tokens(
    tokens: Seq<TokenView>,
    normalised: Seq<char>,
    opts: ParseOptions,
    marking: MarkingView,
    before: Seq<Seq<char>>,
    after: Seq<Seq<char>>,
    tags: Seq<Seq<char>>,
)
    requires
        token_texts(tokens) == before + seq![seq![PLACEHOLDER]] + after + tags,
        forall|i: int| 0 <= i < tokens.len() ==> (#[trigger] tokens[i]).start < tokens[i].end
            && tokens[i].end <= text::utf8_len(normalised) && tokens[i].text.len() > 0,
        forall|i: int, j: int|
            0 <= i < j < tokens.len() ==> (#[trigger] tokens[i]).end <= (
            #[trigger] tokens[j]).start,
        are_words_and_dashes(before),
        are_words_and_dashes(after),
        tags.len() > 0 ==> ends_title(tags, opts),
        undashed(before).len() > 0,
    ensures
        ({
            let claims = accepted(episode_candidates(tokens, normalised, opts));
            &&& placeholder_token(tokens) matches Some(ph) && title_between(
                tokens,
                0,
                first_start(claims, ph.start),
            ) == text::join(undashed(before), seq![' '])
            &&& text::join(undashed(before), seq![' ']).len() > 0
            &&& marking.special_phrase is None ==> episode_title_of(
                tokens,
                text::utf8_len(normalised),
                claims,
                marking,
            ) == (if undashed(after).len() > 0 {
                Some(text::join(undashed(after), seq![' ']))
            } else {
                None
            })
        }),
{
    let all = before + seq![seq![PLACEHOLDER]] + after + tags;
    let k = before.len() as int;
    let n = k + 1 + after.len();
    assert(token_texts(tokens).len() == tokens.len());
    assert forall|i: int| 0 <= i < tokens.len() implies (#[trigger] tokens[i]).text == all[i] by {
        assert(token_texts(tokens)[i] == tokens[i].text);
    }
    assert forall|i: int| 0 <= i < n implies is_idle((#[trigger] tokens[i]).text) by {
        if i < k {
            assert(all[i] == before[i]);
        } else if i > k {
            assert(all[i] == after[i - k - 1]);
        }
    }
    assert(token_texts(tokens.skip(n)) =~= tags);
    lemma_claims_behind(tokens, n, normalised, opts);
    let claims = accepted(episode_candidates(tokens, normalised, opts));
    let length = text::utf8_len(normalised);
    assert(tokens[k].text =~= placeholder());
    assert forall|i: int| 0 <= i < k implies (#[trigger] tokens[i]).text != placeholder() by {
        assert(all[i] == before[i]);
        if !is_dash(before[i]) {
            assert(is_letter(before[i][0]));
        }
        assert(before[i][0] != placeholder()[0]);
    }
    lemma_placeholder_token(tokens, k);
    lemma_title_words(tokens, k, claims, before);
    assert forall|i: int| 0 <= i < after.len() implies (#[trigger] tokens[k + 1 + i]).text
        == after[i] by {
        assert(all[k + 1 + i] == after[i]);
    }
    lemma_words_behind(tokens, k, n, claims, length, after);
}

/// The title of an episode is the words between the placeholder and the first
/// claim.
proof fn lemma_words_behind(
    tokens: Seq<TokenView>,
    k: int,
    n: int,
    claims: Seq<ClaimView>,
    length: nat,
    after: Seq<Seq<char>>,
)
    requires
        0 <= k < n <= tokens.len(),
        n == k + 1 + after.len(),
        forall|i: int| 0 <= i < after.len() ==> (#[trigger] tokens[k + 1 + i]).text == after[i],
        forall|i: int| 0 <= i < tokens.len() ==> (#[trigger] tokens[i]).start < tokens[i].end
            && tokens[i].end <= length,
        forall|i: int, j: int|
            0 <= i < j < tokens.len() ==> (#[trigger] tokens[i]).end <= (
            #[trigger] tokens[j]).start,
        n == tokens.len() ==> claims.len() == 0,
        n < tokens.len() ==> (exists|i: int|
            0 <= i < claims.len() && (#[trigger] claims[i]).start < tokens[n].end),
        forall|i: int| 0 <= i < claims.len() ==> tokens[n - 1].end <= (#[trigger] claims[i]).start,
        are_words_and_dashes(after),
    ensures
        ({
            let from = tokens[k].end;
            let title = title_between(
                tokens,
                from,
                first_start(claims_from(claims, from), length),
            );
            &&& title.len() > 0 <==> undashed(after).len() > 0
            &&& title.len() > 0 ==> title == text::join(undashed(after), seq![' '])
        }),
{
    let from = tokens[k].end;
    let end = first_start(claims, length);
    lemma_plain_words(after);
    assert(tokens[k].end <= tokens[n - 1].end);
    lemma_claims_from(claims, from);
    lemma_first_start(claims, length, tokens[n - 1].end);
    if n < tokens.len() {
        let i = choose|i: int| 0 <= i < claims.len() && (#[trigger] claims[i]).start
            < tokens[n].end;
        assert(end <= claims[i].start);
        assert forall|j: int| n <= j < tokens.len() implies end < (#[trigger] tokens[j]).end by {
            if j > n {
                assert(tokens[n].end <= tokens[j].start);
            }
        }
    }
    assert forall|j: int| k + 1 <= j < n implies from <= (#[trigger] tokens[j]).start
        && tokens[j].end <= end by {
        assert(tokens[k].end <= tokens[j].start);
        if j < n - 1 {
            assert(tokens[j].end <= tokens[n - 1].start);
        }
    }
    assert forall|j: int| 0 <= j < k + 1 implies (#[trigger] tokens[j]).start < from by {
        if j < k {
            assert(tokens[j].end <= tokens[k].start);
        }
    }
    lemma_texts_in(tokens, k + 1, n, from, end);
    assert(token_texts(tokens.subrange(k + 1, n)) =~= after) by {
        assert forall|i: int| 0 <= i < after.len() implies token_texts(
            tokens.subrange(k + 1, n),
        )[i] == after[i] by {
            assert(tokens[k + 1 + i].text == after[i]);
        }
    }
    if undashed(after).len() > 0 {
        lemma_phrase(undashed(after));
    } else {
        lemma_empty_phrase(undashed(after));
    }
}

/// No words make no phrase.
proof fn lemma_empty_phrase(ws: Seq<Seq<char>>)
    requires
        ws.len() == 0,
    ensures
        phrase(ws).len() == 0,
{
    let s = text::join(ws, seq![' ']);
    assert(s =~= Seq::empty());
    let a = text::trim_start(s, CharClass::Space);
    text::lemma_first_where(s, CharClass::Space, false);
    text::lemma_last_where(a, CharClass::Space, false);
}

/// Claims write no title.
proof fn lemma_claims_leave_titles(e: EpisodeFields, claims: Seq<ClaimView>)
    ensures
        with_claims(e, claims).title == e.title,
        with_claims(e, claims).episode_title == e.episode_title,
    decreases claims.len(),
{
    if claims.len() > 0 {
        lemma_claims_leave_titles(e, claims.drop_last());
    }
}

/// The title of the show is the words before the placeholder.
proof fn lemma_title_words(
    tokens: Seq<TokenView>,
    k: int,
    claims: Seq<ClaimView>,
    before: Seq<Seq<char>>,
)
    requires
        0 <= k < tokens.len(),
        k == before.len(),
        forall|i: int| 0 <= i < k ==> (#[trigger] tokens[i]).text == before[i],
        forall|i: int| 0 <= i < tokens.len() ==> (#[trigger] tokens[i]).start < tokens[i].end,
        forall|i: int, j: int|
            0 <= i < j < tokens.len() ==> (#[trigger] tokens[i]).end <= (
            #[trigger] tokens[j]).start,
        forall|i: int| 0 <= i < claims.len() ==> tokens[k].start <= (#[trigger] claims[i]).start,
        are_words_and_dashes(before),
        undashed(before).len() > 0,
    ensures
        title_between(tokens, 0, first_start(claims, tokens[k].start)) == text::join(
            undashed(before),
            seq![' '],
        ),
        text::join(undashed(before), seq![' ']).len() > 0,
{
    let to = tokens[k].start;
    lemma_first_start(claims, to, to);
    lemma_first_start_at_most(claims, to);
    lemma_texts_in(tokens, 0, k, 0, to);
    assert(token_texts(tokens.subrange(0, k)) =~= before);
    lemma_plain_words(before);
    lemma_phrase(undashed(before));
}

/// The earliest start is no later than what stands for none.
proof fn lemma_first_start_at_most(claims: Seq<ClaimView>, otherwise: nat)
    ensures
        first_start(claims, otherwise) <= otherwise,
    decreases claims.len(),
{
    if claims.len() > 0 {
        lemma_first_start_at_most(claims.drop_last(), otherwise);
    }
}

/// Whether texts can stand between spaces in a name: letters, digits and round
/// brackets, or a dash.
pub open spec fn are_name_texts(list: Seq<Seq<char>>) -> bool {
    forall|i: int| 0 <= i < list.len() ==> is_dash(#[trigger] list[i]) || is_tag_text(list[i])
}

/// Words behind a text, each after a space.
pub open spec fn followed_by(s: Seq<char>, list: Seq<Seq<char>>) -> Seq<char> {
    if list.len() == 0 {
        s
    } else {
        s + seq![' '] + text::join(list, seq![' '])
    }
}

/// A space at the end of a text makes no word.
proof fn lemma_trailing_space(s: Seq<char>)
    ensures
        text::words(s + seq![' ']) == text::words(s),
    decreases s.len(),
{
    let t = s + seq![' '];
    text::lemma_first_where(s, CharClass::Space, true);
    text::lemma_first_where(t, CharClass::Space, true);
    let n = text::first_where(s, CharClass::Space, true);
    if s.len() == 0 {
        assert(t[0] == ' ');
        assert(t.skip(1) =~= Seq::empty());
        assert(text::words(t.skip(1)) =~= Seq::empty());
        assert(text::words(t) =~= text::words(s));
    } else if n == 0 {
        assert(t[0] == s[0]);
        assert(t.skip(1) =~= s.skip(1) + seq![' ']);
        lemma_trailing_space(s.skip(1));
    } else {
        assert(CharClass::Space.holds(t[n])) by {
            if n == s.len() {
                assert(t[n] == ' ');
            } else {
                assert(t[n] == s[n]);
            }
        }
        assert forall|j: int| 0 <= j < n implies !CharClass::Space.holds(#[trigger] t[j]) by {
            assert(t[j] == s[j]);
        }
        text::lemma_first_where_is(t, CharClass::Space, true, n);
        assert(t.take(n) =~= s.take(n));
        assert(t.skip(n) =~= s.skip(n) + seq![' ']);
        lemma_trailing_space(s.skip(n));
    }
}

/// Texts of a name are words.
proof fn lemma_name_texts_are_words(list: Seq<Seq<char>>)
    requires
        are_name_texts(list),
    ensures
        are_words(list),
{
    assert forall|i: int| 0 <= i < list.len() implies is_word(#[trigger] list[i]) by {
        let w = list[i];
        assert(is_dash(w) || is_tag_text(w));
        if !is_dash(w) {
            assert forall|j: int| 0 <= j < w.len() implies !crate::parse::words::blank(
                #[trigger] w[j],
            ) by {
                assert(is_tag_text(w));
            }
        }
    }
}

/// The words of a text and words behind it.
proof fn lemma_words_followed(s: Seq<char>, list: Seq<Seq<char>>)
    requires
        are_name_texts(list),
    ensures
        text::words(followed_by(s, list)) == text::words(s) + list,
    decreases list.len(),
{
    lemma_name_texts_are_words(list);
    if list.len() == 0 {
        assert(text::words(s) + list =~= text::words(s));
    } else {
        let w = list[list.len() - 1];
        assert(is_word(w));
        if list.len() == 1 {
            lemma_one_more_word(s, w);
            assert(text::words(s) + list =~= text::words(s).push(w));
        } else {
            let less = list.drop_last();
            assert(are_name_texts(less)) by {
                assert forall|i: int| 0 <= i < less.len() implies is_dash(#[trigger] less[i])
                    || is_tag_text(less[i]) by {
                    assert(less[i] == list[i]);
                }
            }
            lemma_words_followed(s, less);
            assert(followed_by(s, list) =~= followed_by(s, less) + seq![' '] + w);
            lemma_one_more_word(followed_by(s, less), w);
            assert(text::words(s) + list =~= (text::words(s) + less).push(w));
        }
    }
}

/// Whether a character can stand in the words of a name, or between them.
spec fn is_name_text_char(c: char) -> bool {
    is_letter(c) || text::is_digit(c) || c == '(' || c == ')' || c == '-' || c == ' ' || c
        == PLACEHOLDER
}

/// The characters of joined texts of a name; a dash is the last one or has a
/// space behind it.
proof fn lemma_name_text_chars(list: Seq<Seq<char>>)
    requires
        are_name_texts(list),
    ensures
        ({
            let s = text::join(list, seq![' ']);
            &&& forall|k: int| 0 <= k < s.len() ==> is_name_text_char(#[trigger] s[k])
            &&& forall|k: int|
                0 <= k < s.len() - 1 && #[trigger] s[k] == '-' ==> s[k + 1] == ' '
        }),
    decreases list.len(),
{
    let s = text::join(list, seq![' ']);
    if list.len() > 0 {
        let w = list[list.len() - 1];
        assert(is_dash(w) || is_tag_text(w));
        if list.len() > 1 {
            let less = list.drop_last();
            assert(are_name_texts(less)) by {
                assert forall|i: int| 0 <= i < less.len() implies is_dash(#[trigger] less[i])
                    || is_tag_text(less[i]) by {
                    assert(less[i] == list[i]);
                }
            }
            lemma_name_text_chars(less);
            let x = text::join(less, seq![' ']);
            let n = x.len() as int;
            assert(s == x + seq![' '] + w);
            assert forall|k: int| 0 <= k < s.len() implies is_name_text_char(#[trigger] s[k]) by {
                if k < n {
                    assert(s[k] == x[k]);
                } else if k > n {
                    assert(s[k] == w[k - n - 1]);
                }
            }
            assert forall|k: int| 0 <= k < s.len() - 1 && #[trigger] s[k] == '-' implies s[k + 1]
                == ' ' by {
                if k < n - 1 {
                    assert(s[k] == x[k]);
                    assert(s[k + 1] == x[k + 1]);
                } else if k == n - 1 {
                    assert(s[n] == ' ');
                } else if k > n {
                    assert(s[k] == w[k - n - 1]);
                }
            }
        }
    }
}

/// The tokens of a name whose marker is masked are the words before it, the
/// placeholder and the words behind it.
proof fn lemma_masked_tokens(before: Seq<Seq<char>>, rest: Seq<Seq<char>>, ext: Seq<char>)
    requires
        are_name_texts(before),
        are_name_texts(rest),
        before.len() > 0,
        !ext.contains('.'),
    ensures
        ({
            let head = text::join(before, seq![' ']) + seq![' '];
            let tail = followed_by(Seq::empty(), rest) + seq!['.'] + ext;
            token_texts(tokens_of(head + seq![' ', PLACEHOLDER, ' '] + tail)) == before
                + seq![seq![PLACEHOLDER]] + rest
        }),
{
    let x = text::join(before, seq![' ']);
    let y = text::join(rest, seq![' ']);
    let head = x + seq![' '];
    let tail = followed_by(Seq::empty(), rest) + seq!['.'] + ext;
    let name = head + seq![' ', PLACEHOLDER, ' '] + tail;
    let lead = head + seq![' '] + seq![PLACEHOLDER] + seq![' '];
    let base = followed_by(lead, rest);
    assert(name =~= base + seq!['.'] + ext);
    lemma_base_name(base, ext);
    lemma_name_text_chars(before);
    lemma_name_text_chars(rest);
    let a = x.len() as int;
    let b = lead.len() as int;
    assert(lead.len() == a + 4);
    assert forall|k: int| 0 <= k < base.len() implies is_name_text_char(#[trigger] base[k]) by {
        if k < a {
            assert(base[k] == x[k]);
        } else if k < b {
            assert(base[k] == lead[k]);
        } else if k > b {
            assert(base[k] == y[k - b - 1]);
        }
    }
    assert forall|k: int| 0 <= k < base.len() - 1 && #[trigger] base[k] == '-' implies base[k + 1]
        == ' ' by {
        if k < a - 1 {
            assert(base[k] == x[k]);
            assert(base[k + 1] == x[k + 1]);
        } else if k < b {
            assert(base[k] == lead[k]);
            assert(base[k + 1] == lead[k + 1] || k + 1 == b);
        } else if k > b {
            assert(base[k] == y[k - b - 1]);
            assert(base[k + 1] == y[k - b]);
        }
    }
    assert(base.len() > 0);
    assert(is_name_text_char(base[base.len() - 1]));
    assert(bracketed_group(base) is None);
    text::lemma_last_where(base, CharClass::Is('-'), true);
    let dash = text::last_where(base, CharClass::Is('-'), true);
    if dash >= 0 {
        let group = base.skip(dash + 1);
        assert(base[dash] == '-');
        if group.len() >= 2 {
            assert(group[0] == base[dash + 1]);
            assert(!text::is_ascii_alnum(group[0]));
        }
    }
    assert(dashed_group(base) is None);
    assert(split_group(base) == (base, None::<Seq<char>>));
    assert(text::spaced(base, separators()) =~= base) by {
        assert forall|k: int| 0 <= k < base.len() implies !separators().holds(
            #[trigger] base[k],
        ) by {
            let set = seq!['.', '_', '+'];
            assert(is_name_text_char(base[k]));
            if set.contains(base[k]) {
                let i = choose|i: int| 0 <= i < set.len() && set[i] == base[k];
            }
        }
    }
    let all = before + seq![seq![PLACEHOLDER]] + rest;
    lemma_name_texts_are_words(before);
    lemma_joined_words(before);
    lemma_trailing_space(x);
    assert(is_word(seq![PLACEHOLDER]));
    lemma_one_more_word(head, seq![PLACEHOLDER]);
    lemma_trailing_space(head + seq![' '] + seq![PLACEHOLDER]);
    lemma_words_followed(lead, rest);
    assert(text::words(base) =~= all);
    lemma_name_texts_are_words(rest);
    assert(are_words(all)) by {
        assert forall|i: int| 0 <= i < all.len() implies is_word(#[trigger] all[i]) by {
            if i < before.len() {
                assert(all[i] == before[i]);
            } else if i > before.len() {
                assert(all[i] == rest[i - before.len() - 1]);
            }
        }
    }
    lemma_joined_words(all);
    law_tokens_are_words(text::collapse(base), 0);
}

/// A file of an episode that is named by the words of the show's title, a dash,
/// `S`, the season, `E`, the episode and, behind a dash or not, the words of the
/// episode's title, with any tags behind, is parsed back to just these.
pub proof fn law_episode_name_is_parsed_back(
    filename: Seq<char>,
    opts: ParseOptions,
    c: CapturedView,
    show: Seq<Seq<char>>,
    season: u16,
    episode: u16,
    title: Seq<Seq<char>>,
    tags: Seq<Seq<char>>,
    ext: Seq<char>,
)
    requires
        is_plain_title(show),
        title.len() == 0 || is_plain_title(title),
        tags.len() > 0 ==> ends_title(tags, opts),
        forall|i: int| 0 <= i < tags.len() ==> is_tag_text(#[trigger] tags[i]),
        !ext.contains('.'),
        names_no_several(prescanned(filename)),
        pattern::captures_of(SINGLE@, prescanned(filename)) == Some(c),
        c.before == text::join(show, seq![' ']) + " - "@,
        writes(c.group(1), season),
        writes(c.group(2), episode),
        c.after == followed_by(Seq::empty(), dashed_title(title) + tags) + seq!['.'] + ext,
    ensures
        has_titles(episode_fields(filename, opts), show, title),
        says(episode_fields(filename, opts), Some(season), Some(seq![episode]), false),
{
    let before = show.push(seq!['-']);
    let after = dashed_title(title);
    let texts = before + seq![seq![PLACEHOLDER]] + after + tags;
    lemma_texts_around(show, title, tags);
    assert(before + seq![seq![PLACEHOLDER]] + (after + tags) =~= texts);
    lemma_name_around(c, show, after + tags, ext);
    let m = lemma_single_marker(filename, opts, c, season, episode);
    lemma_both_titles(filename, opts, m, before, after, tags);
    law_single_marker_is_read(filename, opts, c, season, episode);
}

/// The titles of a name with a marker that is no title itself.
proof fn lemma_both_titles(
    filename: Seq<char>,
    opts: ParseOptions,
    m: MarkerView,
    before: Seq<Seq<char>>,
    after: Seq<Seq<char>>,
    tags: Seq<Seq<char>>,
)
    requires
        marker_of(prescanned(filename), opts.min_year, opts.max_year) == Some(m),
        m.marking.special_phrase is None,
        token_texts(tokens_of(m.before + seq![' ', PLACEHOLDER, ' '] + m.after)) == before
            + seq![seq![PLACEHOLDER]] + after + tags,
        are_words_and_dashes(before),
        are_words_and_dashes(after),
        tags.len() > 0 ==> ends_title(tags, opts),
        undashed(before).len() > 0,
    ensures
        has_titles(episode_fields(filename, opts), undashed(before), undashed(after)),
{
    law_words_around_the_marker_are_the_titles(filename, opts, m, before, after, tags);
}

/// Whether the fields of an episode have these words as the titles of the show
/// and of the episode, where there are any.
pub open spec fn has_titles(
    e: EpisodeFields,
    show: Seq<Seq<char>>,
    title: Seq<Seq<char>>,
) -> bool {
    &&& e.title.ok() == Some(text::join(show, seq![' ']))
    &&& e.episode_title.ok() == (if title.len() > 0 {
        Some(text::join(title, seq![' ']))
    } else {
        None
    })
}

/// What is left of a name once its marker is masked.
proof fn lemma_name_around(
    c: CapturedView,
    show: Seq<Seq<char>>,
    rest: Seq<Seq<char>>,
    ext: Seq<char>,
)
    requires
        show.len() > 0,
        are_name_texts(show.push(seq!['-'])),
        are_name_texts(rest),
        !ext.contains('.'),
        c.before == text::join(show, seq![' ']) + " - "@,
        c.after == followed_by(Seq::empty(), rest) + seq!['.'] + ext,
    ensures
        token_texts(tokens_of(c.before + seq![' ', PLACEHOLDER, ' '] + c.after)) == show.push(
            seq!['-'],
        ) + seq![seq![PLACEHOLDER]] + rest,
        leaves_text(c),
{
    let dash = seq!['-'];
    let before = show.push(dash);
    lemma_masked_tokens(before, rest, ext);
    reveal_strlit(" - ");
    assert(before.drop_last() =~= show);
    assert(text::join(before, seq![' ']) == text::join(show, seq![' ']) + seq![' '] + dash);
    assert(c.before =~= text::join(before, seq![' ']) + seq![' ']);
    let name = c.before + seq![' ', PLACEHOLDER, ' '] + c.after;
    assert(token_texts(tokens_of(name)).len() == tokens_of(name).len());
}

/// The title of an episode behind a dash, where there is one.
pub open spec fn dashed_title(title: Seq<Seq<char>>) -> Seq<Seq<char>> {
    if title.len() > 0 {
        seq![seq!['-']] + title
    } else {
        Seq::empty()
    }
}

/// Plain words can stand in a name.
proof fn lemma_plain_texts(ws: Seq<Seq<char>>)
    requires
        forall|i: int| 0 <= i < ws.len() ==> is_plain_word(#[trigger] ws[i]),
    ensures
        forall|i: int| 0 <= i < ws.len() ==> is_tag_text(#[trigger] ws[i]),
{
    assert forall|i: int| 0 <= i < ws.len() implies is_tag_text(#[trigger] ws[i]) by {
        assert(is_plain_word(ws[i]));
    }
}

/// Plain words hold no dash.
proof fn lemma_undashed(ws: Seq<Seq<char>>)
    requires
        forall|i: int| 0 <= i < ws.len() ==> is_plain_word(#[trigger] ws[i]),
    ensures
        undashed(ws) == ws,
    decreases ws.len(),
{
    reveal(Seq::filter);
    if ws.len() > 0 {
        let less = ws.drop_last();
        assert forall|i: int| 0 <= i < less.len() implies is_plain_word(#[trigger] less[i]) by {
            assert(less[i] == ws[i]);
        }
        lemma_undashed(less);
        let w = ws[ws.len() - 1];
        assert(is_plain_word(w));
        assert(is_letter(w[0]));
        assert(undashed(ws) =~= ws);
    }
}

/// Plain words behind a dash are the words.
proof fn lemma_undashed_after_dash(ws: Seq<Seq<char>>)
    requires
        forall|i: int| 0 <= i < ws.len() ==> is_plain_word(#[trigger] ws[i]),
    ensures
        undashed(seq![seq!['-']] + ws) == ws,
{
    let dash = seq![seq!['-']];
    let keep = |w: Seq<char>| !is_dash(w);
    Seq::filter_distributes_over_add(dash, ws, keep);
    lemma_undashed(ws);
    assert(undashed(dash).len() == 0) by {
        reveal(Seq::filter);
        assert(dash.drop_last() =~= Seq::empty());
        assert(undashed(dash.drop_last()) =~= Seq::empty());
        assert(is_dash(dash.last()));
    }
    assert(undashed(dash) + ws =~= ws);
}

/// The texts of a name before and behind its marker.
proof fn lemma_texts_around(show: Seq<Seq<char>>, title: Seq<Seq<char>>, tags: Seq<Seq<char>>)
    requires
        is_plain_title(show),
        title.len() == 0 || is_plain_title(title),
        forall|i: int| 0 <= i < tags.len() ==> is_tag_text(#[trigger] tags[i]),
    ensures
        are_name_texts(show.push(seq!['-'])),
        are_name_texts(dashed_title(title) + tags),
        are_words_and_dashes(show.push(seq!['-'])),
        are_words_and_dashes(dashed_title(title)),
        undashed(show.push(seq!['-'])) == show,
        undashed(dashed_title(title)) == title,
{
    let dash = seq!['-'];
    let before = show.push(dash);
    let after = dashed_title(title);
    let rest = after + tags;
    lemma_plain_texts(show);
    lemma_plain_texts(title);
    assert forall|i: int| 0 <= i < before.len() implies (is_dash(#[trigger] before[i])
        || is_tag_text(before[i])) && (is_dash(before[i]) || (is_plain_word(before[i])
        && !vocab::is_reserved(before[i]))) by {
        if i < show.len() {
            assert(before[i] == show[i]);
        }
    }
    assert forall|i: int| 0 <= i < after.len() implies (is_dash(#[trigger] after[i]) || is_tag_text(
        after[i],
    )) && (is_dash(after[i]) || (is_plain_word(after[i]) && !vocab::is_reserved(after[i]))) by {
        if i > 0 {
            assert(after[i] == title[i - 1]);
        }
    }
    assert forall|i: int| 0 <= i < rest.len() implies is_dash(#[trigger] rest[i]) || is_tag_text(
        rest[i],
    ) by {
        if i < after.len() {
            assert(rest[i] == after[i]);
        } else {
            assert(rest[i] == tags[i - after.len()]);
        }
    }
    lemma_undashed(show);
    assert(undashed(before) == show) by {
        reveal(Seq::filter);
        assert(before.drop_last() =~= show);
        assert(is_dash(before.last()));
    }
    if title.len() > 0 {
        lemma_undashed_after_dash(title);
    } else {
        reveal(Seq::filter);
        assert(undashed(after) =~= title);
    }
}

} // verus!
