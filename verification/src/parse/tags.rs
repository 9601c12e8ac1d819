//! What the tags of a name are read as.

use crate::parse::extractors;
use crate::parse::extractors::{
    bracketed_year, edition_pattern, vocab_claim, vocab_word, ClaimView, ParseField,
};
use crate::parse::model::{EpisodeFields, MovieFields, ParseOptions};
use crate::parse::parser;
use crate::parse::parser::{accepted, movie_candidates, movie_fields, with_claims};
use crate::parse::round_trip;
use crate::parse::round_trip::{
    is_tag, is_year_in_brackets, lemma_accepted_is_candidate, lemma_spells, lemma_stands, spells,
    tag_list,
};
use crate::parse::tokens::{
    dashed_group, group_of, law_tokens_in_order, normal_form, separators, tokens_from, tokens_of,
    TokenView,
};
use crate::parse::tv;
use crate::parse::tv::{episode_candidates, episode_fields_given, masked, MarkerView};
use crate::parse::vocab;
use crate::pattern;
use crate::text;
use crate::text::CharClass;
use vstd::prelude::*;

verus! {

/// Whether tokens stand in order.
spec fn in_order(tokens: Seq<TokenView>) -> bool {
    &&& forall|i: int| 0 <= i < tokens.len() ==> (#[trigger] tokens[i]).start < tokens[i].end
    &&& forall|i: int, j: int|
        0 <= i < j < tokens.len() ==> (#[trigger] tokens[i]).end <= (#[trigger] tokens[j]).start
}

/// The field of a vocabulary by its rank.
pub open spec fn tag_field(rank: int) -> ParseField {
    if rank == 0 {
        ParseField::Resolution
    } else if rank == 1 {
        ParseField::Source
    } else if rank == 2 {
        ParseField::VideoCodec
    } else if rank == 3 {
        ParseField::AudioFormat
    } else {
        ParseField::Hdr
    }
}

/// Whether a token is the first that spells a word of a vocabulary, and spells
/// no word of another.
pub open spec fn is_first_tag(tokens: Seq<TokenView>, rank: int, i: int) -> bool {
    &&& 0 <= rank < 5
    &&& 0 <= i < tokens.len()
    &&& spells(tag_list(rank), tokens[i].text)
    &&& forall|j: int| 0 <= j < i ==> !spells(tag_list(rank), (#[trigger] tokens[j]).text)
    &&& forall|other: int|
        0 <= other < 5 && other != rank ==> !spells(#[trigger] tag_list(other), tokens[i].text)
}

/// The spelling that is kept of a word: that of the vocabulary, but for two
/// sources and two audio formats that are called otherwise.
pub open spec fn kept_spelling(word: Seq<char>) -> Seq<char> {
    if word == "BRRip"@ {
        "BDRip"@
    } else if word == "DD5.1"@ {
        "AC3"@
    } else if word == "DDP5.1"@ {
        "DDP"@
    } else {
        word
    }
}

/// The word of a list that a text spells is one of the list.
proof fn lemma_vocab_word(list: Seq<Seq<char>>, s: Seq<char>)
    ensures
        vocab_word(list, s) matches Some(w) ==> list.contains(w) && (text::ascii_lowercase(w)
            == text::ascii_lowercase(s) || text::ascii_lowercase(w) == text::ascii_lowercase(
            extractors::unbracketed(s),
        )),
    decreases list.len(),
{
    if list.len() > 0 {
        lemma_vocab_word(list.skip(1), s);
        assert(list[0] == list[0]);
        if let Some(w) = vocab_word(list.skip(1), s) {
            let i = choose|i: int| 0 <= i < list.skip(1).len() && list.skip(1)[i] == w;
            assert(list[i + 1] == w);
        }
    }
}

/// The claim of a vocabulary is on the first token that spells a word of it.
proof fn lemma_first_claim(
    field: ParseField,
    list: Seq<Seq<char>>,
    tokens: Seq<TokenView>,
    i: int,
)
    requires
        0 <= i < tokens.len(),
        spells(list, tokens[i].text),
        forall|j: int| 0 <= j < i ==> !spells(list, (#[trigger] tokens[j]).text),
    ensures
        vocab_claim(field, list, tokens) matches Some(c) && c.field == field && c.start
            == tokens[i].start && c.end == tokens[i].end && vocab_word(list, tokens[i].text)
            == Some(c.value),
    decreases tokens.len(),
{
    lemma_spells(list, tokens[0].text);
    if i > 0 {
        assert(!spells(list, tokens[0].text));
        let rest = tokens.skip(1);
        assert(rest[i - 1] == tokens[i]);
        assert forall|j: int| 0 <= j < i - 1 implies !spells(list, (#[trigger] rest[j]).text) by {
            assert(rest[j] == tokens[j + 1]);
        }
        lemma_first_claim(field, list, rest, i - 1);
    }
}

/// The claim of a vocabulary is on some token that spells a word of it.
proof fn lemma_claim_spells(field: ParseField, list: Seq<Seq<char>>, tokens: Seq<TokenView>)
    ensures
        vocab_claim(field, list, tokens) matches Some(c) ==> c.field == field && exists|i: int|
            0 <= i < tokens.len() && (#[trigger] tokens[i]).start == c.start && tokens[i].end
                == c.end && spells(list, tokens[i].text),
    decreases tokens.len(),
{
    if tokens.len() > 0 {
        let rest = tokens.skip(1);
        lemma_claim_spells(field, list, rest);
        lemma_spells(list, tokens[0].text);
        if vocab_word(list, tokens[0].text) is None {
            if let Some(c) = vocab_claim(field, list, rest) {
                let i = choose|i: int|
                    0 <= i < rest.len() && (#[trigger] rest[i]).start == c.start && rest[i].end
                        == c.end && spells(list, rest[i].text);
                assert(tokens[i + 1] == rest[i]);
            }
        }
    }
}

/// The first tag of its kind is claimed, and its claim stands.
proof fn lemma_tag_stands(
    cands: Seq<Option<ClaimView>>,
    tokens: Seq<TokenView>,
    rank: int,
    i: int,
)
    requires
        in_order(tokens),
        is_first_tag(tokens, rank, i),
        cands.len() > 5,
        forall|k: int|
            0 <= k < 5 ==> #[trigger] cands[k] == vocab_claim(tag_field(k), tag_list(k), tokens),
    ensures
        cands[rank] matches Some(c) && c.field == tag_field(rank) && vocab_word(
            tag_list(rank),
            tokens[i].text,
        ) == Some(c.value) && accepted(cands).contains(c),
{
    lemma_first_claim(tag_field(rank), tag_list(rank), tokens, i);
    let c = cands[rank]->0;
    assert forall|j: int| 0 <= j < rank && (#[trigger] cands[j]) is Some implies cands[j]->0.end
        <= c.start || c.end <= cands[j]->0.start by {
        lemma_claim_spells(tag_field(j), tag_list(j), tokens);
        let d = cands[j]->0;
        let at = choose|at: int|
            0 <= at < tokens.len() && (#[trigger] tokens[at]).start == d.start && tokens[at].end
                == d.end && spells(tag_list(j), tokens[at].text);
        assert(!spells(tag_list(j), tokens[i].text));
        assert(at != i);
        if at < i {
            assert(tokens[at].end <= tokens[i].start);
        } else {
            assert(tokens[i].end <= tokens[at].start);
        }
    }
    lemma_stands(cands, rank);
}

/// The value of the field of a tag.
pub open spec fn movie_tag(m: MovieFields, rank: int) -> Option<Seq<char>> {
    if rank == 0 {
        m.resolution.ok()
    } else if rank == 1 {
        m.source.ok()
    } else if rank == 2 {
        m.video_codec.ok()
    } else if rank == 3 {
        m.audio_format.ok()
    } else {
        m.hdr.ok()
    }
}

/// What claims write into the field of a tag where all claims on it agree.
proof fn lemma_movie_tag_written(
    m: MovieFields,
    claims: Seq<ClaimView>,
    rank: int,
    value: Seq<char>,
)
    requires
        0 <= rank < 5,
        exists|k: int| 0 <= k < claims.len() && (#[trigger] claims[k]).field == tag_field(rank),
        forall|k: int|
            0 <= k < claims.len() && (#[trigger] claims[k]).field == tag_field(rank)
                ==> claims[k].value == value,
    ensures
        movie_tag(with_claims(m, claims), rank) == Some(written(rank, value)),
    decreases claims.len(),
{
    let less = claims.drop_last();
    let n = claims.len() - 1;
    assert(claims.last() == claims[n]);
    if claims[n].field != tag_field(rank) {
        let k = choose|k: int| 0 <= k < claims.len() && (#[trigger] claims[k]).field == tag_field(
            rank,
        );
        assert(less[k] == claims[k]);
        assert forall|k: int|
            0 <= k < less.len() && (#[trigger] less[k]).field == tag_field(rank) implies less[k].value
            == value by {
            assert(less[k] == claims[k]);
        }
        lemma_movie_tag_written(m, less, rank, value);
    }
}

/// What is written of a word: sources and audio formats the usual way.
spec fn written(rank: int, word: Seq<char>) -> Seq<char> {
    if rank == 1 {
        parser::canonical_source(word)
    } else if rank == 3 {
        parser::canonical_audio(word)
    } else {
        word
    }
}

/// What is written of a word of a vocabulary is its kept spelling.
proof fn lemma_written(rank: int, word: Seq<char>)
    requires
        0 <= rank < 5,
        tag_list(rank).contains(word),
    ensures
        written(rank, word) == kept_spelling(word),
{
    reveal_strlit("BRRip");
    reveal_strlit("DD5.1");
    reveal_strlit("DDP5.1");
    let i = choose|i: int| 0 <= i < tag_list(rank).len() && tag_list(rank)[i] == word;
    if rank == 0 {
        reveal_strlit("4320p");
        reveal_strlit("8K");
        reveal_strlit("2160p");
        reveal_strlit("4K");
        reveal_strlit("1440p");
        reveal_strlit("1080p");
        reveal_strlit("720p");
        reveal_strlit("576p");
        reveal_strlit("480p");
        assert(word[0] != 'B' && word[0] != 'D');
    } else if rank == 1 {
        reveal_strlit("REMUX");
        reveal_strlit("BluRay");
        reveal_strlit("BDRip");
        reveal_strlit("WEB-DL");
        reveal_strlit("WEBDL");
        reveal_strlit("WEB-Rip");
        reveal_strlit("WEBRip");
        reveal_strlit("HDRip");
        reveal_strlit("DVDRip");
        reveal_strlit("DVD-Rip");
        reveal_strlit("HDTV");
        reveal_strlit("PDTV");
        reveal_strlit("VHSRip");
        reveal_strlit("CAM");
        reveal_strlit("TS");
        reveal_strlit("TC");
        reveal_strlit("SCR");
        reveal_strlit("R5");
        reveal_strlit("LD");
        assert(word[0] != 'D' || word[1] == 'V');
        assert("DD5.1"@[1] == 'D' && "DDP5.1"@[1] == 'D');
    } else if rank == 2 {
        reveal_strlit("x265");
        reveal_strlit("x264");
        reveal_strlit("h265");
        reveal_strlit("h264");
        reveal_strlit("HEVC");
        reveal_strlit("AVC");
        reveal_strlit("XviD");
        reveal_strlit("DivX");
        reveal_strlit("AV1");
        reveal_strlit("VP9");
        assert(word.len() <= 4);
    } else if rank == 3 {
        reveal_strlit("Atmos");
        reveal_strlit("TrueHD");
        reveal_strlit("DTS-HD");
        reveal_strlit("DTS-HD MA");
        reveal_strlit("DTS");
        reveal_strlit("DDP");
        reveal_strlit("E-AC3");
        reveal_strlit("AC3");
        reveal_strlit("AAC");
        reveal_strlit("FLAC");
        reveal_strlit("MP3");
        reveal_strlit("Vorbis");
        reveal_strlit("Opus");
        assert(word[0] != 'B');
    } else {
        reveal_strlit("HDR10+");
        reveal_strlit("HDR10");
        reveal_strlit("HDR");
        reveal_strlit("Dolby Vision");
        reveal_strlit("DV");
        reveal_strlit("HLG");
        reveal_strlit("SDR");
        assert(word[0] != 'B');
        assert(word[0] != 'D' || word[1] != 'D');
        assert("DD5.1"@[1] == 'D' && "DDP5.1"@[1] == 'D');
    }
}

/// The first token of a movie's name that spells a resolution, source, codec,
/// audio format or HDR format gives the field, in the spelling that is kept of
/// the word.
pub proof fn law_movie_tag_is_read(filename: Seq<char>, opts: ParseOptions, rank: int, i: int)
    requires
        is_first_tag(tokens_of(filename), rank, i),
    ensures
        exists|word: Seq<char>|
            tag_list(rank).contains(word) && (text::ascii_lowercase(word) == text::ascii_lowercase(
                tokens_of(filename)[i].text,
            ) || text::ascii_lowercase(word) == text::ascii_lowercase(
                extractors::unbracketed(tokens_of(filename)[i].text),
            )) && movie_tag(movie_fields(filename, opts), rank) == Some(
                #[trigger] kept_spelling(word),
            ),
{
    let tokens = tokens_of(filename);
    let normalised = normal_form(filename);
    law_tokens_in_order(normalised, 0);
    assert(tokens == tokens_from(normalised, 0));
    let cands = movie_candidates(tokens, normalised, opts);
    lemma_tag_stands(cands, tokens, rank, i);
    let c = cands[rank]->0;
    let claims = accepted(cands);
    let at = choose|at: int| 0 <= at < claims.len() && claims[at] == c;
    assert(claims[at].field == tag_field(rank));
    assert forall|k: int| 0 <= k < claims.len() && (#[trigger] claims[k]).field == tag_field(
        rank,
    ) implies claims[k].value == c.value by {
        let j = lemma_accepted_is_candidate(cands, k);
        lemma_movie_candidate_fields(tokens, normalised, opts, j);
    }
    lemma_movie_tag_written(MovieFields::blank(), claims, rank, c.value);
    lemma_vocab_word(tag_list(rank), tokens[i].text);
    lemma_written(rank, c.value);
    let m = movie_fields(filename, opts);
    assert(movie_tag(m, rank) == Some(kept_spelling(c.value)));
}

/// Every candidate of a movie is of its own field.
proof fn lemma_movie_candidate_fields(
    tokens: Seq<TokenView>,
    normalised: Seq<char>,
    opts: ParseOptions,
    j: int,
)
    requires
        0 <= j < movie_candidates(tokens, normalised, opts).len(),
    ensures
        movie_candidates(tokens, normalised, opts)[j] matches Some(c) ==> forall|rank: int|
            0 <= rank < 5 && rank != j ==> c.field != #[trigger] tag_field(rank),
{
    lemma_claim_spells(ParseField::Resolution, vocab::resolution_words(), tokens);
    lemma_claim_spells(ParseField::Source, vocab::source_words(), tokens);
    lemma_claim_spells(ParseField::VideoCodec, vocab::video_codec_words(), tokens);
    lemma_claim_spells(ParseField::AudioFormat, vocab::audio_words(), tokens);
    lemma_claim_spells(ParseField::Hdr, vocab::hdr_words(), tokens);
    lemma_year_field(tokens, opts);
}

/// The claim on the year is of the year.
proof fn lemma_year_field(tokens: Seq<TokenView>, opts: ParseOptions)
    ensures
        extractors::year_claim(tokens, opts.min_year, opts.max_year) matches Some(c)
            ==> c.field == ParseField::Year,
{
    lemma_bracketed_year_field(tokens, opts);
    lemma_bare_year_field(tokens, tokens.len() as int, opts);
}

proof fn lemma_bracketed_year_field(tokens: Seq<TokenView>, opts: ParseOptions)
    ensures
        bracketed_year(tokens, opts.min_year, opts.max_year) matches Some(c) ==> c.field
            == ParseField::Year,
    decreases tokens.len(),
{
    if tokens.len() > 0 {
        lemma_bracketed_year_field(tokens.skip(1), opts);
    }
}

proof fn lemma_bare_year_field(tokens: Seq<TokenView>, n: int, opts: ParseOptions)
    ensures
        extractors::bare_year(tokens, n, opts.min_year, opts.max_year) matches Some(c)
            ==> c.field == ParseField::Year,
    decreases n,
{
    if 0 < n <= tokens.len() {
        lemma_bare_year_field(tokens, n - 1, opts);
    }
}

/// A field of a tag that no claim is on is left alone.
proof fn lemma_movie_tag_claimed(m: MovieFields, claims: Seq<ClaimView>, rank: int)
    requires
        0 <= rank < 5,
        movie_tag(m, rank) is None,
        movie_tag(with_claims(m, claims), rank) is Some,
    ensures
        exists|k: int| 0 <= k < claims.len() && (#[trigger] claims[k]).field == tag_field(rank),
    decreases claims.len(),
{
    if claims.len() > 0 {
        let less = claims.drop_last();
        assert(claims.last() == claims[claims.len() - 1]);
        if claims.last().field != tag_field(rank) {
            lemma_movie_tag_claimed(m, less, rank);
            let k = choose|k: int| 0 <= k < less.len() && (#[trigger] less[k]).field == tag_field(
                rank,
            );
            assert(claims[k] == less[k]);
        }
    }
}

/// No tag is invented: where a resolution, source, codec, audio format or HDR
/// format of a movie is known, some token of the name spells it.
pub proof fn law_movie_tag_is_in_the_name(filename: Seq<char>, opts: ParseOptions, rank: int)
    requires
        0 <= rank < 5,
        movie_tag(movie_fields(filename, opts), rank) is Some,
    ensures
        exists|i: int|
            0 <= i < tokens_of(filename).len() && spells(
                tag_list(rank),
                (#[trigger] tokens_of(filename)[i]).text,
            ),
{
    let tokens = tokens_of(filename);
    let normalised = normal_form(filename);
    let cands = movie_candidates(tokens, normalised, opts);
    let claims = accepted(cands);
    lemma_movie_tag_claimed(MovieFields::blank(), claims, rank);
    let k = choose|k: int| 0 <= k < claims.len() && (#[trigger] claims[k]).field == tag_field(rank);
    let j = lemma_accepted_is_candidate(cands, k);
    lemma_movie_candidate_fields(tokens, normalised, opts, j);
    assert(j == rank);
    lemma_claim_spells(tag_field(rank), tag_list(rank), tokens);
    let c = claims[k];
    assert(vocab_claim(tag_field(rank), tag_list(rank), tokens) == Some(c));
}

/// The value of the field of a tag of an episode.
pub open spec fn episode_tag(e: EpisodeFields, rank: int) -> Option<Seq<char>> {
    if rank == 0 {
        e.resolution.ok()
    } else if rank == 1 {
        e.source.ok()
    } else if rank == 2 {
        e.video_codec.ok()
    } else if rank == 3 {
        e.audio_format.ok()
    } else {
        e.hdr.ok()
    }
}

/// What claims write into the field of a tag where all claims on it agree.
proof fn lemma_episode_tag_written(
    e: EpisodeFields,
    claims: Seq<ClaimView>,
    rank: int,
    value: Seq<char>,
)
    requires
        0 <= rank < 5,
        exists|k: int| 0 <= k < claims.len() && (#[trigger] claims[k]).field == tag_field(rank),
        forall|k: int|
            0 <= k < claims.len() && (#[trigger] claims[k]).field == tag_field(rank)
                ==> claims[k].value == value,
    ensures
        episode_tag(tv::with_claims(e, claims), rank) == Some(written(rank, value)),
    decreases claims.len(),
{
    let less = claims.drop_last();
    let n = claims.len() - 1;
    assert(claims.last() == claims[n]);
    if claims[n].field != tag_field(rank) {
        let k = choose|k: int| 0 <= k < claims.len() && (#[trigger] claims[k]).field == tag_field(
            rank,
        );
        assert(less[k] == claims[k]);
        assert forall|k: int|
            0 <= k < less.len() && (#[trigger] less[k]).field == tag_field(rank) implies less[k].value
            == value by {
            assert(less[k] == claims[k]);
        }
        lemma_episode_tag_written(e, less, rank, value);
    }
}

/// Every candidate of an episode is of its own field.
proof fn lemma_episode_candidate_fields(
    tokens: Seq<TokenView>,
    normalised: Seq<char>,
    opts: ParseOptions,
    j: int,
)
    requires
        0 <= j < episode_candidates(tokens, normalised, opts).len(),
    ensures
        episode_candidates(tokens, normalised, opts)[j] matches Some(c) ==> forall|rank: int|
            0 <= rank < 5 && rank != j ==> c.field != #[trigger] tag_field(rank),
{
    lemma_claim_spells(ParseField::Resolution, vocab::resolution_words(), tokens);
    lemma_claim_spells(ParseField::Source, vocab::source_words(), tokens);
    lemma_claim_spells(ParseField::VideoCodec, vocab::video_codec_words(), tokens);
    lemma_claim_spells(ParseField::AudioFormat, vocab::audio_words(), tokens);
    lemma_claim_spells(ParseField::Hdr, vocab::hdr_words(), tokens);
    lemma_year_field(tokens, opts);
}

/// The first token of an episode's name, its marker aside, that spells a
/// resolution, source, codec, audio format or HDR format gives the field, in
/// the spelling that is kept of the word.
pub proof fn law_episode_tag_is_read(
    filename: Seq<char>,
    opts: ParseOptions,
    marker: Option<MarkerView>,
    rank: int,
    i: int,
)
    requires
        is_first_tag(tokens_of(masked(filename, marker)), rank, i),
    ensures
        exists|word: Seq<char>|
            tag_list(rank).contains(word) && (text::ascii_lowercase(word) == text::ascii_lowercase(
                tokens_of(masked(filename, marker))[i].text,
            ) || text::ascii_lowercase(word) == text::ascii_lowercase(
                extractors::unbracketed(tokens_of(masked(filename, marker))[i].text),
            )) && episode_tag(episode_fields_given(filename, opts, marker), rank) == Some(
                #[trigger] kept_spelling(word),
            ),
{
    let name = masked(filename, marker);
    let tokens = tokens_of(name);
    let normalised = normal_form(name);
    law_tokens_in_order(normalised, 0);
    assert(tokens == tokens_from(normalised, 0));
    let cands = episode_candidates(tokens, normalised, opts);
    lemma_tag_stands(cands, tokens, rank, i);
    let c = cands[rank]->0;
    let claims = accepted(cands);
    let at = choose|at: int| 0 <= at < claims.len() && claims[at] == c;
    assert(claims[at].field == tag_field(rank));
    assert forall|k: int| 0 <= k < claims.len() && (#[trigger] claims[k]).field == tag_field(
        rank,
    ) implies claims[k].value == c.value by {
        let j = lemma_accepted_is_candidate(cands, k);
        lemma_episode_candidate_fields(tokens, normalised, opts, j);
    }
    lemma_episode_tag_written(EpisodeFields::blank(), claims, rank, c.value);
    lemma_vocab_word(tag_list(rank), tokens[i].text);
    lemma_written(rank, c.value);
    let e = episode_fields_given(filename, opts, marker);
    assert(episode_tag(e, rank) == Some(kept_spelling(c.value)));
}

/// The first year in brackets is claimed.
proof fn lemma_first_bracketed_year(tokens: Seq<TokenView>, i: int, opts: ParseOptions)
    requires
        0 <= i < tokens.len(),
        is_year_in_brackets(tokens[i].text, opts),
        forall|j: int| 0 <= j < i ==> !is_year_in_brackets((#[trigger] tokens[j]).text, opts),
    ensures
        bracketed_year(tokens, opts.min_year, opts.max_year) matches Some(c) && c.start
            == tokens[i].start && c.end == tokens[i].end && c.field == ParseField::Year
            && text::number(c.value) == text::number(
            tokens[i].text.subrange(1, tokens[i].text.len() - 1),
        ),
    decreases tokens.len(),
{
    let here = is_year_in_brackets(tokens[0].text, opts);
    if i > 0 {
        assert(!here);
        let rest = tokens.skip(1);
        assert(rest[i - 1] == tokens[i]);
        assert forall|j: int| 0 <= j < i - 1 implies !is_year_in_brackets(
            (#[trigger] rest[j]).text,
            opts,
        ) by {
            assert(rest[j] == tokens[j + 1]);
        }
        lemma_first_bracketed_year(rest, i - 1, opts);
    } else {
        let y = text::number(tokens[0].text.subrange(1, tokens[0].text.len() - 1))->0;
        text::lemma_number_of_decimal(y);
    }
}

/// The year of a movie is the first that stands in brackets in its name, within
/// the years that are looked for; so it is where the brackets spell no tag and
/// no edition reaches into them.
pub proof fn law_bracketed_year_is_read(filename: Seq<char>, opts: ParseOptions, i: int)
    requires
        0 <= i < tokens_of(filename).len(),
        is_year_in_brackets(tokens_of(filename)[i].text, opts),
        forall|j: int|
            0 <= j < i ==> !is_year_in_brackets((#[trigger] tokens_of(filename)[j]).text, opts),
        !is_tag(tokens_of(filename)[i].text),
        pattern::captures_of(edition_pattern(), normal_form(filename)) matches Some(found) ==> {
            let start = text::utf8_len(found.before);
            let end = start + text::utf8_len(found.group(0));
            end <= tokens_of(filename)[i].start || tokens_of(filename)[i].end <= start
        },
    ensures
        movie_fields(filename, opts).year.ok() == text::number(
            tokens_of(filename)[i].text.subrange(1, tokens_of(filename)[i].text.len() - 1),
        ),
{
    let tokens = tokens_of(filename);
    let normalised = normal_form(filename);
    law_tokens_in_order(normalised, 0);
    assert(tokens == tokens_from(normalised, 0));
    let cands = movie_candidates(tokens, normalised, opts);
    lemma_first_bracketed_year(tokens, i, opts);
    let c = cands[6]->0;
    assert forall|j: int| 0 <= j < 6 && (#[trigger] cands[j]) is Some implies cands[j]->0.end
        <= c.start || c.end <= cands[j]->0.start by {
        if j < 5 {
            lemma_claim_spells(tag_field(j), tag_list(j), tokens);
            let d = cands[j]->0;
            assert(vocab_claim(tag_field(j), tag_list(j), tokens) == Some(d));
            let at = choose|at: int|
                0 <= at < tokens.len() && (#[trigger] tokens[at]).start == d.start && tokens[at].end
                    == d.end && spells(tag_list(j), tokens[at].text);
            assert(at != i);
            if at < i {
                assert(tokens[at].end <= tokens[i].start);
            } else {
                assert(tokens[i].end <= tokens[at].start);
            }
        }
    }
    lemma_stands(cands, 6);
    let claims = accepted(cands);
    let at = choose|at: int| 0 <= at < claims.len() && claims[at] == c;
    assert(claims[at].field == ParseField::Year);
    assert forall|k: int| 0 <= k < claims.len() && (#[trigger] claims[k]).field
        == ParseField::Year implies claims[k].value == c.value by {
        let j = lemma_accepted_is_candidate(cands, k);
        if j != 6 {
            lemma_only_year_candidate(tokens, normalised, opts, j);
        }
    }
    let y = text::number(c.value)->0;
    lemma_year_written(MovieFields::blank(), claims, c.value, y);
}

/// No candidate but that of the year is of the year.
proof fn lemma_only_year_candidate(
    tokens: Seq<TokenView>,
    normalised: Seq<char>,
    opts: ParseOptions,
    j: int,
)
    requires
        0 <= j < movie_candidates(tokens, normalised, opts).len(),
        j != 6,
    ensures
        movie_candidates(tokens, normalised, opts)[j] matches Some(c) ==> c.field
            != ParseField::Year,
{
    lemma_claim_spells(ParseField::Resolution, vocab::resolution_words(), tokens);
    lemma_claim_spells(ParseField::Source, vocab::source_words(), tokens);
    lemma_claim_spells(ParseField::VideoCodec, vocab::video_codec_words(), tokens);
    lemma_claim_spells(ParseField::AudioFormat, vocab::audio_words(), tokens);
    lemma_claim_spells(ParseField::Hdr, vocab::hdr_words(), tokens);
}

/// What claims write as the year where all claims on it agree.
proof fn lemma_year_written(m: MovieFields, claims: Seq<ClaimView>, value: Seq<char>, y: u16)
    requires
        exists|k: int| 0 <= k < claims.len() && (#[trigger] claims[k]).field == ParseField::Year,
        forall|k: int|
            0 <= k < claims.len() && (#[trigger] claims[k]).field == ParseField::Year
                ==> claims[k].value == value,
        text::number(value) == Some(y),
    ensures
        with_claims(m, claims).year.ok() == Some(y),
    decreases claims.len(),
{
    let less = claims.drop_last();
    let n = claims.len() - 1;
    assert(claims.last() == claims[n]);
    if claims[n].field != ParseField::Year {
        let k = choose|k: int| 0 <= k < claims.len() && (#[trigger] claims[k]).field
            == ParseField::Year;
        assert(less[k] == claims[k]);
        assert forall|k: int|
            0 <= k < less.len() && (#[trigger] less[k]).field == ParseField::Year implies less[k].value
            == value by {
            assert(less[k] == claims[k]);
        }
        lemma_year_written(m, less, value, y);
    }
}

/// A release group behind a dash at the end of a name is read, and is no part
/// of what is left to be parsed.
pub proof fn law_dashed_group_is_read(name: Seq<char>, group: Seq<char>, ext: Seq<char>)
    requires
        group.len() >= 2,
        text::all_ascii_alnum(group),
        !ext.contains('.'),
        ({
            let last = text::last_where(name, separators(), true);
            !vocab::is_reserved((name + seq!['-'] + group).skip(last + 1))
        }),
    ensures
        group_of(name + seq!['-'] + group + seq!['.'] + ext) == Some(group),
        normal_form(name + seq!['-'] + group + seq!['.'] + ext) == text::collapse(
            text::spaced(
                text::trim_end(name, CharClass::In(seq!['.', '_', '+', ' '])),
                CharClass::In(seq!['.', '_', '+']),
            ),
        ),
{
    let s = name + seq!['-'] + group;
    round_trip::lemma_base_name(s, ext);
    let n = name.len() as int;
    assert(s[n] == '-');
    assert forall|j: int| n < j < s.len() implies s[j] != '-' by {
        assert(s[j] == group[j - n - 1]);
        assert(text::is_ascii_alnum(group[j - n - 1]));
    }
    text::lemma_last_where(s, CharClass::Is('-'), true);
    assert(text::last_where(s, CharClass::Is('-'), true) == n);
    assert(s.take(n) =~= name);
    assert(s.skip(n + 1) =~= group);
    assert(s[s.len() - 1] == group[group.len() - 1]);
    assert(text::is_ascii_alnum(group[group.len() - 1]));
    assert(dashed_group(s) == Some(n));
}

} // verus!
