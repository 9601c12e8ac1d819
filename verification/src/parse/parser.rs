//! Movie filename parsing.
//!
//! Runs the extractors in order of priority, lets each claim a span that no
//! earlier one has, and takes the run before the first claim as the title.

use crate::domain::duplicate::Duplicate;
use crate::domain::provenance::{Confidence, FieldView, Source};
use crate::parse::extractors::{
    edition_pattern, names_no_edition, AudioFormatExtractor, Claim, ClaimView, CopyNumberExtractor,
    EditionExtractor, Extractor, HdrExtractor, ParseField, ResolutionExtractor, SourceExtractor,
    VideoCodecExtractor, YearExtractor,
};
use crate::parse::model::{known, MediaParse, MovieFields, ParseOptions, ParsedMovie};
use crate::parse::round_trip::{
    is_year_within, law_plain_name_is_parsed_back, lemma_names_movie, names_movie, plain_fields,
};
use crate::parse::tokens::{
    group_of, normal_form, normalise, release_group_of, tokenize, tokens_of, Token, TokenView,
};
use crate::pattern;
use crate::text;
use crate::text::{CharClass, Class};
use vstd::prelude::*;

verus! {

/// A field read off a filename.
pub open spec fn from_name<T>(value: T, confidence: Confidence) -> FieldView<T> {
    FieldView::Known { value, source: Source::Filename, confidence }
}

/// Whether a claim overlaps one of those already made.
pub open spec fn overlaps_any(claims: Seq<ClaimView>, c: ClaimView) -> bool {
    exists|i: int|
        0 <= i < claims.len() && c.start < (#[trigger] claims[i]).end && c.end > claims[i].start
}

/// The claims that stand: each, in order, unless it overlaps one before it.
pub open spec fn accepted(candidates: Seq<Option<ClaimView>>) -> Seq<ClaimView>
    decreases candidates.len(),
{
    if candidates.len() == 0 {
        Seq::empty()
    } else {
        let made = accepted(candidates.drop_last());
        match candidates.last() {
            Some(c) => if overlaps_any(made, c) {
                made
            } else {
                made.push(c)
            },
            None => made,
        }
    }
}

/// Whether a span overlaps one of the claims.
fn overlaps(claims: &Vec<Claim>, c: &Claim) -> (r: bool)
    ensures
        r == overlaps_any(claims.deep_view(), c.deep_view()),
{
    let ghost v = claims.deep_view();
    let ghost w = c.deep_view();
    let mut i: usize = 0;
    while i < claims.len()
        invariant
            i <= claims@.len(),
            v == claims.deep_view(),
            w == c.deep_view(),
            forall|k: int| 0 <= k < i ==> !(w.start < (#[trigger] v[k]).end && w.end > v[k].start),
        decreases claims@.len() - i,
    {
        proof {
            assert(v[i as int] == claims@[i as int].deep_view());
        }
        if c.start < claims[i].end && c.end > claims[i].start {
            return true;
        }
        i = i + 1;
    }
    false
}

/// Keeps the claims that stand: each, in order, unless it overlaps one before
/// it.
pub fn accept(candidates: &Vec<Option<Claim>>) -> (r: Vec<Claim>)
    ensures
        r.deep_view() == accepted(candidates.deep_view()),
{
    let ghost v = candidates.deep_view();
    let mut out: Vec<Claim> = Vec::new();
    let mut i: usize = 0;
    proof {
        assert(out.deep_view() =~= Seq::empty());
    }
    while i < candidates.len()
        invariant
            i <= candidates@.len(),
            v == candidates.deep_view(),
            out.deep_view() == accepted(v.take(i as int)),
        decreases candidates@.len() - i,
    {
        let ghost before = out.deep_view();
        proof {
            assert(v.take(i + 1).drop_last() =~= v.take(i as int));
            assert(v.take(i + 1).last() == candidates@[i as int].deep_view());
        }
        if let Some(c) = &candidates[i] {
            if !overlaps(&out, c) {
                out.push(c.duplicate());
                proof {
                    assert(out.deep_view() =~= before.push(c.deep_view()));
                }
            }
        }
        i = i + 1;
    }
    proof {
        assert(v.take(i as int) =~= v);
    }
    out
}

/// Accepted claims do not overlap.
pub proof fn law_accepted_claims_disjoint(candidates: Seq<Option<ClaimView>>)
    ensures
        forall|i: int, j: int|
            0 <= i < j < accepted(candidates).len() ==> {
                let a = #[trigger] accepted(candidates)[i];
                let b = #[trigger] accepted(candidates)[j];
                b.end <= a.start || a.end <= b.start
            },
    decreases candidates.len(),
{
    if candidates.len() > 0 {
        law_accepted_claims_disjoint(candidates.drop_last());
        let made = accepted(candidates.drop_last());
        let all = accepted(candidates);
        assert forall|i: int, j: int| 0 <= i < j < all.len() implies {
            let a = #[trigger] all[i];
            let b = #[trigger] all[j];
            b.end <= a.start || a.end <= b.start
        } by {
            assert(all[i] == made[i]);
            if j < made.len() {
                assert(all[j] == made[j]);
            }
        }
    }
}

/// The usual spelling of a source tag.
pub open spec fn canonical_source(s: Seq<char>) -> Seq<char> {
    if s == "BRRip"@ {
        "BDRip"@
    } else {
        s
    }
}

/// Spells a source tag the usual way.
pub fn canonicalise_source(s: &str) -> (r: String)
    ensures
        r@ == canonical_source(s@),
{
    if text::same_text(s, "BRRip") {
        "BDRip".to_string()
    } else {
        s.to_string()
    }
}

/// The usual spelling of an audio format tag.
pub open spec fn canonical_audio(s: Seq<char>) -> Seq<char> {
    if s == "DD5.1"@ {
        "AC3"@
    } else if s == "DDP5.1"@ {
        "DDP"@
    } else {
        s
    }
}

/// Spells an audio format tag the usual way.
pub fn canonicalise_audio(s: &str) -> (r: String)
    ensures
        r@ == canonical_audio(s@),
{
    if text::same_text(s, "DD5.1") {
        "AC3".to_string()
    } else if text::same_text(s, "DDP5.1") {
        "DDP".to_string()
    } else {
        s.to_string()
    }
}

/// The fields of a movie with the value of a claim written in.
pub open spec fn with_claim(m: MovieFields, c: ClaimView) -> MovieFields {
    match c.field {
        ParseField::Year => match text::number(c.value) {
            Some(y) => MovieFields { year: from_name(y, Confidence::High), ..m },
            None => m,
        },
        ParseField::Resolution => MovieFields {
            resolution: from_name(c.value, Confidence::Medium),
            ..m
        },
        ParseField::Source => MovieFields {
            source: from_name(canonical_source(c.value), Confidence::Medium),
            ..m
        },
        ParseField::VideoCodec => MovieFields {
            video_codec: from_name(c.value, Confidence::Medium),
            ..m
        },
        ParseField::AudioFormat => MovieFields {
            audio_format: from_name(canonical_audio(c.value), Confidence::Medium),
            ..m
        },
        ParseField::Hdr => MovieFields { hdr: from_name(c.value, Confidence::Medium), ..m },
        ParseField::Edition => MovieFields { edition: from_name(c.value, Confidence::Medium), ..m },
        ParseField::Language => MovieFields { language: from_name(c.value, Confidence::Medium), ..m },
        ParseField::ReleaseGroup => MovieFields {
            release_group: from_name(c.value, Confidence::Low),
            ..m
        },
        ParseField::Copy => match text::number(c.value) {
            Some(n) => MovieFields { copy: from_name(n, Confidence::High), ..m },
            None => m,
        },
    }
}

/// The fields of a movie with the values of claims written in, in order.
pub open spec fn with_claims(m: MovieFields, claims: Seq<ClaimView>) -> MovieFields
    decreases claims.len(),
{
    if claims.len() == 0 {
        m
    } else {
        with_claim(with_claims(m, claims.drop_last()), claims.last())
    }
}

/// Writes the value of a claim into the fields of a movie.
pub fn set_field(movie: &mut ParsedMovie, claim: &Claim)
    ensures
        final(movie).deep_view() == with_claim(old(movie).deep_view(), claim.deep_view()),
{
    let src = Source::Filename;
    match claim.field {
        ParseField::Year => {
            if let Some(y) = text::parse_number(&claim.value) {
                movie.year = known(y, src, Confidence::High);
            }
        },
        ParseField::Resolution => {
            movie.resolution = known(claim.value.clone(), src, Confidence::Medium);
        },
        ParseField::Source => {
            movie.source = known(canonicalise_source(&claim.value), src, Confidence::Medium);
        },
        ParseField::VideoCodec => {
            movie.video_codec = known(claim.value.clone(), src, Confidence::Medium);
        },
        ParseField::AudioFormat => {
            movie.audio_format = known(canonicalise_audio(&claim.value), src, Confidence::Medium);
        },
        ParseField::Hdr => {
            movie.hdr = known(claim.value.clone(), src, Confidence::Medium);
        },
        ParseField::Edition => {
            movie.edition = known(claim.value.clone(), src, Confidence::Medium);
        },
        ParseField::Language => {
            movie.language = known(claim.value.clone(), src, Confidence::Medium);
        },
        ParseField::ReleaseGroup => {
            movie.release_group = known(claim.value.clone(), src, Confidence::Low);
        },
        ParseField::Copy => {
            if let Some(n) = text::parse_number(&claim.value) {
                movie.copy = known(n, src, Confidence::High);
            }
        },
    }
}

/// The earliest start of a claim, or `otherwise` where there is none earlier.
pub open spec fn first_start(claims: Seq<ClaimView>, otherwise: nat) -> nat
    decreases claims.len(),
{
    if claims.len() == 0 {
        otherwise
    } else {
        let rest = first_start(claims.drop_last(), otherwise);
        if claims.last().start < rest {
            claims.last().start
        } else {
            rest
        }
    }
}

/// The earliest start of a claim, or `otherwise` where there is none earlier.
pub fn earliest_start(claims: &Vec<Claim>, otherwise: usize) -> (r: usize)
    ensures
        r as nat == first_start(claims.deep_view(), otherwise as nat),
{
    let ghost v = claims.deep_view();
    let mut best: usize = otherwise;
    let mut i: usize = 0;
    while i < claims.len()
        invariant
            i <= claims@.len(),
            v == claims.deep_view(),
            best as nat == first_start(v.take(i as int), otherwise as nat),
        decreases claims@.len() - i,
    {
        proof {
            assert(v.take(i + 1).drop_last() =~= v.take(i as int));
            assert(v.take(i + 1).last() == claims@[i as int].deep_view());
        }
        if claims[i].start < best {
            best = claims[i].start;
        }
        i = i + 1;
    }
    proof {
        assert(v.take(i as int) =~= v);
    }
    best
}

/// The texts of the tokens that lie between two positions.
pub open spec fn texts_between(tokens: Seq<TokenView>, from: nat, to: nat) -> Seq<Seq<char>>
    decreases tokens.len(),
{
    if tokens.len() == 0 {
        Seq::empty()
    } else {
        let rest = texts_between(tokens.drop_last(), from, to);
        let t = tokens.last();
        if from <= t.start && t.end <= to {
            rest.push(t.text)
        } else {
            rest
        }
    }
}

/// Gathers the texts of the tokens that lie between two positions.
pub fn gather_between(tokens: &Vec<Token>, from: usize, to: usize) -> (r: Vec<Vec<char>>)
    ensures
        text::texts(r@) == texts_between(tokens.deep_view(), from as nat, to as nat),
{
    let ghost v = tokens.deep_view();
    let mut out: Vec<Vec<char>> = Vec::new();
    let mut i: usize = 0;
    proof {
        assert(text::texts(out@) =~= Seq::empty());
    }
    while i < tokens.len()
        invariant
            i <= tokens@.len(),
            v == tokens.deep_view(),
            text::texts(out@) == texts_between(v.take(i as int), from as nat, to as nat),
        decreases tokens@.len() - i,
    {
        let ghost before = text::texts(out@);
        proof {
            assert(v.take(i + 1).drop_last() =~= v.take(i as int));
            assert(v.take(i + 1).last() == tokens@[i as int].deep_view());
        }
        if from <= tokens[i].start && tokens[i].end <= to {
            out.push(text::to_chars(tokens[i].as_str()));
            proof {
                assert(text::texts(out@) =~= before.push(tokens@[i as int].text@));
            }
        }
        i = i + 1;
    }
    proof {
        assert(v.take(i as int) =~= v);
    }
    out
}

/// Words put together as a phrase: joined by spaces, none at the ends.
pub open spec fn phrase(words: Seq<Seq<char>>) -> Seq<char> {
    text::trim(text::join(words, seq![' ']), CharClass::Space)
}

/// Puts words together as a phrase.
pub fn make_phrase(words: &Vec<Vec<char>>) -> (r: String)
    ensures
        r@ == phrase(text::texts(words@)),
{
    let space: Vec<char> = vec![' '];
    proof {
        assert(space@ =~= seq![' ']);
    }
    text::to_text(&text::trimmed(&text::joined(words, &space), Class::Space))
}

/// The spans that the movie extractors claim, in order of priority.
pub open spec fn movie_candidates(
    tokens: Seq<TokenView>,
    normalised: Seq<char>,
    opts: ParseOptions,
) -> Seq<Option<ClaimView>> {
    seq![
        ResolutionExtractor.claim_of(tokens, normalised),
        SourceExtractor.claim_of(tokens, normalised),
        VideoCodecExtractor.claim_of(tokens, normalised),
        AudioFormatExtractor.claim_of(tokens, normalised),
        HdrExtractor.claim_of(tokens, normalised),
        EditionExtractor.claim_of(tokens, normalised),
        crate::parse::extractors::year_claim(tokens, opts.min_year, opts.max_year),
        CopyNumberExtractor.claim_of(tokens, normalised),
    ]
}

/// The fields of a movie, from the tokens of its name, the claims on them and
/// the release group.
pub open spec fn movie_from(
    tokens: Seq<TokenView>,
    length: nat,
    claims: Seq<ClaimView>,
    group: Option<Seq<char>>,
) -> MovieFields {
    let tagged = with_claims(MovieFields::blank(), claims);
    let title = phrase(texts_between(tokens, 0, first_start(claims, length)));
    let titled = if title.len() > 0 {
        MovieFields { title: from_name(title, Confidence::Medium), ..tagged }
    } else {
        tagged
    };
    match group {
        Some(g) => MovieFields { release_group: from_name(g, Confidence::Low), ..titled },
        None => titled,
    }
}

/// The fields that a movie filename gives.
pub open spec fn movie_fields(filename: Seq<char>, opts: ParseOptions) -> MovieFields {
    let tokens = tokens_of(filename);
    let normalised = normal_form(filename);
    if tokens.len() == 0 {
        MovieFields::blank()
    } else {
        movie_from(
            tokens,
            text::utf8_len(normalised),
            accepted(movie_candidates(tokens, normalised, opts)),
            group_of(filename),
        )
    }
}

/// Puts the fields of a movie together from the tokens of its name, the claims
/// on them and the release group.
pub fn assemble_movie(
    tokens: &Vec<Token>,
    length: usize,
    claims: &Vec<Claim>,
    group: Option<String>,
) -> (r: ParsedMovie)
    ensures
        r.deep_view() == movie_from(
            tokens.deep_view(),
            length as nat,
            claims.deep_view(),
            group.deep_view(),
        ),
{
    let mut movie = ParsedMovie::new();
    let ghost v = claims.deep_view();
    let mut i: usize = 0;
    while i < claims.len()
        invariant
            i <= claims@.len(),
            v == claims.deep_view(),
            movie.deep_view() == with_claims(MovieFields::blank(), v.take(i as int)),
        decreases claims@.len() - i,
    {
        proof {
            assert(v.take(i + 1).drop_last() =~= v.take(i as int));
            assert(v.take(i + 1).last() == claims@[i as int].deep_view());
        }
        set_field(&mut movie, &claims[i]);
        i = i + 1;
    }
    proof {
        assert(v.take(i as int) =~= v);
    }
    let first_anchor: usize = earliest_start(claims, length);
    let title = make_phrase(&gather_between(tokens, 0, first_anchor));
    if !title.as_str().is_empty() {
        movie.title = known(title, Source::Filename, Confidence::Medium);
    }
    if let Some(g) = group {
        movie.release_group = known(g, Source::Filename, Confidence::Low);
    }
    movie
}

/// Makes the claims of the movie extractors on a tokenised name.
fn claim_movie(tokens: &Vec<Token>, normalised: &str, opts: &ParseOptions) -> (r: Vec<Claim>)
    ensures
        r.deep_view() == accepted(movie_candidates(tokens.deep_view(), normalised@, *opts)),
        names_no_edition(normalised@) ==> pattern::captures_of(
            edition_pattern(),
            normalised@,
        ) is None,
{
    let edition = EditionExtractor.extract(tokens, normalised);
    let candidates: Vec<Option<Claim>> = vec![
        ResolutionExtractor.extract(tokens, normalised),
        SourceExtractor.extract(tokens, normalised),
        VideoCodecExtractor.extract(tokens, normalised),
        AudioFormatExtractor.extract(tokens, normalised),
        HdrExtractor.extract(tokens, normalised),
        edition,
        YearExtractor::new(opts.min_year, opts.max_year).extract(tokens, normalised),
        CopyNumberExtractor.extract(tokens, normalised),
    ];
    proof {
        assert(candidates.deep_view() =~= movie_candidates(tokens.deep_view(), normalised@, *opts));
    }
    accept(&candidates)
}

/// Parse a filename as a movie, returning the structured fields. Language is
/// left alone: short language codes collide with common title words.
pub fn parse_movie_filename(filename: &str, opts: &ParseOptions) -> (r: ParsedMovie)
    ensures
        r.deep_view() == movie_fields(filename@, *opts),
        // The name of a movie with a plain title is parsed back.
        forall|ws: Seq<Seq<char>>, year: Option<u16>, ext: Seq<char>| #[trigger]
            names_movie(filename@, ws, year, ext) && is_year_within(year, *opts) ==> r.deep_view()
                == plain_fields(ws, year),
{
    let normalised = normalise(filename);
    let tokens = tokenize(filename);
    if tokens.len() == 0 {
        proof {
            assert forall|ws: Seq<Seq<char>>, year: Option<u16>, ext: Seq<char>| #[trigger]
                names_movie(filename@, ws, year, ext) && is_year_within(
                    year,
                    *opts,
                ) implies movie_fields(filename@, *opts) == plain_fields(ws, year) by {
                lemma_names_movie(filename@, ws, year, ext);
            }
        }
        return ParsedMovie::new();
    }
    let claims = claim_movie(&tokens, &normalised, opts);
    proof {
        assert forall|ws: Seq<Seq<char>>, year: Option<u16>, ext: Seq<char>| #[trigger]
            names_movie(filename@, ws, year, ext) && is_year_within(year, *opts) implies movie_fields(
            filename@,
            *opts,
        ) == plain_fields(ws, year) by {
            lemma_names_movie(filename@, ws, year, ext);
            law_plain_name_is_parsed_back(ws, year, ext, *opts);
        }
    }
    assemble_movie(&tokens, text::byte_len(&normalised), &claims, release_group_of(filename))
}

/// Parse a filename as a movie (convenience with default options).
pub fn parse_movie(filename: &str) -> (r: MediaParse)
    ensures
        r matches MediaParse::Movie(m) && m.deep_view() == movie_fields(
            filename@,
            (ParseOptions { min_year: 1888, max_year: 2030 }),
        ),
        r matches MediaParse::Movie(m) ==> forall|
            ws: Seq<Seq<char>>,
            year: Option<u16>,
            ext: Seq<char>,
        | #[trigger]
            names_movie(filename@, ws, year, ext) && is_year_within(
                year,
                (ParseOptions { min_year: 1888, max_year: 2030 }),
            ) ==> m.deep_view() == plain_fields(ws, year),
{
    MediaParse::Movie(parse_movie_filename(filename, &ParseOptions::default()))
}

/// Claims write in what comes from the name.
proof fn lemma_claims_come_from_name(m: MovieFields, claims: Seq<ClaimView>)
    requires
        m.comes_from_name(),
    ensures
        with_claims(m, claims).comes_from_name(),
    decreases claims.len(),
{
    if claims.len() > 0 {
        lemma_claims_come_from_name(m, claims.drop_last());
    }
}

/// Everything that a movie filename gives is said to come from the name: nothing is
/// a default, and nothing is invented.
pub proof fn law_movie_fields_come_from_name(filename: Seq<char>, opts: ParseOptions)
    ensures
        movie_fields(filename, opts).comes_from_name(),
{
    lemma_claims_come_from_name(
        MovieFields::blank(),
        accepted(movie_candidates(tokens_of(filename), normal_form(filename), opts)),
    );
}

} // verus!
