//! What a rendered movie name is parsed back to.

use crate::domain::provenance::Confidence;
use crate::domain::template::{all_present, rendered, SegmentView, ValueSource};
use crate::parse::extractors::{
    bare_year, bracketed_year, copy_claim, edition_pattern, is_bracketed, names_no_edition,
    something_before, unbracketed, vocab_claim, vocab_word, year_claim, year_in, ClaimView,
    ParseField,
};
use crate::parse::model::{MovieFields, ParseOptions};
use crate::parse::parser::{
    accepted, first_start, from_name, movie_candidates, movie_fields, overlaps_any, phrase,
    texts_between, with_claim, with_claims,
};
use crate::parse::tokens::{
    base_name, bracketed_group, dashed_group, group_of, law_tokens_are_words, law_tokens_in_order,
    normal_form, separators, split_group, token_texts, tokens_from, tokens_of, TokenView,
};
use crate::parse::tv::PLACEHOLDER;
use crate::parse::vocab;
use crate::parse::words::{law_tokens_make_up_the_normal_form, one_apart};
use crate::pattern;
use crate::text;
use crate::text::CharClass;
use vstd::prelude::*;

verus! {

/// Whether a character is an ASCII letter.
pub open spec fn is_letter(c: char) -> bool {
    ('a' <= c && c <= 'z') || ('A' <= c && c <= 'Z')
}

/// Whether a text is a plain word: ASCII letters, at least one.
pub open spec fn is_plain_word(w: Seq<char>) -> bool {
    w.len() > 0 && forall|i: int| 0 <= i < w.len() ==> is_letter(#[trigger] w[i])
}

/// Whether words make a plain title: there is one, all are plain, and none has
/// a meaning of its own.
pub open spec fn is_plain_title(ws: Seq<Seq<char>>) -> bool {
    &&& ws.len() > 0
    &&& forall|i: int|
        0 <= i < ws.len() ==> is_plain_word(#[trigger] ws[i]) && !vocab::is_reserved(ws[i])
}

/// A year in round brackets.
pub open spec fn bracketed(y: u16) -> Seq<char> {
    seq!['('] + text::decimal(y as nat) + seq![')']
}

/// The words of a movie name: those of the title, and the year where there is
/// one.
pub open spec fn name_words(ws: Seq<Seq<char>>, year: Option<u16>) -> Seq<Seq<char>> {
    match year {
        Some(y) => ws.push(bracketed(y)),
        None => ws,
    }
}

/// The name of a movie: the title, and the year in brackets behind it where
/// there is one.
pub open spec fn movie_name(ws: Seq<Seq<char>>, year: Option<u16>) -> Seq<char> {
    text::join(ws, seq![' ']) + (match year {
        Some(y) => seq![' '] + bracketed(y),
        None => Seq::empty(),
    })
}

/// Whether a text is a word of a name: not empty, and of letters, digits and
/// round brackets.
pub open spec fn is_name_word(w: Seq<char>) -> bool {
    w.len() > 0 && forall|i: int| 0 <= i < w.len() ==> is_name_char(#[trigger] w[i])
}

/// Whether a character may stand in a word of a name.
pub open spec fn is_name_char(c: char) -> bool {
    is_letter(c) || text::is_digit(c) || c == '(' || c == ')'
}

/// The name is its words with spaces between them.
proof fn lemma_name_is_joined(ws: Seq<Seq<char>>, year: Option<u16>)
    requires
        ws.len() > 0,
    ensures
        movie_name(ws, year) == text::join(name_words(ws, year), seq![' ']),
{
    match year {
        Some(y) => {
            let all = name_words(ws, year);
            assert(all.drop_last() =~= ws);
            assert(all.last() == bracketed(y));
            assert(movie_name(ws, year) =~= text::join(ws, seq![' ']) + seq![' '] + bracketed(y));
        },
        None => {
            assert(movie_name(ws, year) =~= text::join(ws, seq![' ']));
        },
    }
}

/// A year in brackets is a word of a name.
proof fn lemma_bracketed(y: u16)
    ensures
        is_name_word(bracketed(y)),
        is_bracketed(bracketed(y)),
        unbracketed(bracketed(y)) == text::decimal(y as nat),
        text::number(text::decimal(y as nat)) == Some(y),
        text::all_digits(text::decimal(y as nat)),
        text::decimal(y as nat).len() > 0,
{
    text::lemma_decimal(y as nat);
    text::lemma_number_of_decimal(y);
    let d = text::decimal(y as nat);
    let b = bracketed(y);
    assert(b.subrange(1, b.len() - 1) =~= d);
    assert forall|i: int| 0 <= i < b.len() implies is_name_char(#[trigger] b[i]) by {
        if 0 < i < b.len() - 1 {
            assert(b[i] == d[i - 1]);
        }
    }
}

/// The characters of joined words are spaces and what stands in the words.
proof fn lemma_joined_chars(all: Seq<Seq<char>>, k: int)
    requires
        forall|i: int| 0 <= i < all.len() ==> is_name_word(#[trigger] all[i]),
        0 <= k < text::join(all, seq![' ']).len(),
    ensures
        text::join(all, seq![' '])[k] == ' ' || is_name_char(text::join(all, seq![' '])[k]),
    decreases all.len(),
{
    if all.len() == 1 {
        assert(is_name_word(all[0]));
    } else if all.len() > 1 {
        let head = text::join(all.drop_last(), seq![' ']);
        assert forall|i: int| 0 <= i < all.drop_last().len() implies is_name_word(
            #[trigger] all.drop_last()[i],
        ) by {
            assert(all.drop_last()[i] == all[i]);
        }
        if k < head.len() {
            lemma_joined_chars(all.drop_last(), k);
        } else if k > head.len() {
            assert(is_name_word(all[all.len() - 1]));
            assert(text::join(all, seq![' '])[k] == all.last()[k - head.len() - 1]);
        }
    }
}

/// The words of joined words from the back: what comes last is one word.
proof fn lemma_words_snoc(s: Seq<char>, w: Seq<char>)
    requires
        s.len() > 0,
        is_name_word(w),
    ensures
        text::words(s + seq![' '] + w) == text::words(s).push(w),
    decreases s.len(),
{
    let t = s + seq![' '] + w;
    let n = text::first_where(s, CharClass::Space, true);
    text::lemma_first_where(s, CharClass::Space, true);
    if n == 0 {
        assert(text::first_where(t, CharClass::Space, true) == 0) by {
            assert(t[0] == s[0]);
        }
        assert(t.skip(1) =~= s.skip(1) + seq![' '] + w);
        if s.len() == 1 {
            lemma_words_of_word(w);
            let u = t.skip(1);
            assert(u =~= seq![' '] + w);
            assert(u[0] == ' ');
            assert(text::first_where(u, CharClass::Space, true) == 0);
            assert(u.skip(1) =~= w);
            assert(s.skip(1) =~= Seq::empty());
            assert(text::words(s.skip(1)) =~= Seq::empty());
            assert(text::words(s) =~= Seq::empty());
            assert(text::words(u) =~= seq![w]);
            assert(text::words(t) =~= seq![w]);
            assert(text::words(s).push(w) =~= seq![w]);
        } else {
            lemma_words_snoc(s.skip(1), w);
        }
    } else {
        assert(text::first_where(t, CharClass::Space, true) == n) by {
            assert forall|j: int| 0 <= j < n implies !CharClass::Space.holds(#[trigger] t[j]) by {
                assert(t[j] == s[j]);
            }
            if n < s.len() {
                assert(t[n] == s[n]);
            } else {
                assert(t[n] == ' ');
            }
            text::lemma_first_where_is(t, CharClass::Space, true, n);
        }
        assert(t.take(n) =~= s.take(n));
        assert(t.skip(n) =~= s.skip(n) + seq![' '] + w);
        if n < s.len() {
            lemma_words_snoc(s.skip(n), w);
            assert(text::words(t) =~= text::words(s).push(w));
        } else {
            lemma_words_of_word(w);
            let u = t.skip(n);
            assert(s.skip(n) =~= Seq::empty());
            assert(u =~= seq![' '] + w);
            assert(u[0] == ' ');
            assert(text::first_where(u, CharClass::Space, true) == 0);
            assert(u.skip(1) =~= w);
            assert(text::words(s.skip(n)) =~= Seq::empty());
            assert(text::words(u) =~= seq![w]);
            assert(text::words(t) =~= seq![s.take(n)] + seq![w]);
            assert(text::words(s).push(w) =~= seq![s.take(n), w]);
        }
    }
}

/// A word is its only word.
pub(crate) proof fn lemma_words_of_word(w: Seq<char>)
    requires
        is_name_word(w),
    ensures
        text::words(w) == seq![w],
{
    let n = w.len() as int;
    assert forall|j: int| 0 <= j < n implies !CharClass::Space.holds(#[trigger] w[j]) by {
        assert(is_name_char(w[j]));
    }
    text::lemma_first_where(w, CharClass::Space, true);
    assert(text::first_where(w, CharClass::Space, true) == n);
    assert(w.take(n) =~= w);
    assert(w.skip(n) =~= Seq::empty());
    assert(text::words(w.skip(n)) =~= Seq::empty());
    assert(text::words(w) =~= seq![w]);
}

/// The words of joined words are those words.
proof fn lemma_words_of_join(all: Seq<Seq<char>>)
    requires
        all.len() > 0,
        forall|i: int| 0 <= i < all.len() ==> is_name_word(#[trigger] all[i]),
    ensures
        text::words(text::join(all, seq![' '])) == all,
        text::join(all, seq![' ']).len() > 0,
    decreases all.len(),
{
    assert(is_name_word(all[0]));
    if all.len() == 1 {
        lemma_words_of_word(all[0]);
        assert(seq![all[0]] =~= all);
    } else {
        let head = all.drop_last();
        assert forall|i: int| 0 <= i < head.len() implies is_name_word(#[trigger] head[i]) by {
            assert(head[i] == all[i]);
        }
        lemma_words_of_join(head);
        assert(is_name_word(all[all.len() - 1]));
        lemma_words_snoc(text::join(head, seq![' ']), all.last());
        assert(head.push(all.last()) =~= all);
    }
}

/// The name is what stands before the extension.
pub(crate) proof fn lemma_base_name(name: Seq<char>, ext: Seq<char>)
    requires
        !ext.contains('.'),
    ensures
        base_name(name + seq!['.'] + ext) == name,
{
    let s = name + seq!['.'] + ext;
    let dot = name.len() as int;
    assert(s[dot] == '.');
    assert forall|j: int| dot < j < s.len() implies s[j] != '.' by {
        assert(s[j] == ext[j - dot - 1]);
    }
    text::lemma_last_where(s, CharClass::Is('.'), true);
    let last = text::last_where(s, CharClass::Is('.'), true);
    assert(last == dot);
    assert(s.take(dot) =~= name);
}

/// A name has no release group, and is its own normal form.
proof fn lemma_normal_name(all: Seq<Seq<char>>, ext: Seq<char>)
    requires
        all.len() > 0,
        forall|i: int| 0 <= i < all.len() ==> is_name_word(#[trigger] all[i]),
        !ext.contains('.'),
    ensures
        normal_form(text::join(all, seq![' ']) + seq!['.'] + ext) == text::join(all, seq![' ']),
        group_of(text::join(all, seq![' ']) + seq!['.'] + ext) is None,
{
    let name = text::join(all, seq![' ']);
    lemma_words_of_join(all);
    lemma_base_name(name, ext);
    assert forall|k: int| 0 <= k < name.len() implies name[k] == ' ' || is_name_char(
        #[trigger] name[k],
    ) by {
        lemma_joined_chars(all, k);
    }
    text::lemma_last_where(name, CharClass::Is('-'), true);
    let dash = text::last_where(name, CharClass::Is('-'), true);
    assert(dash < 0) by {
        if dash >= 0 {
            assert(name[dash] == '-');
        }
    }
    assert(name[name.len() - 1] != ']');
    assert(bracketed_group(name) is None);
    assert(dashed_group(name) is None);
    assert(split_group(name) == (name, None::<Seq<char>>));
    assert(text::spaced(name, separators()) =~= name) by {
        assert forall|k: int| 0 <= k < name.len() implies !separators().holds(
            #[trigger] name[k],
        ) by {
            let set = seq!['.', '_', '+'];
            if set.contains(name[k]) {
                let i = choose|i: int| 0 <= i < set.len() && set[i] == name[k];
            }
        }
    }
}

/// Every word of the list begins with a letter or a digit, and none is a number.
proof fn lemma_resolution_words(i: int)
    requires
        0 <= i < vocab::resolution_words().len(),
    ensures
        vocab::resolution_words()[i].len() > 0,
        is_letter(vocab::resolution_words()[i][0]) || text::is_digit(vocab::resolution_words()[i][0]),
        !text::all_digits(vocab::resolution_words()[i]),
        vocab::is_reserved(vocab::resolution_words()[i]),
{
    reveal_strlit("4320p");
    reveal_strlit("8K");
    reveal_strlit("2160p");
    reveal_strlit("4K");
    reveal_strlit("1440p");
    reveal_strlit("1080p");
    reveal_strlit("720p");
    reveal_strlit("576p");
    reveal_strlit("480p");
    let w = vocab::resolution_words()[i];
    assert(!text::is_digit(w[0]) || !text::is_digit(w[w.len() - 1]));
    let at: int = i + 0;
    assert(vocab::reserved_words()[at] == w);
}

/// Every word of the list begins with a letter or a digit, and none is a number.
proof fn lemma_source_words(i: int)
    requires
        0 <= i < vocab::source_words().len(),
    ensures
        vocab::source_words()[i].len() > 0,
        is_letter(vocab::source_words()[i][0]) || text::is_digit(vocab::source_words()[i][0]),
        !text::all_digits(vocab::source_words()[i]),
        vocab::is_reserved(vocab::source_words()[i]),
{
    reveal_strlit("REMUX");
    reveal_strlit("BluRay");
    reveal_strlit("BDRip");
    reveal_strlit("BRRip");
    reveal_strlit("WEB-DL");
    reveal_strlit("WEBDL");
    reveal_strlit("WEB-Rip");
    reveal_strlit("WEBRip");
    reveal_strlit("HDRip");
    reveal_strlit("DVDRip");
    reveal_strlit("DVD-Rip");
    reveal_strlit("HDTV");
    reveal_strlit("PDTV");
    reveal_strlit("VHSRip");
    reveal_strlit("CAM");
    reveal_strlit("TS");
    reveal_strlit("TC");
    reveal_strlit("SCR");
    reveal_strlit("R5");
    reveal_strlit("LD");
    let w = vocab::source_words()[i];
    assert(!text::is_digit(w[0]) || !text::is_digit(w[w.len() - 1]));
    let at: int = i + vocab::resolution_words().len();
    assert(vocab::reserved_words()[at] == w);
}

/// Every word of the list begins with a letter or a digit, and none is a number.
proof fn lemma_video_codec_words(i: int)
    requires
        0 <= i < vocab::video_codec_words().len(),
    ensures
        vocab::video_codec_words()[i].len() > 0,
        is_letter(vocab::video_codec_words()[i][0]) || text::is_digit(vocab::video_codec_words()[i][0]),
        !text::all_digits(vocab::video_codec_words()[i]),
        vocab::is_reserved(vocab::video_codec_words()[i]),
{
    reveal_strlit("x265");
    reveal_strlit("x264");
    reveal_strlit("h265");
    reveal_strlit("h264");
    reveal_strlit("HEVC");
    reveal_strlit("AVC");
    reveal_strlit("XviD");
    reveal_strlit("DivX");
    reveal_strlit("AV1");
    reveal_strlit("VP9");
    let w = vocab::video_codec_words()[i];
    assert(!text::is_digit(w[0]) || !text::is_digit(w[w.len() - 1]));
    let at: int = i + vocab::resolution_words().len() + vocab::source_words().len();
    assert(vocab::reserved_words()[at] == w);
}

/// Every word of the list begins with a letter or a digit, and none is a number.
proof fn lemma_audio_words(i: int)
    requires
        0 <= i < vocab::audio_words().len(),
    ensures
        vocab::audio_words()[i].len() > 0,
        is_letter(vocab::audio_words()[i][0]) || text::is_digit(vocab::audio_words()[i][0]),
        !text::all_digits(vocab::audio_words()[i]),
        vocab::is_reserved(vocab::audio_words()[i]),
{
    reveal_strlit("Atmos");
    reveal_strlit("TrueHD");
    reveal_strlit("DTS-HD");
    reveal_strlit("DTS-HD MA");
    reveal_strlit("DTS");
    reveal_strlit("DDP5.1");
    reveal_strlit("DDP");
    reveal_strlit("DD5.1");
    reveal_strlit("E-AC3");
    reveal_strlit("AC3");
    reveal_strlit("AAC");
    reveal_strlit("FLAC");
    reveal_strlit("MP3");
    reveal_strlit("Vorbis");
    reveal_strlit("Opus");
    let w = vocab::audio_words()[i];
    assert(!text::is_digit(w[0]) || !text::is_digit(w[w.len() - 1]));
    let at: int = i + vocab::resolution_words().len() + vocab::source_words().len()
        + vocab::video_codec_words().len();
    assert(vocab::reserved_words()[at] == w);
}

/// Every word of the list begins with a letter or a digit, and none is a number.
proof fn lemma_hdr_words(i: int)
    requires
        0 <= i < vocab::hdr_words().len(),
    ensures
        vocab::hdr_words()[i].len() > 0,
        is_letter(vocab::hdr_words()[i][0]) || text::is_digit(vocab::hdr_words()[i][0]),
        !text::all_digits(vocab::hdr_words()[i]),
        vocab::is_reserved(vocab::hdr_words()[i]),
{
    reveal_strlit("HDR10+");
    reveal_strlit("HDR10");
    reveal_strlit("HDR");
    reveal_strlit("Dolby Vision");
    reveal_strlit("DV");
    reveal_strlit("HLG");
    reveal_strlit("SDR");
    let w = vocab::hdr_words()[i];
    assert(!text::is_digit(w[0]) || !text::is_digit(w[w.len() - 1]));
    let at: int = i + vocab::resolution_words().len() + vocab::source_words().len()
        + vocab::video_codec_words().len() + vocab::audio_words().len();
    assert(vocab::reserved_words()[at] == w);
}

/// Whether a list of words holds tags: reserved words that begin with a letter
/// or a digit, none of them a number.
pub open spec fn is_tag_list(list: Seq<Seq<char>>) -> bool {
    forall|i: int|
        0 <= i < list.len() ==> vocab::is_reserved(#[trigger] list[i]) && list[i].len() > 0
            && (is_letter(list[i][0]) || text::is_digit(list[i][0])) && !text::all_digits(list[i])
}

/// The vocabularies are lists of tags.
pub(crate) proof fn lemma_vocabularies()
    ensures
        is_tag_list(vocab::resolution_words()),
        is_tag_list(vocab::source_words()),
        is_tag_list(vocab::video_codec_words()),
        is_tag_list(vocab::audio_words()),
        is_tag_list(vocab::hdr_words()),
{
    assert forall|i: int| 0 <= i < vocab::resolution_words().len() implies vocab::is_reserved(
        #[trigger] vocab::resolution_words()[i],
    ) && vocab::resolution_words()[i].len() > 0 && (is_letter(vocab::resolution_words()[i][0]) || text::is_digit(
        vocab::resolution_words()[i][0],
    )) && !text::all_digits(vocab::resolution_words()[i]) by {
        lemma_resolution_words(i);
    }
    assert forall|i: int| 0 <= i < vocab::source_words().len() implies vocab::is_reserved(
        #[trigger] vocab::source_words()[i],
    ) && vocab::source_words()[i].len() > 0 && (is_letter(vocab::source_words()[i][0]) || text::is_digit(
        vocab::source_words()[i][0],
    )) && !text::all_digits(vocab::source_words()[i]) by {
        lemma_source_words(i);
    }
    assert forall|i: int| 0 <= i < vocab::video_codec_words().len() implies vocab::is_reserved(
        #[trigger] vocab::video_codec_words()[i],
    ) && vocab::video_codec_words()[i].len() > 0 && (is_letter(vocab::video_codec_words()[i][0]) || text::is_digit(
        vocab::video_codec_words()[i][0],
    )) && !text::all_digits(vocab::video_codec_words()[i]) by {
        lemma_video_codec_words(i);
    }
    assert forall|i: int| 0 <= i < vocab::audio_words().len() implies vocab::is_reserved(
        #[trigger] vocab::audio_words()[i],
    ) && vocab::audio_words()[i].len() > 0 && (is_letter(vocab::audio_words()[i][0]) || text::is_digit(
        vocab::audio_words()[i][0],
    )) && !text::all_digits(vocab::audio_words()[i]) by {
        lemma_audio_words(i);
    }
    assert forall|i: int| 0 <= i < vocab::hdr_words().len() implies vocab::is_reserved(
        #[trigger] vocab::hdr_words()[i],
    ) && vocab::hdr_words()[i].len() > 0 && (is_letter(vocab::hdr_words()[i][0]) || text::is_digit(
        vocab::hdr_words()[i][0],
    )) && !text::all_digits(vocab::hdr_words()[i]) by {
        lemma_hdr_words(i);
    }
}

/// Texts that are equal but for case have letters and digits at the same
/// places.
proof fn lemma_same_letters(a: Seq<char>, b: Seq<char>)
    requires
        text::eq_ignore_case(a, b),
    ensures
        a.len() == b.len(),
        text::all_digits(a) ==> text::all_digits(b),
        a.len() > 0 && !is_letter(a[0]) ==> b[0] == a[0],
{
    let x = text::ascii_lowercase(a);
    let y = text::ascii_lowercase(b);
    assert(x.len() == a.len());
    assert(y.len() == b.len());
    assert forall|i: int| 0 <= i < a.len() implies text::ascii_lower(a[i]) == text::ascii_lower(
        b[i],
    ) by {
        assert(x[i] == y[i]);
    }
    if text::all_digits(a) {
        assert forall|i: int| 0 <= i < b.len() implies text::is_digit(#[trigger] b[i]) by {
            assert(text::is_digit(a[i]));
            assert(text::ascii_lower(a[i]) == text::ascii_lower(b[i]));
        }
    }
    if a.len() > 0 {
        assert(text::ascii_lower(a[0]) == text::ascii_lower(b[0]));
    }
}

/// Whether a text has no meaning of its own in a name: a plain word that is not
/// reserved, or one that begins with a dash or is the placeholder of a marker.
pub open spec fn is_idle(w: Seq<char>) -> bool {
    (is_plain_word(w) && !vocab::is_reserved(w)) || (w.len() > 0 && (w[0] == '-' || w[0]
        == PLACEHOLDER))
}

/// A word that has no meaning of its own spells no tag.
proof fn lemma_no_tag(list: Seq<Seq<char>>, w: Seq<char>)
    requires
        is_tag_list(list),
        is_idle(w) || (w.len() > 0 && w[0] == '(' && is_bracketed(w) && text::all_digits(
            unbracketed(w),
        )),
    ensures
        vocab_word(list, w) is None,
    decreases list.len(),
{
    if list.len() > 0 {
        let tag = list[0];
        assert(vocab::is_reserved(tag));
        if is_plain_word(w) {
            assert(is_letter(w[0]));
            assert(unbracketed(w) == w);
            if text::eq_ignore_case(w, tag) {
                let k = choose|k: int|
                    0 <= k < vocab::reserved_words().len() && text::eq_ignore_case(
                        #[trigger] vocab::reserved_words()[k],
                        tag,
                    );
                assert(text::eq_ignore_case(vocab::reserved_words()[k], w));
            }
        } else {
            if text::eq_ignore_case(w, tag) {
                lemma_same_letters(w, tag);
            }
            if text::eq_ignore_case(unbracketed(w), tag) {
                lemma_same_letters(unbracketed(w), tag);
            }
        }
        assert forall|i: int| 0 <= i < list.skip(1).len() implies vocab::is_reserved(
            #[trigger] list.skip(1)[i],
        ) && list.skip(1)[i].len() > 0 && (is_letter(list.skip(1)[i][0]) || text::is_digit(
            list.skip(1)[i][0],
        )) && !text::all_digits(list.skip(1)[i]) by {
            assert(list.skip(1)[i] == list[i + 1]);
        }
        lemma_no_tag(list.skip(1), w);
    }
}

/// Whether a token text is a word of a plain name.
spec fn is_plain_token(w: Seq<char>) -> bool {
    (is_plain_word(w) && !vocab::is_reserved(w)) || (w.len() > 0 && w[0] == '(' && is_bracketed(w)
        && text::all_digits(unbracketed(w)))
}

/// Plain tokens spell no tag.
proof fn lemma_no_claim(field: ParseField, list: Seq<Seq<char>>, tokens: Seq<TokenView>)
    requires
        is_tag_list(list),
        forall|i: int| 0 <= i < tokens.len() ==> is_plain_token((#[trigger] tokens[i]).text),
    ensures
        vocab_claim(field, list, tokens) is None,
    decreases tokens.len(),
{
    if tokens.len() > 0 {
        assert(is_plain_token(tokens[0].text));
        lemma_no_tag(list, tokens[0].text);
        assert forall|i: int| 0 <= i < tokens.skip(1).len() implies is_plain_token(
            (#[trigger] tokens.skip(1)[i]).text,
        ) by {
            assert(tokens.skip(1)[i] == tokens[i + 1]);
        }
        lemma_no_claim(field, list, tokens.skip(1));
    }
}

/// A plain word is no year.
proof fn lemma_word_is_no_year(w: Seq<char>, least: u16, greatest: u16)
    requires
        is_plain_word(w),
    ensures
        year_in(w, least, greatest) is None,
        !is_bracketed(w),
{
    assert(is_letter(w[0]));
    assert(text::unsigned_part(w) == w);
    assert(!text::is_digit(w[0]));
}

/// The only bracketed year among tokens is the last one.
proof fn lemma_bracketed_year_is_last(tokens: Seq<TokenView>, y: u16, least: u16, greatest: u16)
    requires
        tokens.len() > 0,
        forall|i: int| 0 <= i < tokens.len() - 1 ==> is_plain_word((#[trigger] tokens[i]).text),
        tokens.last().text == bracketed(y),
        least <= y <= greatest,
    ensures
        bracketed_year(tokens, least, greatest) == Some(
            ClaimView {
                field: ParseField::Year,
                value: text::decimal(y as nat),
                start: tokens.last().start,
                end: tokens.last().end,
            },
        ),
    decreases tokens.len(),
{
    if tokens.len() == 1 {
        lemma_bracketed(y);
    } else {
        assert(is_plain_word(tokens[0].text));
        lemma_word_is_no_year(tokens[0].text, least, greatest);
        let rest = tokens.skip(1);
        assert forall|i: int| 0 <= i < rest.len() - 1 implies is_plain_word(
            (#[trigger] rest[i]).text,
        ) by {
            assert(rest[i] == tokens[i + 1]);
        }
        assert(rest.last() == tokens.last());
        lemma_bracketed_year_is_last(rest, y, least, greatest);
    }
}

/// There is no year among plain words.
proof fn lemma_no_year(tokens: Seq<TokenView>, n: int, least: u16, greatest: u16)
    requires
        0 <= n <= tokens.len(),
        forall|i: int| 0 <= i < tokens.len() ==> is_plain_word((#[trigger] tokens[i]).text),
    ensures
        bare_year(tokens, n, least, greatest) is None,
    decreases n,
{
    if n > 0 {
        assert(is_plain_word(tokens[n - 1].text));
        lemma_word_is_no_year(tokens[n - 1].text, least, greatest);
        lemma_no_year(tokens, n - 1, least, greatest);
    }
}

/// There is no bracketed year among plain words.
proof fn lemma_no_bracketed_year(tokens: Seq<TokenView>, least: u16, greatest: u16)
    requires
        forall|i: int| 0 <= i < tokens.len() ==> is_plain_word((#[trigger] tokens[i]).text),
    ensures
        bracketed_year(tokens, least, greatest) is None,
    decreases tokens.len(),
{
    if tokens.len() > 0 {
        assert(is_plain_word(tokens[0].text));
        lemma_word_is_no_year(tokens[0].text, least, greatest);
        assert forall|i: int| 0 <= i < tokens.skip(1).len() implies is_plain_word(
            (#[trigger] tokens.skip(1)[i]).text,
        ) by {
            assert(tokens.skip(1)[i] == tokens[i + 1]);
        }
        lemma_no_bracketed_year(tokens.skip(1), least, greatest);
    }
}

/// The tokens that end by a place are the first ones.
proof fn lemma_texts_between(tokens: Seq<TokenView>, n: int, to: nat)
    requires
        0 <= n <= tokens.len(),
        forall|i: int| 0 <= i < n ==> (#[trigger] tokens[i]).end <= to,
        forall|i: int| n <= i < tokens.len() ==> (#[trigger] tokens[i]).end > to,
    ensures
        texts_between(tokens, 0, to) == token_texts(tokens.take(n)),
    decreases tokens.len(),
{
    if tokens.len() > 0 {
        let head = tokens.drop_last();
        let m = if n == tokens.len() { n - 1 } else { n };
        assert forall|i: int| 0 <= i < m implies (#[trigger] head[i]).end <= to by {
            assert(head[i] == tokens[i]);
        }
        assert forall|i: int| m <= i < head.len() implies (#[trigger] head[i]).end > to by {
            assert(head[i] == tokens[i]);
        }
        lemma_texts_between(head, m, to);
        assert(tokens.last() == tokens[tokens.len() - 1]);
        if n == tokens.len() {
            assert(head.take(m) =~= head);
            assert(token_texts(tokens.take(n)) =~= token_texts(head.take(m)).push(
                tokens.last().text,
            ));
        } else {
            assert(head.take(m) =~= tokens.take(n));
        }
    } else {
        assert(token_texts(tokens.take(n)) =~= Seq::empty());
    }
}

/// A phrase of plain words is the words with spaces between them.
pub(crate) proof fn lemma_phrase(ws: Seq<Seq<char>>)
    requires
        is_plain_title(ws),
    ensures
        phrase(ws) == text::join(ws, seq![' ']),
        phrase(ws).len() > 0,
{
    let s = text::join(ws, seq![' ']);
    assert forall|i: int| 0 <= i < ws.len() implies is_name_word(#[trigger] ws[i]) by {
        let w = ws[i];
        assert(is_plain_word(w));
        assert forall|j: int| 0 <= j < w.len() implies is_name_char(#[trigger] w[j]) by {
            assert(is_letter(w[j]));
        }
    }
    lemma_words_of_join(ws);
    lemma_join_ends(ws);
    assert(!CharClass::Space.holds(s[s.len() - 1]));
    assert(text::last_where(s, CharClass::Space, false) == s.len() - 1);
    assert(text::trim_end(s, CharClass::Space) =~= s);
    assert(!CharClass::Space.holds(s[0]));
    assert(text::first_where(s, CharClass::Space, false) == 0);
    assert(text::trim_start(s, CharClass::Space) =~= s);
    assert(text::trim(s, CharClass::Space) =~= s);
}

/// Joined plain words begin and end with a letter.
pub(crate) proof fn lemma_join_ends(ws: Seq<Seq<char>>)
    requires
        is_plain_title(ws),
    ensures
        text::join(ws, seq![' ']).len() > 0,
        is_letter(text::join(ws, seq![' '])[0]),
        is_letter(text::join(ws, seq![' ']).last()),
    decreases ws.len(),
{
    assert(is_plain_word(ws[0]));
    let w = ws[ws.len() - 1];
    assert(is_plain_word(w));
    assert(is_letter(w[w.len() - 1]));
    if ws.len() == 1 {
        assert(is_letter(w[0]));
    } else {
        let head = ws.drop_last();
        assert forall|i: int| 0 <= i < head.len() implies is_plain_word(#[trigger] head[i])
            && !vocab::is_reserved(head[i]) by {
            assert(head[i] == ws[i]);
        }
        lemma_join_ends(head);
        let s = text::join(ws, seq![' ']);
        assert(s[0] == text::join(head, seq![' '])[0]);
        assert(s.last() == w[w.len() - 1]);
    }
}

/// The tokens of a name are its words.
proof fn lemma_tokens_of_name(ws: Seq<Seq<char>>, year: Option<u16>, ext: Seq<char>)
    requires
        is_plain_title(ws),
        !ext.contains('.'),
    ensures
        normal_form(movie_name(ws, year) + seq!['.'] + ext) == movie_name(ws, year),
        group_of(movie_name(ws, year) + seq!['.'] + ext) is None,
        token_texts(tokens_of(movie_name(ws, year) + seq!['.'] + ext)) == name_words(ws, year),
{
    let all = name_words(ws, year);
    assert forall|i: int| 0 <= i < all.len() implies is_name_word(#[trigger] all[i]) by {
        if i < ws.len() {
            let w = ws[i];
            assert(all[i] == w);
            assert(is_plain_word(w));
            assert forall|j: int| 0 <= j < w.len() implies is_name_char(#[trigger] w[j]) by {
                assert(is_letter(w[j]));
            }
        } else {
            lemma_bracketed(year->0);
        }
    }
    lemma_name_is_joined(ws, year);
    lemma_normal_name(all, ext);
    lemma_words_of_join(all);
    law_tokens_are_words(movie_name(ws, year), 0);
}

/// The claims on a name: the year alone, where there is one.
proof fn lemma_claims(
    ws: Seq<Seq<char>>,
    year: Option<u16>,
    tokens: Seq<TokenView>,
    normalised: Seq<char>,
    opts: ParseOptions,
)
    requires
        is_plain_title(ws),
        year matches Some(y) ==> opts.min_year <= y <= opts.max_year,
        token_texts(tokens) == name_words(ws, year),
        forall|i: int| 0 <= i < tokens.len() ==> (#[trigger] tokens[i]).start < tokens[i].end,
        pattern::captures_of(edition_pattern(), normalised) is None,
    ensures
        accepted(movie_candidates(tokens, normalised, opts)) == (match year {
            Some(y) => seq![
                ClaimView {
                    field: ParseField::Year,
                    value: text::decimal(y as nat),
                    start: tokens.last().start,
                    end: tokens.last().end,
                },
            ],
            None => Seq::empty(),
        }),
{
    let all = name_words(ws, year);
    assert(tokens.len() == all.len()) by {
        assert(token_texts(tokens).len() == tokens.len());
    }
    assert forall|i: int| 0 <= i < tokens.len() implies (#[trigger] tokens[i]).text == all[i] by {
        assert(token_texts(tokens)[i] == tokens[i].text);
    }
    assert forall|i: int| 0 <= i < ws.len() implies is_plain_word((#[trigger] tokens[i]).text) by {
        assert(is_plain_word(ws[i]));
    }
    assert forall|i: int| 0 <= i < tokens.len() implies is_plain_token(
        (#[trigger] tokens[i]).text,
    ) by {
        if i < ws.len() {
            assert(is_plain_word(ws[i]));
        } else {
            lemma_bracketed(year->0);
        }
    }
    lemma_vocabularies();
    lemma_no_claim(ParseField::Resolution, vocab::resolution_words(), tokens);
    lemma_no_claim(ParseField::Source, vocab::source_words(), tokens);
    lemma_no_claim(ParseField::VideoCodec, vocab::video_codec_words(), tokens);
    lemma_no_claim(ParseField::AudioFormat, vocab::audio_words(), tokens);
    lemma_no_claim(ParseField::Hdr, vocab::hdr_words(), tokens);
    let yc = year_claim(tokens, opts.min_year, opts.max_year);
    let cc = copy_claim(tokens);
    match year {
        Some(y) => {
            assert(tokens.last() == tokens[tokens.len() - 1]);
            lemma_bracketed_year_is_last(tokens, y, opts.min_year, opts.max_year);
        },
        None => {
            lemma_no_bracketed_year(tokens, opts.min_year, opts.max_year);
            lemma_no_year(tokens, tokens.len() as int, opts.min_year, opts.max_year);
            assert(tokens.last() == tokens[tokens.len() - 1]);
            assert(is_plain_word(tokens[tokens.len() - 1].text));
            lemma_word_is_no_year(tokens.last().text, opts.min_year, opts.max_year);
        },
    }
    let cands = movie_candidates(tokens, normalised, opts);
    let none: Option<ClaimView> = None;
    assert(cands =~= seq![none, none, none, none, none, none, yc, cc]);
    lemma_last_two(cands, yc, cc);
}

/// Of eight candidates of which the first six are missing, the last two count.
proof fn lemma_last_two(
    cands: Seq<Option<ClaimView>>,
    a: Option<ClaimView>,
    b: Option<ClaimView>,
)
    requires
        cands.len() == 8,
        forall|i: int| 0 <= i < 6 ==> #[trigger] cands[i] is None,
        cands[6] == a,
        cands[7] == b,
        b is Some ==> a is Some && a->0.start == b->0.start && a->0.end == b->0.end && b->0.start
            < b->0.end,
    ensures
        accepted(cands) == (match a {
            Some(c) => seq![c],
            None => Seq::empty(),
        }),
{
    lemma_none_accepted(cands.take(6));
    let first = cands.drop_last();
    assert(first.drop_last() =~= cands.take(6));
    assert(first.last() == a);
    let made = accepted(first);
    match a {
        Some(c) => {
            assert(made =~= seq![c]);
            if b is Some {
                assert(made[0] == c);
                assert(overlaps_any(made, b->0));
            }
        },
        None => {
            assert(made =~= Seq::empty());
        },
    }
}

/// Nothing is accepted where there is nothing.
pub(crate) proof fn lemma_none_accepted(cands: Seq<Option<ClaimView>>)
    requires
        forall|i: int| 0 <= i < cands.len() ==> #[trigger] cands[i] is None,
    ensures
        accepted(cands) == Seq::<ClaimView>::empty(),
    decreases cands.len(),
{
    if cands.len() > 0 {
        assert(cands.last() == cands[cands.len() - 1]);
        assert forall|i: int| 0 <= i < cands.drop_last().len() implies (
        #[trigger] cands.drop_last()[i]) is None by {
            assert(cands.drop_last()[i] == cands[i]);
        }
        lemma_none_accepted(cands.drop_last());
    }
}

/// The fields of a movie of which nothing is known but title and year.
pub open spec fn plain_fields(ws: Seq<Seq<char>>, year: Option<u16>) -> MovieFields {
    MovieFields {
        title: from_name(text::join(ws, seq![' ']), Confidence::Medium),
        year: match year {
            Some(y) => from_name(y, Confidence::High),
            None => MovieFields::blank().year,
        },
        ..MovieFields::blank()
    }
}

/// Whether a year, where there is one, is among those that are looked for.
pub open spec fn is_year_within(year: Option<u16>, opts: ParseOptions) -> bool {
    year matches Some(y) ==> opts.min_year <= y <= opts.max_year
}

/// Whether a filename is the name of a movie with a plain title that mentions
/// no edition in words of its own, and an extension.
pub open spec fn names_movie(
    filename: Seq<char>,
    ws: Seq<Seq<char>>,
    year: Option<u16>,
    ext: Seq<char>,
) -> bool {
    &&& filename == movie_name(ws, year) + seq!['.'] + ext
    &&& is_plain_title(ws)
    &&& !pattern::mentions(movie_name(ws, year), vocab::edition_words())
    &&& !ext.contains('.')
}

/// What remains of the name of a movie with a plain title once it has been
/// normalised: an ASCII text that mentions no edition, in tokens.
pub proof fn lemma_names_movie(
    filename: Seq<char>,
    ws: Seq<Seq<char>>,
    year: Option<u16>,
    ext: Seq<char>,
)
    requires
        names_movie(filename, ws, year, ext),
    ensures
        normal_form(filename) == movie_name(ws, year),
        names_no_edition(normal_form(filename)),
        tokens_of(filename).len() > 0,
{
    lemma_tokens_of_name(ws, year, ext);
    let all = name_words(ws, year);
    assert(token_texts(tokens_of(filename)).len() == tokens_of(filename).len());
    assert forall|i: int| 0 <= i < all.len() implies is_name_word(#[trigger] all[i]) by {
        if i < ws.len() {
            let w = ws[i];
            assert(all[i] == w);
            assert(is_plain_word(w));
            assert forall|j: int| 0 <= j < w.len() implies is_name_char(#[trigger] w[j]) by {
                assert(is_letter(w[j]));
            }
        } else {
            lemma_bracketed(year->0);
        }
    }
    lemma_name_is_joined(ws, year);
    let n = movie_name(ws, year);
    assert forall|i: int| 0 <= i < n.len() implies (#[trigger] n[i] as u32) < 128 by {
        lemma_joined_chars(all, i);
    }
}

/// The name of a movie with a plain title is parsed back to that title and
/// year, whatever its extension. The words of the title have no meaning of
/// their own, and no edition is found in the name.
pub proof fn law_plain_name_is_parsed_back(
    ws: Seq<Seq<char>>,
    year: Option<u16>,
    ext: Seq<char>,
    opts: ParseOptions,
)
    requires
        is_plain_title(ws),
        year matches Some(y) ==> opts.min_year <= y <= opts.max_year,
        !ext.contains('.'),
        pattern::captures_of(edition_pattern(), movie_name(ws, year)) is None,
    ensures
        movie_fields(movie_name(ws, year) + seq!['.'] + ext, opts) == plain_fields(ws, year),
{
    let filename = movie_name(ws, year) + seq!['.'] + ext;
    lemma_tokens_of_name(ws, year, ext);
    let normalised = normal_form(filename);
    let tokens = tokens_of(filename);
    law_tokens_in_order(normalised, 0);
    assert(tokens == tokens_from(normalised, 0));
    lemma_claims(ws, year, tokens, normalised, opts);
    let claims = accepted(movie_candidates(tokens, normalised, opts));
    let length = text::utf8_len(normalised);
    assert(tokens.len() == name_words(ws, year).len()) by {
        assert(token_texts(tokens).len() == tokens.len());
    }
    lemma_phrase(ws);
    match year {
        Some(y) => {
            lemma_bracketed(y);
            let c = claims[0];
            assert(claims.drop_last() =~= Seq::empty());
            assert(claims.last() == c);
            let blank = MovieFields::blank();
            assert(with_claims(blank, claims.drop_last()) == blank);
            assert(with_claims(MovieFields::blank(), claims) == with_claim(
                MovieFields::blank(),
                c,
            ));
            let last = tokens[tokens.len() - 1];
            assert(tokens.last() == last);
            assert(first_start(claims.drop_last(), length) == length);
            assert(first_start(claims, length) == last.start);
            lemma_texts_between(tokens, ws.len() as int, last.start);
            assert(token_texts(tokens.take(ws.len() as int)) =~= ws) by {
                assert forall|i: int| 0 <= i < ws.len() implies token_texts(
                    tokens.take(ws.len() as int),
                )[i] == ws[i] by {
                    assert(token_texts(tokens)[i] == tokens[i].text);
                }
            }
        },
        None => {
            assert(claims =~= Seq::empty());
            lemma_texts_between(tokens, tokens.len() as int, length);
            assert(tokens.take(tokens.len() as int) =~= tokens);
            assert(token_texts(tokens) =~= ws);
        },
    }
}

/// The pieces of the template `{title}[ ({year})]`.
pub open spec fn title_and_year() -> Seq<SegmentView> {
    seq![
        SegmentView::Required("title"@),
        SegmentView::Optional(
            seq![
                SegmentView::Literal(seq![' ', '(']),
                SegmentView::Required("year"@),
                SegmentView::Literal(seq![')']),
            ],
        ),
    ]
}

/// Rendering title and year gives the name of the movie, which parsing gives
/// back as [`crate::parse::parser::parse_movie_filename`] says.
pub proof fn law_title_and_year_make_the_name<V: ValueSource>(
    values: &V,
    ws: Seq<Seq<char>>,
    year: Option<u16>,
)
    requires
        values.value("title"@) == Some(text::join(ws, seq![' '])),
        values.value("year"@) == (match year {
            Some(y) => Some(text::decimal(y as nat)),
            None => None,
        }),
    ensures
        rendered(title_and_year(), values) == movie_name(ws, year),
{
    let segs = title_and_year();
    let inner = segs[1]->Optional_0;
    reveal_with_fuel(rendered, 4);
    reveal_with_fuel(all_present, 4);
    assert(segs.drop_last() =~= seq![segs[0]]);
    assert(segs.drop_last().drop_last() =~= Seq::empty());
    assert(inner.drop_last() =~= seq![inner[0], inner[1]]);
    assert(inner.drop_last().drop_last() =~= seq![inner[0]]);
    assert(inner.drop_last().drop_last().drop_last() =~= Seq::empty());
    match year {
        Some(y) => {
            assert(all_present(inner, values));
            assert(rendered(inner, values) =~= seq![' '] + bracketed(y));
        },
        None => {
            assert(!all_present(inner, values));
        },
    }
    assert(rendered(segs, values) =~= movie_name(ws, year));
}

/// Rendering title and year and parsing the result gives them back, where no
/// edition is found in the name.
pub proof fn law_rendered_name_is_parsed_back<V: ValueSource>(
    values: &V,
    ws: Seq<Seq<char>>,
    year: Option<u16>,
    ext: Seq<char>,
    opts: ParseOptions,
)
    requires
        is_plain_title(ws),
        is_year_within(year, opts),
        !ext.contains('.'),
        pattern::captures_of(edition_pattern(), movie_name(ws, year)) is None,
        values.value("title"@) == Some(text::join(ws, seq![' '])),
        values.value("year"@) == (match year {
            Some(y) => Some(text::decimal(y as nat)),
            None => None,
        }),
    ensures
        movie_fields(rendered(title_and_year(), values) + seq!['.'] + ext, opts).title.ok() == Some(
            text::join(ws, seq![' ']),
        ),
        movie_fields(rendered(title_and_year(), values) + seq!['.'] + ext, opts).year.ok() == year,
{
    law_title_and_year_make_the_name(values, ws, year);
    law_plain_name_is_parsed_back(ws, year, ext, opts);
}

/// Whether a text spells a word of a list, letter case and brackets around it
/// aside.
pub open spec fn spells(list: Seq<Seq<char>>, s: Seq<char>) -> bool {
    exists|i: int|
        0 <= i < list.len() && (text::ascii_lowercase(s) == text::ascii_lowercase(
            #[trigger] list[i],
        ) || text::ascii_lowercase(unbracketed(s)) == text::ascii_lowercase(list[i]))
}

/// Whether a text is a tag: a resolution, source, video codec, audio format or
/// HDR format.
pub open spec fn is_tag(s: Seq<char>) -> bool {
    ||| spells(vocab::resolution_words(), s)
    ||| spells(vocab::source_words(), s)
    ||| spells(vocab::video_codec_words(), s)
    ||| spells(vocab::audio_words(), s)
    ||| spells(vocab::hdr_words(), s)
}

/// Whether a text is the digits of a year that is looked for.
pub open spec fn is_year(s: Seq<char>, opts: ParseOptions) -> bool {
    text::number(s) matches Some(y) && opts.min_year <= y <= opts.max_year
}

/// Whether a text is a year in brackets that is looked for.
pub open spec fn is_year_in_brackets(s: Seq<char>, opts: ParseOptions) -> bool {
    &&& s.len() >= 2
    &&& (s[0] == '(' && s.last() == ')') || (s[0] == '[' && s.last() == ']')
    &&& is_year(s.subrange(1, s.len() - 1), opts)
}

/// Whether a run of tags begins with one that ends the title for sure: a tag, a
/// year in brackets, or the only year.
pub open spec fn ends_title(tags: Seq<Seq<char>>, opts: ParseOptions) -> bool {
    &&& tags.len() > 0
    &&& {
        ||| is_tag(tags[0])
        ||| is_year_in_brackets(tags[0], opts)
        ||| is_year(tags[0], opts) && forall|j: int|
            0 < j < tags.len() ==> !is_year(#[trigger] tags[j], opts) && !is_year_in_brackets(
                tags[j],
                opts,
            )
    }
}

/// A text spells a word of a list where the search finds one.
pub(crate) proof fn lemma_spells(list: Seq<Seq<char>>, s: Seq<char>)
    ensures
        spells(list, s) <==> vocab_word(list, s) is Some,
    decreases list.len(),
{
    if list.len() > 0 {
        let rest = list.skip(1);
        lemma_spells(rest, s);
        if spells(rest, s) {
            let i = choose|i: int|
                0 <= i < rest.len() && (text::ascii_lowercase(s) == text::ascii_lowercase(
                    #[trigger] rest[i],
                ) || text::ascii_lowercase(unbracketed(s)) == text::ascii_lowercase(rest[i]));
            assert(rest[i] == list[i + 1]);
        }
        if spells(list, s) {
            let i = choose|i: int|
                0 <= i < list.len() && (text::ascii_lowercase(s) == text::ascii_lowercase(
                    #[trigger] list[i],
                ) || text::ascii_lowercase(unbracketed(s)) == text::ascii_lowercase(list[i]));
            if i > 0 {
                assert(rest[i - 1] == list[i]);
            }
        }
        if text::eq_ignore_case(s, list[0]) || text::eq_ignore_case(unbracketed(s), list[0]) {
            assert(spells(list, s));
        }
    }
}

/// Whether the texts of the first tokens have no meaning of their own.
pub open spec fn begins_plainly(tokens: Seq<TokenView>, n: int) -> bool {
    0 <= n <= tokens.len() && forall|i: int| 0 <= i < n ==> is_idle((#[trigger] tokens[i]).text)
}

/// A text without a meaning of its own is no year.
pub(crate) proof fn lemma_idle_is_no_year(w: Seq<char>, least: u16, greatest: u16)
    requires
        is_idle(w),
    ensures
        year_in(w, least, greatest) is None,
        !is_bracketed(w),
{
    if is_plain_word(w) {
        lemma_word_is_no_year(w, least, greatest);
    } else {
        assert(text::unsigned_part(w) == w);
        assert(!text::is_digit(w[0]));
    }
}

/// The claim of a vocabulary is on a token behind the plain ones: the next one
/// where it spells a word.
pub(crate) proof fn lemma_vocab_claim_behind(
    field: ParseField,
    list: Seq<Seq<char>>,
    tokens: Seq<TokenView>,
    n: int,
)
    requires
        is_tag_list(list),
        begins_plainly(tokens, n),
    ensures
        vocab_claim(field, list, tokens) matches Some(c) ==> exists|i: int|
            n <= i < tokens.len() && (#[trigger] tokens[i]).start == c.start && tokens[i].end
                == c.end && vocab_word(list, tokens[i].text) is Some,
        n < tokens.len() && vocab_word(list, tokens[n].text) is Some ==> (vocab_claim(
            field,
            list,
            tokens,
        ) matches Some(c) && c.start == tokens[n].start && c.end == tokens[n].end),
    decreases tokens.len(),
{
    if tokens.len() > 0 {
        let rest = tokens.skip(1);
        let m = if n > 0 {
            n - 1
        } else {
            0
        };
        assert forall|i: int| 0 <= i < m implies is_idle((#[trigger] rest[i]).text) by {
            assert(rest[i] == tokens[i + 1]);
        }
        lemma_vocab_claim_behind(field, list, rest, m);
        if n > 0 {
            assert(is_idle(tokens[0].text));
            lemma_no_tag(list, tokens[0].text);
        }
        if vocab_word(list, tokens[0].text) is None {
            if let Some(c) = vocab_claim(field, list, tokens) {
                let i = choose|i: int|
                    m <= i < rest.len() && (#[trigger] rest[i]).start == c.start && rest[i].end
                        == c.end && vocab_word(list, rest[i].text) is Some;
                assert(tokens[i + 1] == rest[i]);
            }
            if 0 < n < tokens.len() {
                assert(rest[n - 1] == tokens[n]);
            }
        }
    }
}

/// The claim on a bracketed year is on a token behind the plain ones: the next
/// one where it is such a year. There is none where no token is.
pub(crate) proof fn lemma_bracketed_year_behind(tokens: Seq<TokenView>, n: int, opts: ParseOptions)
    requires
        begins_plainly(tokens, n),
    ensures
        bracketed_year(tokens, opts.min_year, opts.max_year) matches Some(c) ==> exists|i: int|
            n <= i < tokens.len() && (#[trigger] tokens[i]).start == c.start && tokens[i].end
                == c.end && is_year_in_brackets(tokens[i].text, opts),
        n < tokens.len() && is_year_in_brackets(tokens[n].text, opts) ==> (bracketed_year(
            tokens,
            opts.min_year,
            opts.max_year,
        ) matches Some(c) && c.start == tokens[n].start && c.end == tokens[n].end),
    decreases tokens.len(),
{
    if tokens.len() > 0 {
        let rest = tokens.skip(1);
        let m = if n > 0 {
            n - 1
        } else {
            0
        };
        assert forall|i: int| 0 <= i < m implies is_idle((#[trigger] rest[i]).text) by {
            assert(rest[i] == tokens[i + 1]);
        }
        lemma_bracketed_year_behind(rest, m, opts);
        if n > 0 {
            assert(is_idle(tokens[0].text));
            lemma_idle_is_no_year(tokens[0].text, opts.min_year, opts.max_year);
        }
        let here = is_bracketed(tokens[0].text) && year_in(
            unbracketed(tokens[0].text),
            opts.min_year,
            opts.max_year,
        ) is Some;
        assert(here == is_year_in_brackets(tokens[0].text, opts));
        if !here {
            if let Some(c) = bracketed_year(tokens, opts.min_year, opts.max_year) {
                let i = choose|i: int|
                    m <= i < rest.len() && (#[trigger] rest[i]).start == c.start && rest[i].end
                        == c.end && is_year_in_brackets(rest[i].text, opts);
                assert(tokens[i + 1] == rest[i]);
            }
            if 0 < n < tokens.len() {
                assert(rest[n - 1] == tokens[n]);
            }
        }
    }
}

/// The claim on a bare year is on a token behind the plain ones.
pub(crate) proof fn lemma_bare_year_behind(tokens: Seq<TokenView>, n: int, k: int, opts: ParseOptions)
    requires
        begins_plainly(tokens, n),
        0 <= k <= tokens.len(),
    ensures
        bare_year(tokens, k, opts.min_year, opts.max_year) matches Some(c) ==> exists|i: int|
            n <= i < k && (#[trigger] tokens[i]).start == c.start && tokens[i].end == c.end,
    decreases k,
{
    if k > 0 {
        lemma_bare_year_behind(tokens, n, k - 1, opts);
        if k <= n {
            assert(is_idle(tokens[k - 1].text));
            lemma_idle_is_no_year(tokens[k - 1].text, opts.min_year, opts.max_year);
        }
    }
}

/// The only bare year is found where something stands before it.
pub(crate) proof fn lemma_only_bare_year(tokens: Seq<TokenView>, n: int, k: int, opts: ParseOptions)
    requires
        0 < n < k <= tokens.len(),
        is_year(tokens[n].text, opts),
        forall|j: int| n < j < k ==> !is_year((#[trigger] tokens[j]).text, opts),
        tokens[n - 1].end <= tokens[n].start,
        tokens[n - 1].text.len() > 0,
    ensures
        bare_year(tokens, k, opts.min_year, opts.max_year) matches Some(c) && c.start
            == tokens[n].start && c.end == tokens[n].end,
    decreases k,
{
    if k - 1 == n {
        assert(something_before(tokens, tokens[n].start));
    } else {
        assert(!is_year(tokens[k - 1].text, opts));
        lemma_only_bare_year(tokens, n, k - 1, opts);
    }
}

/// All claims that stand begin at a place or behind it where all candidates do.
pub(crate) proof fn lemma_accepted_from(cands: Seq<Option<ClaimView>>, from: nat)
    requires
        forall|i: int| 0 <= i < cands.len() ==> (#[trigger] cands[i] matches Some(c) ==> from
            <= c.start),
    ensures
        forall|i: int| 0 <= i < accepted(cands).len() ==> from <= (#[trigger] accepted(
            cands,
        )[i]).start,
    decreases cands.len(),
{
    if cands.len() > 0 {
        let first = cands.drop_last();
        assert(cands.last() == cands[cands.len() - 1]);
        assert forall|i: int| 0 <= i < first.len() implies (#[trigger] first[i] matches Some(c)
            ==> from <= c.start) by {
            assert(first[i] == cands[i]);
        }
        lemma_accepted_from(first, from);
    }
}

/// Where a span is claimed, some claim that stands begins before its end.
pub(crate) proof fn lemma_claimed(cands: Seq<Option<ClaimView>>, k: int)
    requires
        0 <= k < cands.len(),
        cands[k] is Some,
        cands[k]->0.start < cands[k]->0.end,
    ensures
        exists|i: int|
            0 <= i < accepted(cands).len() && (#[trigger] accepted(cands)[i]).start
                < cands[k]->0.end,
    decreases cands.len(),
{
    let first = cands.drop_last();
    let made = accepted(first);
    let all = accepted(cands);
    let c = cands[k]->0;
    if k == cands.len() - 1 {
        assert(cands.last() == cands[k]);
        if overlaps_any(made, c) {
            let i = choose|i: int|
                0 <= i < made.len() && c.start < (#[trigger] made[i]).end && c.end > made[i].start;
            assert(all[i] == made[i]);
        } else {
            assert(all[all.len() - 1] == c);
        }
    } else {
        assert(first[k] == cands[k]);
        lemma_claimed(first, k);
        let i = choose|i: int| 0 <= i < made.len() && (#[trigger] made[i]).start < c.end;
        assert(all[i] == made[i]);
    }
}

/// The earliest start is at or before every start, and not before them all.
pub(crate) proof fn lemma_first_start(claims: Seq<ClaimView>, otherwise: nat, from: nat)
    requires
        from <= otherwise,
        forall|i: int| 0 <= i < claims.len() ==> from <= (#[trigger] claims[i]).start,
    ensures
        from <= first_start(claims, otherwise),
        forall|i: int| 0 <= i < claims.len() ==> first_start(claims, otherwise) <= (
        #[trigger] claims[i]).start,
    decreases claims.len(),
{
    if claims.len() > 0 {
        let head = claims.drop_last();
        assert(claims.last() == claims[claims.len() - 1]);
        assert forall|i: int| 0 <= i < head.len() implies from <= (#[trigger] head[i]).start by {
            assert(head[i] == claims[i]);
        }
        lemma_first_start(head, otherwise, from);
        assert forall|i: int| 0 <= i < claims.len() implies first_start(claims, otherwise) <= (
        #[trigger] claims[i]).start by {
            if i < head.len() {
                assert(head[i] == claims[i]);
            }
        }
    }
}

/// A tag is claimed by one of the candidates.
proof fn lemma_tag_is_claimed(
    tokens: Seq<TokenView>,
    n: int,
    normalised: Seq<char>,
    opts: ParseOptions,
) -> (k: int)
    requires
        begins_plainly(tokens, n),
        0 < n < tokens.len(),
        tokens[n - 1].end <= tokens[n].start,
        tokens[n - 1].text.len() > 0,
        ends_title(token_texts(tokens.skip(n)), opts),
    ensures
        ({
            let cands = movie_candidates(tokens, normalised, opts);
            &&& 0 <= k < cands.len()
            &&& cands[k] matches Some(c) && c.start == tokens[n].start && c.end == tokens[n].end
        }),
{
    let tags = token_texts(tokens.skip(n));
    let cands = movie_candidates(tokens, normalised, opts);
    let tag = tokens[n].text;
    assert(tags[0] == tag);
    lemma_vocabularies();
    lemma_spells(vocab::resolution_words(), tag);
    lemma_spells(vocab::source_words(), tag);
    lemma_spells(vocab::video_codec_words(), tag);
    lemma_spells(vocab::audio_words(), tag);
    lemma_spells(vocab::hdr_words(), tag);
    lemma_vocab_claim_behind(ParseField::Resolution, vocab::resolution_words(), tokens, n);
    lemma_vocab_claim_behind(ParseField::Source, vocab::source_words(), tokens, n);
    lemma_vocab_claim_behind(ParseField::VideoCodec, vocab::video_codec_words(), tokens, n);
    lemma_vocab_claim_behind(ParseField::AudioFormat, vocab::audio_words(), tokens, n);
    lemma_vocab_claim_behind(ParseField::Hdr, vocab::hdr_words(), tokens, n);
    if spells(vocab::resolution_words(), tag) {
        0
    } else if spells(vocab::source_words(), tag) {
        1
    } else if spells(vocab::video_codec_words(), tag) {
        2
    } else if spells(vocab::audio_words(), tag) {
        3
    } else if spells(vocab::hdr_words(), tag) {
        4
    } else {
        lemma_bracketed_year_behind(tokens, n, opts);
        if !is_year_in_brackets(tag, opts) {
            assert forall|j: int| n < j < tokens.len() implies !is_year(
                (#[trigger] tokens[j]).text,
                opts,
            ) && !is_year_in_brackets(tokens[j].text, opts) by {
                assert(tags[j - n] == tokens[j].text);
            }
            assert(bracketed_year(tokens, opts.min_year, opts.max_year) is None);
            lemma_only_bare_year(tokens, n, tokens.len() as int, opts);
        }
        6
    }
}

/// No candidate but the edition begins before the first token that is not
/// plain.
proof fn lemma_candidates_behind(
    tokens: Seq<TokenView>,
    n: int,
    normalised: Seq<char>,
    opts: ParseOptions,
    from: nat,
)
    requires
        begins_plainly(tokens, n),
        0 <= n < tokens.len(),
        forall|i: int| n <= i < tokens.len() ==> from <= (#[trigger] tokens[i]).start,
        pattern::captures_of(edition_pattern(), normalised) matches Some(found) ==> from
            <= text::utf8_len(found.before),
    ensures
        ({
            let cands = movie_candidates(tokens, normalised, opts);
            forall|i: int| 0 <= i < cands.len() ==> (#[trigger] cands[i] matches Some(c) ==> from
                <= c.start)
        }),
{
    lemma_vocabularies();
    lemma_vocab_claim_behind(ParseField::Resolution, vocab::resolution_words(), tokens, n);
    lemma_vocab_claim_behind(ParseField::Source, vocab::source_words(), tokens, n);
    lemma_vocab_claim_behind(ParseField::VideoCodec, vocab::video_codec_words(), tokens, n);
    lemma_vocab_claim_behind(ParseField::AudioFormat, vocab::audio_words(), tokens, n);
    lemma_vocab_claim_behind(ParseField::Hdr, vocab::hdr_words(), tokens, n);
    lemma_bracketed_year_behind(tokens, n, opts);
    lemma_bare_year_behind(tokens, n, tokens.len() as int, opts);
    assert(tokens.last() == tokens[tokens.len() - 1]);
}

/// The title of a movie is all the words before its first tag, with single
/// spaces between them, however many tags follow: so it is for plain words
/// followed by a resolution, source, codec, audio format, HDR format or year.
/// An edition, where one is found, stands behind the words.
pub proof fn law_title_is_the_words_before_the_tags(
    filename: Seq<char>,
    ws: Seq<Seq<char>>,
    tags: Seq<Seq<char>>,
    opts: ParseOptions,
)
    requires
        token_texts(tokens_of(filename)) == ws + tags,
        is_plain_title(ws),
        ends_title(tags, opts),
        pattern::captures_of(edition_pattern(), normal_form(filename)) matches Some(found)
            ==> tokens_of(filename)[ws.len() - 1].end <= text::utf8_len(found.before),
    ensures
        movie_fields(filename, opts).title.ok() == Some(text::join(ws, seq![' '])),
{
    let tokens = tokens_of(filename);
    let normalised = normal_form(filename);
    let n = ws.len() as int;
    assert(token_texts(tokens).len() == tokens.len());
    law_tokens_in_order(normalised, 0);
    assert(tokens == tokens_from(normalised, 0));
    assert forall|i: int| 0 <= i < n implies is_idle((#[trigger] tokens[i]).text) by {
        assert(token_texts(tokens)[i] == ws[i]);
    }
    assert(token_texts(tokens.skip(n)) =~= tags) by {
        assert forall|i: int| 0 <= i < tags.len() implies token_texts(tokens.skip(n))[i]
            == tags[i] by {
            assert(token_texts(tokens)[n + i] == tokens[n + i].text);
        }
    }
    let from = tokens[n - 1].end;
    let k = lemma_tag_is_claimed(tokens, n, normalised, opts);
    lemma_candidates_behind(tokens, n, normalised, opts, from);
    let cands = movie_candidates(tokens, normalised, opts);
    let claims = accepted(cands);
    lemma_accepted_from(cands, from);
    lemma_claimed(cands, k);
    let length = text::utf8_len(normalised);
    assert forall|i: int| 0 <= i < n implies (#[trigger] tokens[i]).text == ws[i] by {
        assert(token_texts(tokens)[i] == ws[i]);
    }
    lemma_title_before(tokens, ws, claims, length);
}

/// The words before the first claim are the title.
proof fn lemma_title_before(
    tokens: Seq<TokenView>,
    ws: Seq<Seq<char>>,
    claims: Seq<ClaimView>,
    length: nat,
)
    requires
        is_plain_title(ws),
        ws.len() < tokens.len(),
        forall|i: int| 0 <= i < ws.len() ==> (#[trigger] tokens[i]).text == ws[i],
        forall|i: int| 0 <= i < tokens.len() ==> (#[trigger] tokens[i]).end <= length,
        forall|i: int, j: int|
            0 <= i <= j < tokens.len() ==> (#[trigger] tokens[i]).end <= (#[trigger] tokens[j]).end,
        forall|i: int|
            0 <= i < claims.len() ==> tokens[ws.len() - 1].end <= (#[trigger] claims[i]).start,
        exists|i: int|
            0 <= i < claims.len() && (#[trigger] claims[i]).start < tokens[ws.len() as int].end,
    ensures
        phrase(texts_between(tokens, 0, first_start(claims, length))) == text::join(ws, seq![' ']),
        text::join(ws, seq![' ']).len() > 0,
{
    let n = ws.len() as int;
    let s = first_start(claims, length);
    lemma_first_start(claims, length, tokens[n - 1].end);
    let i = choose|i: int| 0 <= i < claims.len() && (#[trigger] claims[i]).start < tokens[n].end;
    assert(s <= claims[i].start);
    lemma_texts_between(tokens, n, s);
    assert(token_texts(tokens.take(n)) =~= ws);
    lemma_phrase(ws);
}

/// Every claim that stands is a candidate.
pub(crate) proof fn lemma_accepted_is_candidate(cands: Seq<Option<ClaimView>>, i: int) -> (k: int)
    requires
        0 <= i < accepted(cands).len(),
    ensures
        0 <= k < cands.len(),
        cands[k] == Some(accepted(cands)[i]),
    decreases cands.len(),
{
    let first = cands.drop_last();
    let made = accepted(first);
    if i < made.len() {
        assert(accepted(cands)[i] == made[i]);
        let k = lemma_accepted_is_candidate(first, i);
        assert(first[k] == cands[k]);
        k
    } else {
        assert(cands.last() == cands[cands.len() - 1]);
        cands.len() - 1
    }
}

/// A candidate that no earlier one overlaps stands.
pub(crate) proof fn lemma_stands(cands: Seq<Option<ClaimView>>, k: int)
    requires
        0 <= k < cands.len(),
        cands[k] is Some,
        forall|j: int|
            0 <= j < k && (#[trigger] cands[j]) is Some ==> cands[j]->0.end <= cands[k]->0.start
                || cands[k]->0.end <= cands[j]->0.start,
    ensures
        accepted(cands).contains(cands[k]->0),
    decreases cands.len(),
{
    let first = cands.drop_last();
    let made = accepted(first);
    let all = accepted(cands);
    let c = cands[k]->0;
    if k == cands.len() - 1 {
        assert(cands.last() == cands[k]);
        if overlaps_any(made, c) {
            let i = choose|i: int|
                0 <= i < made.len() && c.start < (#[trigger] made[i]).end && c.end > made[i].start;
            let j = lemma_accepted_is_candidate(first, i);
            assert(cands[j] == first[j]);
        }
        assert(all[all.len() - 1] == c);
    } else {
        assert(first[k] == cands[k]);
        assert forall|j: int| 0 <= j < k && (#[trigger] first[j]) is Some implies first[j]->0.end
            <= first[k]->0.start || first[k]->0.end <= first[j]->0.start by {
            assert(first[j] == cands[j]);
        }
        lemma_stands(first, k);
        let i = choose|i: int| 0 <= i < made.len() && made[i] == c;
        assert(all[i] == made[i]);
    }
}

/// The title of a movie is all the words before its edition where that is the
/// first tag and none of its own words is another one.
pub proof fn law_title_is_the_words_before_the_edition(
    filename: Seq<char>,
    ws: Seq<Seq<char>>,
    tags: Seq<Seq<char>>,
    opts: ParseOptions,
)
    requires
        token_texts(tokens_of(filename)) == ws + tags,
        is_plain_title(ws),
        tags.len() > 0,
        pattern::captures_of(edition_pattern(), normal_form(filename)) matches Some(found) && {
            let start = text::utf8_len(found.before);
            let end = start + text::utf8_len(found.group(0));
            &&& tokens_of(filename)[ws.len() - 1].end <= start < tokens_of(
                filename,
            )[ws.len() as int].end
            &&& forall|i: int|
                ws.len() <= i < ws.len() + tags.len() && (#[trigger] tokens_of(filename)[i]).start
                    < end ==> !is_tag(tokens_of(filename)[i].text)
        },
    ensures
        movie_fields(filename, opts).title.ok() == Some(text::join(ws, seq![' '])),
        movie_fields(filename, opts).edition.ok() is Some,
{
    let tokens = tokens_of(filename);
    let normalised = normal_form(filename);
    let n = ws.len() as int;
    assert(token_texts(tokens).len() == tokens.len());
    law_tokens_in_order(normalised, 0);
    assert(tokens == tokens_from(normalised, 0));
    assert forall|i: int| 0 <= i < n implies is_idle((#[trigger] tokens[i]).text) by {
        assert(token_texts(tokens)[i] == ws[i]);
    }
    assert forall|i: int| 0 <= i < n implies (#[trigger] tokens[i]).text == ws[i] by {
        assert(token_texts(tokens)[i] == ws[i]);
    }
    let from = tokens[n - 1].end;
    lemma_candidates_behind(tokens, n, normalised, opts, from);
    let cands = movie_candidates(tokens, normalised, opts);
    let claims = accepted(cands);
    let ed = cands[5]->0;
    assert forall|j: int| 0 <= j < 5 && (#[trigger] cands[j]) is Some implies ed.end
        <= cands[j]->0.start by {
        lemma_vocabularies();
        lemma_vocab_claim_behind(ParseField::Resolution, vocab::resolution_words(), tokens, n);
        lemma_vocab_claim_behind(ParseField::Source, vocab::source_words(), tokens, n);
        lemma_vocab_claim_behind(ParseField::VideoCodec, vocab::video_codec_words(), tokens, n);
        lemma_vocab_claim_behind(ParseField::AudioFormat, vocab::audio_words(), tokens, n);
        lemma_vocab_claim_behind(ParseField::Hdr, vocab::hdr_words(), tokens, n);
        let list = tag_list(j);
        let i = choose|i: int|
            n <= i < tokens.len() && (#[trigger] tokens[i]).start == cands[j]->0.start
                && tokens[i].end == cands[j]->0.end && vocab_word(list, tokens[i].text) is Some;
        lemma_spells(list, tokens[i].text);
        assert(is_tag(tokens[i].text));
    }
    lemma_accepted_from(cands, from);
    lemma_stands(cands, 5);
    let at = choose|at: int| 0 <= at < claims.len() && claims[at] == ed;
    assert(claims[at].start < tokens[n].end);
    lemma_title_before(tokens, ws, claims, text::utf8_len(normalised));
    lemma_edition_is_written(MovieFields::blank(), claims, at);
}

/// The vocabularies of tags by their rank.
pub open spec fn tag_list(rank: int) -> Seq<Seq<char>> {
    if rank == 0 {
        vocab::resolution_words()
    } else if rank == 1 {
        vocab::source_words()
    } else if rank == 2 {
        vocab::video_codec_words()
    } else if rank == 3 {
        vocab::audio_words()
    } else {
        vocab::hdr_words()
    }
}

/// Where an edition is claimed it is known.
proof fn lemma_edition_is_written(m: MovieFields, claims: Seq<ClaimView>, k: int)
    requires
        0 <= k < claims.len(),
        claims[k].field == ParseField::Edition,
    ensures
        with_claims(m, claims).edition.ok() is Some,
    decreases claims.len(),
{
    if k < claims.len() - 1 {
        assert(claims.drop_last()[k] == claims[k]);
        lemma_edition_is_written(m, claims.drop_last(), k);
    } else {
        assert(claims.last() == claims[k]);
    }
}

/// Words joined by a separator become words joined by spaces.
proof fn lemma_spaced_join(all: Seq<Seq<char>>, sep: char)
    requires
        forall|i: int| 0 <= i < all.len() ==> is_name_word(#[trigger] all[i]),
        sep == ' ' || sep == '.' || sep == '_' || sep == '+',
    ensures
        text::spaced(text::join(all, seq![sep]), separators()) == text::join(all, seq![' ']),
        forall|k: int|
            0 <= k < text::join(all, seq![sep]).len() ==> (#[trigger] text::join(
                all,
                seq![sep],
            )[k]) == sep || is_name_char(text::join(all, seq![sep])[k]),
    decreases all.len(),
{
    let set = seq!['.', '_', '+'];
    assert(set[0] == '.' && set[1] == '_' && set[2] == '+');
    let a = text::join(all, seq![sep]);
    let b = text::join(all, seq![' ']);
    if all.len() == 0 {
        assert(text::spaced(a, separators()) =~= b);
    } else {
        let w = all[all.len() - 1];
        assert(is_name_word(w));
        assert forall|k: int| 0 <= k < w.len() implies !separators().holds(#[trigger] w[k]) by {
            assert(is_name_char(w[k]));
            if set.contains(w[k]) {
                let i = choose|i: int| 0 <= i < set.len() && set[i] == w[k];
            }
        }
        if all.len() == 1 {
            assert(text::spaced(a, separators()) =~= b);
        } else {
            let head = all.drop_last();
            assert forall|i: int| 0 <= i < head.len() implies is_name_word(#[trigger] head[i]) by {
                assert(head[i] == all[i]);
            }
            lemma_spaced_join(head, sep);
            let x = text::join(head, seq![sep]);
            let y = text::join(head, seq![' ']);
            assert(a =~= x + seq![sep] + w);
            assert(b =~= y + seq![' '] + w);
            assert(text::spaced(x, separators()) == y);
            assert(x.len() == y.len());
            assert forall|k: int| 0 <= k < a.len() implies text::spaced(a, separators())[k] == b[k]
                && (a[k] == sep || is_name_char(a[k])) by {
                if k < x.len() {
                    assert(text::spaced(x, separators())[k] == y[k]);
                    assert(a[k] == x[k]);
                } else if k > x.len() {
                    assert(a[k] == w[k - x.len() - 1]);
                } else {
                    assert(a[k] == sep);
                }
            }
            assert(text::spaced(a, separators()) =~= b);
        }
    }
}

/// The tokens of words joined by a separator are the words.
proof fn lemma_tokens_of_joined(all: Seq<Seq<char>>, sep: char, ext: Seq<char>)
    requires
        all.len() > 0,
        forall|i: int| 0 <= i < all.len() ==> is_name_word(#[trigger] all[i]),
        sep == ' ' || sep == '.' || sep == '_' || sep == '+',
        !ext.contains('.'),
    ensures
        normal_form(text::join(all, seq![sep]) + seq!['.'] + ext) == text::join(all, seq![' ']),
        token_texts(tokens_of(text::join(all, seq![sep]) + seq!['.'] + ext)) == all,
        tokens_of(text::join(all, seq![sep]) + seq!['.'] + ext)[0].start == 0,
{
    let name = text::join(all, seq![sep]);
    let plain = text::join(all, seq![' ']);
    lemma_words_of_join(all);
    lemma_spaced_join(all, sep);
    lemma_base_name(name, ext);
    assert(name.len() == text::spaced(name, separators()).len());
    text::lemma_last_where(name, CharClass::Is('-'), true);
    let dash = text::last_where(name, CharClass::Is('-'), true);
    assert(dash < 0) by {
        if dash >= 0 {
            assert(name[dash] == '-');
        }
    }
    assert(name[name.len() - 1] != ']');
    assert(bracketed_group(name) is None);
    assert(dashed_group(name) is None);
    assert(split_group(name) == (name, None::<Seq<char>>));
    law_tokens_are_words(plain, 0);
    lemma_first_of_joined(all);
    text::lemma_first_where(plain, CharClass::Space, true);
    let n = text::first_where(plain, CharClass::Space, true);
    assert(n > 0);
    assert(n <= plain.len());
}

/// Joined words begin with a character of the first.
proof fn lemma_first_of_joined(all: Seq<Seq<char>>)
    requires
        all.len() > 0,
        forall|i: int| 0 <= i < all.len() ==> is_name_word(#[trigger] all[i]),
    ensures
        text::join(all, seq![' ']).len() > 0,
        is_name_char(text::join(all, seq![' '])[0]),
    decreases all.len(),
{
    assert(is_name_word(all[0]));
    assert(is_name_char(all[0][0]));
    if all.len() > 1 {
        let head = all.drop_last();
        assert forall|i: int| 0 <= i < head.len() implies is_name_word(#[trigger] head[i]) by {
            assert(head[i] == all[i]);
        }
        lemma_first_of_joined(head);
        assert(text::join(all, seq![' '])[0] == text::join(head, seq![' '])[0]);
    }
}

/// Tokens one byte apart, the first at the beginning, end where the words up to
/// them do.
pub(crate) proof fn lemma_token_ends(tokens: Seq<TokenView>, k: int)
    requires
        0 <= k < tokens.len(),
        tokens[0].start == 0,
        one_apart(tokens),
        forall|i: int|
            0 <= i < tokens.len() ==> (#[trigger] tokens[i]).end == tokens[i].start
                + text::utf8_len(tokens[i].text),
    ensures
        tokens[k].end == text::utf8_len(
            text::join(token_texts(tokens.take(k + 1)), seq![' ']),
        ),
    decreases k,
{
    let here = token_texts(tokens.take(k + 1));
    if k == 0 {
        assert(here =~= seq![tokens[0].text]);
    } else {
        lemma_token_ends(tokens, k - 1);
        assert(here.drop_last() =~= token_texts(tokens.take(k)));
        let head = text::join(here.drop_last(), seq![' ']);
        text::lemma_utf8_len_concat(head + seq![' '], tokens[k].text);
        text::lemma_utf8_len_concat(head, seq![' ']);
        assert(text::utf8_len(seq![' ']) == 1) by {
            assert(seq![' '].skip(1) =~= Seq::empty());
            assert(text::utf8_len(seq![' '].skip(1)) == 0);
        }
        assert(tokens[k - 1].end + 1 == tokens[k].start);
    }
}

/// The title of a file that is named by plain words and tags, with dots,
/// spaces, underscores or plus signs between them, is the words with single
/// spaces between them, whatever the tags are once the first of them is one: a
/// resolution, source, codec, audio format, HDR format or year.
pub proof fn law_tagged_name_gives_its_title(
    ws: Seq<Seq<char>>,
    tags: Seq<Seq<char>>,
    sep: char,
    ext: Seq<char>,
    opts: ParseOptions,
)
    requires
        is_plain_title(ws),
        ends_title(tags, opts),
        forall|i: int| 0 <= i < tags.len() ==> is_tag_text(#[trigger] tags[i]),
        sep == ' ' || sep == '.' || sep == '_' || sep == '+',
        !ext.contains('.'),
        pattern::captures_of(edition_pattern(), text::join(ws + tags, seq![' '])) matches Some(
            found,
        ) ==> text::utf8_len(text::join(ws, seq![' '])) <= text::utf8_len(found.before),
    ensures
        movie_fields(
            text::join(ws + tags, seq![sep]) + seq!['.'] + ext,
            opts,
        ).title.ok() == Some(text::join(ws, seq![' '])),
{
    let all = ws + tags;
    let filename = text::join(all, seq![sep]) + seq!['.'] + ext;
    assert forall|i: int| 0 <= i < all.len() implies is_name_word(#[trigger] all[i]) by {
        if i < ws.len() {
            let w = ws[i];
            assert(all[i] == w);
            assert(is_plain_word(w));
            assert forall|j: int| 0 <= j < w.len() implies is_name_char(#[trigger] w[j]) by {
                assert(is_letter(w[j]));
            }
        } else {
            let w = tags[i - ws.len()];
            assert(all[i] == w);
            assert(is_tag_text(w));
            assert forall|j: int| 0 <= j < w.len() implies is_name_char(#[trigger] w[j]) by {
                assert(is_letter(w[j]) || text::is_digit(w[j]) || w[j] == '(' || w[j] == ')');
            }
        }
    }
    lemma_tokens_of_joined(all, sep, ext);
    let tokens = tokens_of(filename);
    let n = ws.len() as int;
    assert(token_texts(tokens).len() == tokens.len());
    law_tokens_make_up_the_normal_form(filename);
    law_tokens_in_order(normal_form(filename), 0);
    assert(tokens == tokens_from(normal_form(filename), 0));
    lemma_token_ends(tokens, n - 1);
    assert(token_texts(tokens.take(n)) =~= ws) by {
        assert forall|i: int| 0 <= i < n implies token_texts(tokens.take(n))[i] == ws[i] by {
            assert(token_texts(tokens)[i] == ws[i]);
        }
    }
    law_title_is_the_words_before_the_tags(filename, ws, tags, opts);
}

/// Whether a text may stand as a tag between separators: letters, digits and
/// round brackets.
pub open spec fn is_tag_text(w: Seq<char>) -> bool {
    w.len() > 0 && forall|i: int|
        0 <= i < w.len() ==> is_letter(#[trigger] w[i]) || text::is_digit(w[i]) || w[i] == '('
            || w[i] == ')'
}

} // verus!
