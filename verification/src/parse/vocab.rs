//! Tag vocabularies.

use crate::text;
use vstd::prelude::*;

verus! {

/// The resolution tags, in order of preference.
pub open spec fn resolution_words() -> Seq<Seq<char>> {
    seq![
        "4320p"@,
        "8K"@,
        "2160p"@,
        "4K"@,
        "1440p"@,
        "1080p"@,
        "720p"@,
        "576p"@,
        "480p"@,
    ]
}

/// The resolution tags, in order of preference.
pub fn resolution_patterns() -> (r: &'static [&'static str])
    ensures
        r.deep_view() == resolution_words(),
{
    &[
        "4320p",
        "8K",
        "2160p",
        "4K",
        "1440p",
        "1080p",
        "720p",
        "576p",
        "480p",
    ]
}

/// The source tags, in order of preference.
pub open spec fn source_words() -> Seq<Seq<char>> {
    seq![
        "REMUX"@,
        "BluRay"@,
        "BDRip"@,
        "BRRip"@,
        "WEB-DL"@,
        "WEBDL"@,
        "WEB-Rip"@,
        "WEBRip"@,
        "HDRip"@,
        "DVDRip"@,
        "DVD-Rip"@,
        "HDTV"@,
        "PDTV"@,
        "VHSRip"@,
        "CAM"@,
        "TS"@,
        "TC"@,
        "SCR"@,
        "R5"@,
        "LD"@,
    ]
}

/// The source tags, in order of preference.
pub fn source_patterns() -> (r: &'static [&'static str])
    ensures
        r.deep_view() == source_words(),
{
    &[
        "REMUX",
        "BluRay",
        "BDRip",
        "BRRip",
        "WEB-DL",
        "WEBDL",
        "WEB-Rip",
        "WEBRip",
        "HDRip",
        "DVDRip",
        "DVD-Rip",
        "HDTV",
        "PDTV",
        "VHSRip",
        "CAM",
        "TS",
        "TC",
        "SCR",
        "R5",
        "LD",
    ]
}

/// The video codec tags, in order of preference.
pub open spec fn video_codec_words() -> Seq<Seq<char>> {
    seq![
        "x265"@,
        "x264"@,
        "h265"@,
        "h264"@,
        "HEVC"@,
        "AVC"@,
        "XviD"@,
        "DivX"@,
        "AV1"@,
        "VP9"@,
    ]
}

/// The video codec tags, in order of preference.
pub fn video_codec_patterns() -> (r: &'static [&'static str])
    ensures
        r.deep_view() == video_codec_words(),
{
    &[
        "x265",
        "x264",
        "h265",
        "h264",
        "HEVC",
        "AVC",
        "XviD",
        "DivX",
        "AV1",
        "VP9",
    ]
}

/// The audio format tags, in order of preference.
pub open spec fn audio_words() -> Seq<Seq<char>> {
    seq![
        "Atmos"@,
        "TrueHD"@,
        "DTS-HD"@,
        "DTS-HD MA"@,
        "DTS"@,
        "DDP5.1"@,
        "DDP"@,
        "DD5.1"@,
        "E-AC3"@,
        "AC3"@,
        "AAC"@,
        "FLAC"@,
        "MP3"@,
        "Vorbis"@,
        "Opus"@,
    ]
}

/// The audio format tags, in order of preference.
pub fn audio_patterns() -> (r: &'static [&'static str])
    ensures
        r.deep_view() == audio_words(),
{
    &[
        "Atmos",
        "TrueHD",
        "DTS-HD",
        "DTS-HD MA",
        "DTS",
        "DDP5.1",
        "DDP",
        "DD5.1",
        "E-AC3",
        "AC3",
        "AAC",
        "FLAC",
        "MP3",
        "Vorbis",
        "Opus",
    ]
}

/// The dynamic range tags, in order of preference.
pub open spec fn hdr_words() -> Seq<Seq<char>> {
    seq![
        "HDR10+"@,
        "HDR10"@,
        "HDR"@,
        "Dolby Vision"@,
        "DV"@,
        "HLG"@,
        "SDR"@,
    ]
}

/// The dynamic range tags, in order of preference.
pub fn hdr_patterns() -> (r: &'static [&'static str])
    ensures
        r.deep_view() == hdr_words(),
{
    &[
        "HDR10+",
        "HDR10",
        "HDR",
        "Dolby Vision",
        "DV",
        "HLG",
        "SDR",
    ]
}

/// The edition phrases, in order of preference.
pub open spec fn edition_words() -> Seq<Seq<char>> {
    seq![
        "Director's Cut"@,
        "Directors Cut"@,
        "Extended Cut"@,
        "Extended"@,
        "Theatrical Cut"@,
        "Theatrical"@,
        "Unrated"@,
        "Uncut"@,
        "Remastered"@,
        "Criterion"@,
        "IMAX"@,
        "Ultimate Edition"@,
        "Special Edition"@,
    ]
}

/// The edition phrases, in order of preference.
pub fn edition_patterns() -> (r: &'static [&'static str])
    ensures
        r.deep_view() == edition_words(),
{
    &[
        "Director's Cut",
        "Directors Cut",
        "Extended Cut",
        "Extended",
        "Theatrical Cut",
        "Theatrical",
        "Unrated",
        "Uncut",
        "Remastered",
        "Criterion",
        "IMAX",
        "Ultimate Edition",
        "Special Edition",
    ]
}

/// Every word with a meaning of its own to the movie parser.
pub open spec fn reserved_words() -> Seq<Seq<char>> {
    resolution_words() + source_words() + video_codec_words() + audio_words() + hdr_words()
        + edition_words()
}

/// Whether a tag is a reserved word, whatever its case.
pub open spec fn is_reserved(tag: Seq<char>) -> bool {
    exists|i: int|
        0 <= i < reserved_words().len() && text::eq_ignore_case(#[trigger] reserved_words()[i], tag)
}

/// Appends a list of words as owned strings.
fn extend_words(out: &mut Vec<String>, list: &[&str])
    ensures
        final(out).deep_view() == old(out).deep_view() + list.deep_view(),
{
    let mut i: usize = 0;
    while i < list.len()
        invariant
            i <= list@.len(),
            out.deep_view() == old(out).deep_view() + list.deep_view().take(i as int),
        decreases list@.len() - i,
    {
        let ghost before = out.deep_view();
        out.push(list[i].to_string());
        proof {
            assert(out.deep_view() =~= before.push(list.deep_view()[i as int]));
            assert(list.deep_view().take(i + 1) =~= list.deep_view().take(i as int).push(
                list.deep_view()[i as int],
            ));
        }
        i = i + 1;
    }
    proof {
        assert(list.deep_view().take(i as int) =~= list.deep_view());
    }
}

/// All words that have a reserved syntactic meaning in the movie parser.
pub fn all_reserved_words() -> (r: Vec<String>)
    ensures
        r.deep_view() == reserved_words(),
{
    let mut out: Vec<String> = Vec::new();
    proof {
        assert(out.deep_view() =~= Seq::empty());
    }
    extend_words(&mut out, resolution_patterns());
    extend_words(&mut out, source_patterns());
    extend_words(&mut out, video_codec_patterns());
    extend_words(&mut out, audio_patterns());
    extend_words(&mut out, hdr_patterns());
    extend_words(&mut out, edition_patterns());
    proof {
        assert(out.deep_view() =~= reserved_words());
    }
    out
}

/// Tests whether a tag is a reserved word, whatever its case.
pub fn is_reserved_word(tag: &str) -> (r: bool)
    ensures
        r == is_reserved(tag@),
{
    let list = all_reserved_words();
    let mut i: usize = 0;
    while i < list.len()
        invariant
            i <= list@.len(),
            list.deep_view() == reserved_words(),
            forall|k: int| 0 <= k < i ==> !text::eq_ignore_case(#[trigger] reserved_words()[k], tag@),
        decreases list@.len() - i,
    {
        proof {
            assert(list.deep_view()[i as int] == list@[i as int]@);
        }
        if text::same_ignoring_case(list[i].as_str(), tag) {
            return true;
        }
        i = i + 1;
    }
    proof {
        assert(reserved_words().len() == list@.len());
    }
    false
}

/// The ISO 639-1 code of a lowercase language token; `und` for any other.
pub open spec fn language_code(t: Seq<char>) -> Seq<char> {
    if (t == "en"@ || t == "eng"@ || t == "english"@) {
        "en"@
    } else if (t == "fr"@ || t == "fre"@ || t == "fra"@ || t == "french"@) {
        "fr"@
    } else if (t == "es"@ || t == "spa"@ || t == "spanish"@) {
        "es"@
    } else if (t == "de"@ || t == "ger"@ || t == "deu"@ || t == "german"@) {
        "de"@
    } else if (t == "it"@ || t == "ita"@ || t == "italian"@) {
        "it"@
    } else if (t == "pt"@ || t == "por"@ || t == "portuguese"@) {
        "pt"@
    } else if (t == "ru"@ || t == "rus"@ || t == "russian"@) {
        "ru"@
    } else if (t == "ja"@ || t == "jpn"@ || t == "japanese"@) {
        "ja"@
    } else if (t == "zh"@ || t == "chi"@ || t == "zho"@ || t == "chinese"@) {
        "zh"@
    } else if (t == "ko"@ || t == "kor"@ || t == "korean"@) {
        "ko"@
    } else if (t == "nl"@ || t == "dut"@ || t == "nld"@ || t == "dutch"@) {
        "nl"@
    } else if (t == "sv"@ || t == "swe"@ || t == "swedish"@) {
        "sv"@
    } else if (t == "no"@ || t == "nor"@ || t == "norwegian"@) {
        "no"@
    } else if (t == "da"@ || t == "dan"@ || t == "danish"@) {
        "da"@
    } else if (t == "fi"@ || t == "fin"@ || t == "finnish"@) {
        "fi"@
    } else if (t == "pl"@ || t == "pol"@ || t == "polish"@) {
        "pl"@
    } else if (t == "ar"@ || t == "ara"@ || t == "arabic"@) {
        "ar"@
    } else if (t == "hi"@ || t == "hin"@ || t == "hindi"@) {
        "hi"@
    } else {
        "und"@
    }
}

/// Map a language token (ISO 639-1, 639-2/B/T, English name) to ISO 639-1.
/// Returns `"und"` when unknown.
pub fn normalise_language(token: &str) -> (r: String)
    ensures
        r@ == language_code(text::ascii_lowercase(token@)),
{
    let t = text::lowered_text(token);
    let code =
    if text::same_text(&t, "en") || text::same_text(&t, "eng") || text::same_text(&t, "english") {
        "en"
    } else if text::same_text(&t, "fr") || text::same_text(&t, "fre") || text::same_text(&t, "fra") || text::same_text(&t, "french") {
        "fr"
    } else if text::same_text(&t, "es") || text::same_text(&t, "spa") || text::same_text(&t, "spanish") {
        "es"
    } else if text::same_text(&t, "de") || text::same_text(&t, "ger") || text::same_text(&t, "deu") || text::same_text(&t, "german") {
        "de"
    } else if text::same_text(&t, "it") || text::same_text(&t, "ita") || text::same_text(&t, "italian") {
        "it"
    } else if text::same_text(&t, "pt") || text::same_text(&t, "por") || text::same_text(&t, "portuguese") {
        "pt"
    } else if text::same_text(&t, "ru") || text::same_text(&t, "rus") || text::same_text(&t, "russian") {
        "ru"
    } else if text::same_text(&t, "ja") || text::same_text(&t, "jpn") || text::same_text(&t, "japanese") {
        "ja"
    } else if text::same_text(&t, "zh") || text::same_text(&t, "chi") || text::same_text(&t, "zho") || text::same_text(&t, "chinese") {
        "zh"
    } else if text::same_text(&t, "ko") || text::same_text(&t, "kor") || text::same_text(&t, "korean") {
        "ko"
    } else if text::same_text(&t, "nl") || text::same_text(&t, "dut") || text::same_text(&t, "nld") || text::same_text(&t, "dutch") {
        "nl"
    } else if text::same_text(&t, "sv") || text::same_text(&t, "swe") || text::same_text(&t, "swedish") {
        "sv"
    } else if text::same_text(&t, "no") || text::same_text(&t, "nor") || text::same_text(&t, "norwegian") {
        "no"
    } else if text::same_text(&t, "da") || text::same_text(&t, "dan") || text::same_text(&t, "danish") {
        "da"
    } else if text::same_text(&t, "fi") || text::same_text(&t, "fin") || text::same_text(&t, "finnish") {
        "fi"
    } else if text::same_text(&t, "pl") || text::same_text(&t, "pol") || text::same_text(&t, "polish") {
        "pl"
    } else if text::same_text(&t, "ar") || text::same_text(&t, "ara") || text::same_text(&t, "arabic") {
        "ar"
    } else if text::same_text(&t, "hi") || text::same_text(&t, "hin") || text::same_text(&t, "hindi") {
        "hi"
    } else {
        "und"
    };
    code.to_string()
}

} // verus!
