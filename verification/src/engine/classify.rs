//! Classify stage.

use crate::domain::classify::{is_artwork, is_artwork_stem, is_metadata, is_metadata_ext, FileClass};
use crate::domain::config::{lists, Config};
use crate::domain::path::{FilePath, PathView};
use crate::engine::scan::{ScannedFile, ScannedView};
use crate::text;
use vstd::prelude::*;

verus! {

/// The class of a file: by its extension, and where that says nothing by its
/// name.
pub open spec fn class_of_file(p: PathView, cfg: Config) -> FileClass {
    let ext = match p.extension() {
        Some(e) => text::ascii_lowercase(e),
        None => Seq::empty(),
    };
    let class = cfg.extensions.class_of(ext);
    if class == FileClass::Unknown {
        match p.stem() {
            Some(stem) => if is_artwork(stem) {
                FileClass::Artwork
            } else if is_metadata(ext) {
                FileClass::Metadata
            } else {
                class
            },
            None => class,
        }
    } else {
        class
    }
}

/// The class of a file.
pub fn classify_one(p: &FilePath, cfg: &Config) -> (r: FileClass)
    ensures
        r == class_of_file(p.deep_view(), *cfg),
{
    let ext = match p.extension() {
        Some(e) => text::lowered_text(&e),
        None => {
            let none = String::new();
            proof {
                reveal_strlit("");
                assert(none@ =~= Seq::empty());
            }
            none
        },
    };
    let class = cfg.classify_ext(&ext);
    if class == FileClass::Unknown {
        if let Some(stem) = p.file_stem() {
            if is_artwork_stem(&stem) {
                return FileClass::Artwork;
            }
            if is_metadata_ext(&ext) {
                return FileClass::Metadata;
            }
        }
    }
    class
}

/// Scanned files with their classes.
pub open spec fn classified(files: Seq<ScannedView>, cfg: Config) -> Seq<ScannedView> {
    Seq::new(
        files.len(),
        |i: int| ScannedView { class: class_of_file(files[i].absolute, cfg), ..files[i] },
    )
}

/// Classify every scanned file by extension and filename heuristic.
pub fn classify(files: &mut Vec<ScannedFile>, cfg: &Config)
    ensures
        final(files).deep_view() == classified(old(files).deep_view(), *cfg),
{
    let ghost v = files.deep_view();
    let mut i: usize = 0;
    while i < files.len()
        invariant
            i <= files@.len(),
            files@.len() == v.len(),
            forall|k: int|
                0 <= k < i ==> (#[trigger] files@[k]).deep_view() == classified(v, *cfg)[k],
            forall|k: int| i <= k < v.len() ==> (#[trigger] files@[k]).deep_view() == v[k],
        decreases files@.len() - i,
    {
        let class = classify_one(&files[i].absolute, cfg);
        let ghost held = files@;
        files[i].class = class;
        proof {
            assert(held[i as int].deep_view() == v[i as int]);
            assert forall|k: int| 0 <= k < i + 1 implies (#[trigger] files@[k]).deep_view()
                == classified(v, *cfg)[k] by {
                if k < i {
                    assert(files@[k] == held[k]);
                }
            }
        }
        i = i + 1;
    }
    proof {
        assert(files.deep_view() =~= classified(v, *cfg));
    }
}

/// Whether a list has an extension, letter case aside.
pub open spec fn has_extension(list: Seq<Seq<char>>, ext: Seq<char>) -> bool {
    exists|i: int|
        0 <= i < list.len() && text::ascii_lowercase(#[trigger] list[i]) == text::ascii_lowercase(
            ext,
        )
}

/// A file is of the class in whose list its extension is, whatever the case of
/// its letters; where it is in several, of the first of video, audio, subtitle,
/// artwork and metadata. Only where it is in none does the name count.
pub proof fn law_extension_decides_the_class(p: PathView, cfg: Config, ext: Seq<char>)
    requires
        p.extension() == Some(ext),
    ensures
        ({
            let e = cfg.extensions;
            let video = has_extension(e.video.deep_view(), ext);
            let audio = has_extension(e.audio.deep_view(), ext);
            let subtitle = has_extension(e.subtitle.deep_view(), ext);
            let artwork = has_extension(e.artwork.deep_view(), ext);
            let metadata = has_extension(e.metadata.deep_view(), ext);
            let class = class_of_file(p, cfg);
            &&& class == FileClass::Video <==> video
            &&& class == FileClass::Audio <==> audio && !video
            &&& class == FileClass::Subtitle <==> subtitle && !video && !audio
            &&& artwork && !video && !audio && !subtitle ==> class == FileClass::Artwork
            &&& metadata && !video && !audio && !subtitle && !artwork ==> class
                == FileClass::Metadata
        }),
{
    let e = cfg.extensions;
    lemma_lists(e.video.deep_view(), ext);
    lemma_lists(e.audio.deep_view(), ext);
    lemma_lists(e.subtitle.deep_view(), ext);
    lemma_lists(e.artwork.deep_view(), ext);
    lemma_lists(e.metadata.deep_view(), ext);
}

/// An extension in lower case is listed where the extension is.
proof fn lemma_lists(list: Seq<Seq<char>>, ext: Seq<char>)
    ensures
        lists(list, text::ascii_lowercase(ext)) == has_extension(list, ext),
{
    let low = text::ascii_lowercase(ext);
    assert(text::ascii_lowercase(low) =~= low);
    if lists(list, low) {
        let i = choose|i: int| 0 <= i < list.len() && text::eq_ignore_case(#[trigger] list[i], low);
        assert(text::ascii_lowercase(list[i]) == low);
    }
    if has_extension(list, ext) {
        let i = choose|i: int|
            0 <= i < list.len() && text::ascii_lowercase(#[trigger] list[i])
                == text::ascii_lowercase(ext);
        assert(text::eq_ignore_case(list[i], low));
    }
}

} // verus!
