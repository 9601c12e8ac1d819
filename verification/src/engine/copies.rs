//! Where numbered copies go.

use crate::domain::path::{law_extension_is_read_back, law_name_is_stem_and_extension, PathView};
use crate::engine::reconcile::copy_path;
use crate::parse::extractors::{law_copy_suffix_is_parted, split_copy};
use crate::text;
use vstd::prelude::*;

verus! {

/// A numbered copy stands beside the file that it is a copy of, has its
/// extension, and is called as it, the number of a copy that it may have had
/// aside, with its own number in brackets behind a space. So the number can be
/// read off its name, and copies with different numbers go to different places.
pub proof fn law_copy_is_numbered_beside_the_file(dest: PathView, n: u16, m: u16)
    requires
        dest.extension() is Some,
        dest.extension()->0.len() > 0,
        2 <= n < 1888,
        2 <= m < 1888,
    ensures
        copy_path(dest, n as nat).parent() == dest.parent(),
        copy_path(dest, n as nat).extension() == dest.extension(),
        copy_path(dest, n as nat).stem() matches Some(stem) && split_copy(stem) == (
            split_copy(dest.stem()->0).0,
            Some(n),
        ),
        n != m ==> copy_path(dest, n as nat) != copy_path(dest, m as nat),
{
    lemma_copy(dest, n);
    lemma_copy(dest, m);
}

/// One numbered copy.
proof fn lemma_copy(dest: PathView, n: u16)
    requires
        dest.extension() is Some,
        dest.extension()->0.len() > 0,
        2 <= n < 1888,
    ensures
        copy_path(dest, n as nat).parent() == dest.parent(),
        copy_path(dest, n as nat).extension() == dest.extension(),
        copy_path(dest, n as nat).stem() matches Some(stem) && split_copy(stem) == (
            split_copy(dest.stem()->0).0,
            Some(n),
        ),
{
    let name = dest.file_name()->0;
    let ext = dest.extension()->0;
    law_name_is_stem_and_extension(name);
    let base = split_copy(dest.stem()->0).0;
    reveal_strlit(".");
    reveal_strlit(" (");
    reveal_strlit(")");
    assert("."@ =~= seq!['.']);
    let numbered = base + " ("@ + text::decimal(n as nat) + ")"@;
    law_copy_suffix_is_parted(base, n);
    law_extension_is_read_back(numbered, ext);
    let file = numbered + "."@ + ext;
    let to = copy_path(dest, n as nat);
    let parent = dest.parent()->0;
    assert(to == parent.child(file));
    assert(to.parts =~= parent.parts.push(file));
    assert(to.parts.last() == file);
    assert(file.len() > 3);
    assert(file != seq!['.', '.']);
    assert(to.parts.drop_last() =~= parent.parts);
}

} // verus!
