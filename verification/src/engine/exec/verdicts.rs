//! When a moved file counts as intact, and when a leftover may go or a file does
//! not matter.

use crate::domain::fs::{IoErrorView, IoKind};
use crate::engine::exec::cleanup::is_junk;
use crate::engine::exec::moves::{hash_verdict, size_verdict};
use crate::engine::exec::reclaim::{triaged, Leftover};
use crate::text;
use vstd::prelude::*;

verus! {

/// By its size a destination is intact exactly where it is there and as long as
/// the source was; in every other case the move has failed.
pub proof fn law_size_tells_intact(found: Option<u64>, expected: u64)
    ensures
        size_verdict(found, expected) is Intact <==> found == Some(expected),
        size_verdict(found, expected) is Intact || size_verdict(found, expected) is Fail,
{
}

/// By its hash a destination is intact exactly where it could be read and its
/// hash is that of the source, where there is one to compare with. A reading
/// that was interrupted is cancelled, and is neither intact nor a failure.
pub proof fn law_hash_tells_intact(
    found: Result<Seq<char>, IoErrorView>,
    expected: Option<Seq<char>>,
)
    ensures
        hash_verdict(found, expected) is Intact <==> found is Ok && (expected is None || expected
            == Some(found->Ok_0)),
        hash_verdict(found, expected) is Cancelled <==> found is Err && found->Err_0.kind
            == IoKind::Interrupted,
{
}

/// A leftover may go only where its source is there, it is itself there and
/// that it goes has been agreed to. Where the source is gone nothing may.
pub proof fn law_leftover_goes_by_consent(source_there: bool, dest_there: bool, yes: bool)
    ensures
        triaged(source_there, dest_there, yes) == Leftover::Deletable <==> source_there
            && dest_there && yes,
        triaged(source_there, dest_there, yes) == Leftover::Listed <==> source_there && dest_there
            && !yes,
        triaged(source_there, dest_there, yes) == Leftover::SourceMissing <==> !source_there,
{
}

/// Every name on the list of what does not matter is one, in whatever letter
/// case it is written, and no name is that is on the list in no letter case.
pub proof fn law_junk_goes_by_the_list(junk: Seq<Seq<char>>, name: Seq<char>)
    ensures
        is_junk(junk, name) <==> exists|i: int|
            0 <= i < junk.len() && text::ascii_lowercase(#[trigger] junk[i])
                == text::ascii_lowercase(name),
        junk.contains(name) ==> is_junk(junk, name),
{
    if is_junk(junk, name) {
        let i = choose|i: int|
            0 <= i < junk.len() && text::eq_ignore_case(#[trigger] junk[i], name);
        assert(text::ascii_lowercase(junk[i]) == text::ascii_lowercase(name));
    }
}

} // verus!
