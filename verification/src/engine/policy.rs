//! What the conflict policies make of a destination that is taken.

use crate::domain::config::{CompareField, ConflictPolicy};
use crate::domain::fs::{bytes, is_file, FileMeta, Tree};
use crate::domain::path::PathView;
use crate::domain::plan::SkipReason;
use crate::engine::reconcile::{judged, look_identical};
use crate::hashing::blake3_hex;
use vstd::prelude::*;

verus! {

/// A taken destination is replaced under the policy to replace and no other,
/// and never where a directory stands there. The policy to rename alone leads
/// elsewhere. The policy to skip leaves the source; that to skip what is the
/// same does so for a file with the same contents only. Under all the rest, and
/// in all other cases, what stands there is reported as a conflict.
pub proof fn law_policy_decides_over_a_taken_destination(
    policy: ConflictPolicy,
    meta: FileMeta,
    to: PathView,
    identical: bool,
    next: PathView,
)
    ensures
        ({
            let d = judged(policy, meta, to, identical, next);
            &&& d is Replace <==> policy == ConflictPolicy::Replace && !meta.is_dir
            &&& d is Move <==> policy == ConflictPolicy::RenameNew
            &&& d is Move ==> d->to == next
            &&& d is Skip && d->reason == SkipReason::Conflict <==> policy == ConflictPolicy::Skip
            &&& d is Skip && d->reason == SkipReason::Identical <==> policy
                == ConflictPolicy::SkipIfIdentical && identical && !meta.is_dir
            &&& d is Conflict <==> {
                ||| policy == ConflictPolicy::Report
                ||| policy == ConflictPolicy::SkipIfIdentical && !identical
                ||| policy != ConflictPolicy::Skip && policy != ConflictPolicy::RenameNew
                    && meta.is_dir
            }
            &&& d is Conflict ==> d->existing.path == to && d->existing.len == meta.len
        }),
{
}

/// Two files with the same bytes are found to be the same, whatever they are
/// compared by. Files of different lengths are not where the size counts, as it
/// does where nothing is chosen to compare by; nor are files with different
/// hashes where the hash counts.
pub proof fn law_same_bytes_look_identical(
    t: Tree,
    compare: Seq<CompareField>,
    from: PathView,
    to: PathView,
)
    requires
        t.dom().contains(from),
        t.dom().contains(to),
        is_file(t, from),
        is_file(t, to),
    ensures
        bytes(t, from) == bytes(t, to) ==> look_identical(t, compare, from, to),
        bytes(t, from).len() != bytes(t, to).len() && (compare.len() == 0 || compare.contains(
            CompareField::Size,
        )) ==> !look_identical(t, compare, from, to),
        blake3_hex(bytes(t, from)) != blake3_hex(bytes(t, to)) && compare.contains(
            CompareField::Blake3,
        ) ==> !look_identical(t, compare, from, to),
{
    if compare.len() > 0 {
        assert(compare.contains(compare[0]));
    }
}

} // verus!
