//! Validate stage: containment, length, and whether there is anything to do.

use crate::domain::duplicate::Duplicate;
use crate::domain::error::{note, Diagnostic, DiagnosticView, Severity};
use crate::domain::path::{normalise_relative, resolved, FilePath, PathView};
use crate::domain::volume::VolumeSemantics;
use crate::engine::reconcile::{join_keys, joined_keys};
use crate::text;
use vstd::prelude::*;

verus! {

/// Validation outcome for a planned item.
#[derive(Debug, Clone, PartialEq, Eq)]
pub enum Validation {
    Passed,
    NoOp,
    ContainmentBreach { path: FilePath },
    TooLong { path: FilePath },
    EmptyName { path: FilePath },
}

/// The contents of a [`Validation`].
#[verifier::ext_equal]
pub enum ValidationView {
    Passed,
    NoOp,
    ContainmentBreach { path: PathView },
    TooLong { path: PathView },
    EmptyName { path: PathView },
}

impl DeepView for Validation {
    type V = ValidationView;

    open spec fn deep_view(&self) -> ValidationView {
        match *self {
            Validation::Passed => ValidationView::Passed,
            Validation::NoOp => ValidationView::NoOp,
            Validation::ContainmentBreach { path } => ValidationView::ContainmentBreach {
                path: path.deep_view(),
            },
            Validation::TooLong { path } => ValidationView::TooLong { path: path.deep_view() },
            Validation::EmptyName { path } => ValidationView::EmptyName {
                path: path.deep_view(),
            },
        }
    }
}

/// Whether a path from the root leads to something under it.
pub open spec fn is_contained(relative: PathView) -> bool {
    !relative.absolute && (resolved(relative.parts) matches Some(parts) && parts.len() > 0)
}

/// Whether the volume takes two paths for the same file.
pub open spec fn same_file(a: PathView, b: PathView, v: VolumeSemantics) -> bool {
    joined_keys(a, v, '\\') == joined_keys(b, v, '\\')
}

/// Whether the volume takes two paths for the same file.
pub fn same_file_under_semantics(a: &FilePath, b: &FilePath, volume: &VolumeSemantics) -> (r: bool)
    ensures
        r == same_file(a.deep_view(), b.deep_view(), *volume),
{
    let x = join_keys(a, volume, '\\');
    let y = join_keys(b, volume, '\\');
    text::same_chars(&x, &y)
}

/// The verdict on a destination.
pub open spec fn verdict(
    source: PathView,
    absolute: PathView,
    relative: PathView,
    v: VolumeSemantics,
) -> ValidationView {
    if !is_contained(relative) {
        ValidationView::ContainmentBreach { path: absolute }
    } else if text::utf8_len(absolute.text()) > v.max_total {
        ValidationView::TooLong { path: absolute }
    } else if same_file(source, absolute, v) {
        ValidationView::NoOp
    } else {
        ValidationView::Passed
    }
}

/// What is said of a destination.
pub open spec fn remarks(
    source: PathView,
    absolute: PathView,
    relative: PathView,
    v: VolumeSemantics,
) -> Seq<DiagnosticView> {
    if verdict(source, absolute, relative, v) is TooLong {
        seq![
            note(
                Severity::Failure,
                "validate"@,
                "path too long ("@ + text::decimal(text::utf8_len(absolute.text())) + " > "@
                    + text::decimal(v.max_total as nat) + ")"@,
            ),
        ]
    } else {
        Seq::empty()
    }
}

/// Validate a destination relative to root.
pub fn validate_destination(
    _root: &FilePath,
    source: &FilePath,
    absolute_dest: &FilePath,
    relative_dest: &FilePath,
    volume: &VolumeSemantics,
) -> (r: (Validation, Vec<Diagnostic>))
    ensures
        r.0.deep_view() == verdict(
            source.deep_view(),
            absolute_dest.deep_view(),
            relative_dest.deep_view(),
            *volume,
        ),
        r.1.deep_view() == remarks(
            source.deep_view(),
            absolute_dest.deep_view(),
            relative_dest.deep_view(),
            *volume,
        ),
{
    let mut diagnostics: Vec<Diagnostic> = Vec::new();
    proof {
        assert(diagnostics.deep_view() =~= Seq::empty());
    }
    let contained = match normalise_relative(relative_dest) {
        Some(rel) => rel.parts.len() > 0,
        None => false,
    };
    if !contained {
        return (
            Validation::ContainmentBreach { path: absolute_dest.duplicate() },
            diagnostics,
        );
    }
    let total_len: usize = text::byte_len(&absolute_dest.to_text());
    if total_len as u64 > volume.max_total as u64 {
        let message = "path too long (".to_string().concat(
            &text::decimal_text(total_len as u64),
        ).concat(" > ").concat(&text::decimal_text(volume.max_total as u64)).concat(")");
        let ghost m = message@;
        diagnostics.push(Diagnostic::failure("validate", message));
        proof {
            assert(diagnostics.deep_view() =~= seq![note(Severity::Failure, "validate"@, m)]);
        }
        return (Validation::TooLong { path: absolute_dest.duplicate() }, diagnostics);
    }
    if same_file_under_semantics(source, absolute_dest, volume) {
        return (Validation::NoOp, diagnostics);
    }
    (Validation::Passed, diagnostics)
}

/// A destination that passes lies under the root: there is no `..` in it once
/// it has been resolved, and something is left of it.
pub proof fn law_passed_destination_is_contained(
    source: PathView,
    absolute: PathView,
    relative: PathView,
    v: VolumeSemantics,
)
    requires
        verdict(source, absolute, relative, v) is Passed || verdict(
            source,
            absolute,
            relative,
            v,
        ) is NoOp,
    ensures
        is_contained(relative),
        resolved(relative.parts) matches Some(parts) && forall|i: int|
            0 <= i < parts.len() ==> #[trigger] parts[i] != ".."@,
{
    crate::domain::path::law_normalised_has_no_parent_dir(relative.parts);
}

} // verus!
