//! What the planning pipelines have in common: the part of an item that is
//! validated, reconciled and put into the plan.

use crate::domain::classify::FileClass;
use crate::domain::path::{FilePath, PathView};
use crate::domain::plan::{Action, ActionView, ItemId, Readiness, ReadinessView};
use vstd::prelude::*;

verus! {

/// The common part of a planner item.
#[verifier::ext_equal]
pub struct DraftView {
    pub id: ItemId,
    pub source: PathView,
    pub relative: PathView,
    pub class: FileClass,
    pub destination: Option<PathView>,
    pub destination_relative: Option<PathView>,
    pub action: ActionView,
    pub readiness: ReadinessView,
}

/// A planner item.
pub trait Drafted: Sized {
    /// What two items share if they are of the same work.
    type Key;

    /// The part of the item that is its pipeline's own.
    type Rest;

    /// The common part.
    spec fn draft(&self) -> DraftView;

    /// What the item is of, if that is known.
    spec fn identity(&self) -> Option<Self::Key>;

    /// The part that is the pipeline's own.
    spec fn rest(&self) -> Self::Rest;

    /// The class of files of which duplicates are looked for.
    spec fn main_class() -> FileClass;

    /// The number of the item.
    fn id(&self) -> (r: ItemId)
        ensures
            r == self.draft().id,
    ;

    /// Where the file is.
    fn source(&self) -> (r: &FilePath)
        ensures
            r.deep_view() == self.draft().source,
    ;

    /// Where the file is, from the root.
    fn relative(&self) -> (r: &FilePath)
        ensures
            r.deep_view() == self.draft().relative,
    ;

    /// What the file is.
    fn class(&self) -> (r: FileClass)
        ensures
            r == self.draft().class,
    ;

    /// Where the file is to go.
    fn destination(&self) -> (r: Option<&FilePath>)
        ensures
            r.deep_view() == self.draft().destination,
    ;

    /// Where the file is to go, from the root.
    fn destination_relative(&self) -> (r: Option<&FilePath>)
        ensures
            r.deep_view() == self.draft().destination_relative,
    ;

    /// What is to be done.
    fn action(&self) -> (r: &Action)
        ensures
            r.deep_view() == self.draft().action,
    ;

    /// Whether the item is ready.
    fn readiness(&self) -> (r: &Readiness)
        ensures
            r.deep_view() == self.draft().readiness,
    ;

    /// Whether the item is of the class of which duplicates are looked for.
    fn is_main(&self) -> (r: bool)
        ensures
            r == (self.draft().class == Self::main_class()),
    ;

    /// Whether it is known what the item is of.
    fn is_identified(&self) -> (r: bool)
        ensures
            r == (self.identity() is Some),
    ;

    /// Whether two items are known to be of the same work.
    fn same_identity(&self, other: &Self) -> (r: bool)
        ensures
            r == (self.identity() is Some && self.identity() == other.identity()),
    ;

    /// Says what is to be done.
    fn set_action(&mut self, action: Action)
        ensures
            final(self).draft() == (DraftView { action: action.deep_view(), ..old(self).draft() }),
            final(self).identity() == old(self).identity(),
            final(self).rest() == old(self).rest(),
    ;

    /// Says where the file is to go.
    fn set_destination(&mut self, to: FilePath)
        ensures
            final(self).draft() == (DraftView {
                destination: Some(to.deep_view()),
                ..old(self).draft()
            }),
            final(self).identity() == old(self).identity(),
            final(self).rest() == old(self).rest(),
    ;

    /// Says where the file is to go from the root.
    fn set_destination_relative(&mut self, to: FilePath)
        ensures
            final(self).draft() == (DraftView {
                destination_relative: Some(to.deep_view()),
                ..old(self).draft()
            }),
            final(self).identity() == old(self).identity(),
            final(self).rest() == old(self).rest(),
    ;
}

/// The common parts of items.
pub open spec fn drafts<T: Drafted>(items: Seq<T>) -> Seq<DraftView> {
    Seq::new(items.len(), |i: int| items[i].draft())
}

/// Whether two lists of items differ in nothing but the common parts.
pub open spec fn same_rest<T: Drafted>(a: Seq<T>, b: Seq<T>) -> bool {
    &&& a.len() == b.len()
    &&& forall|i: int|
        0 <= i < a.len() ==> (#[trigger] a[i]).identity() == b[i].identity() && a[i].rest()
            == b[i].rest()
}

} // verus!
