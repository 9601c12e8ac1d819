//! Copies whose contents are known.

use vstd::prelude::*;

verus! {

/// A type whose values can be copied so that the copy is known to hold the
/// same contents.
pub trait Duplicate: DeepView + Sized {
    /// A copy with the same contents.
    fn duplicate(&self) -> (r: Self)
        ensures
            r.deep_view() == self.deep_view(),
    ;
}

impl Duplicate for String {
    fn duplicate(&self) -> (r: Self) {
        self.clone()
    }
}

impl Duplicate for u16 {
    fn duplicate(&self) -> (r: Self) {
        *self
    }
}

impl Duplicate for u64 {
    fn duplicate(&self) -> (r: Self) {
        *self
    }
}

impl Duplicate for bool {
    fn duplicate(&self) -> (r: Self) {
        *self
    }
}

impl<T: Duplicate> Duplicate for Option<T> {
    fn duplicate(&self) -> (r: Self) {
        match self {
            Some(x) => Some(x.duplicate()),
            None => None,
        }
    }
}

impl<T: Duplicate> Duplicate for Vec<T> {
    fn duplicate(&self) -> (r: Self) {
        let mut out: Vec<T> = Vec::new();
        let mut i: usize = 0;
        while i < self.len()
            invariant
                i <= self@.len(),
                out.deep_view() == self.deep_view().take(i as int),
            decreases self@.len() - i,
        {
            let ghost before = out.deep_view();
            out.push(self[i].duplicate());
            proof {
                assert(out.deep_view() =~= before.push(self.deep_view()[i as int]));
                assert(out.deep_view() =~= self.deep_view().take(i + 1));
            }
            i = i + 1;
        }
        proof {
            assert(self.deep_view().take(i as int) =~= self.deep_view());
        }
        out
    }
}

} // verus!
