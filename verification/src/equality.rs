//! When two trees are equal.

use vstd::prelude::*;
use vstd::std_specs::cmp::PartialEqSpecImpl;
use crate::tree::Tree;

verus! {

impl PartialEq for Tree {
    /// Whether the two trees are the same expression.
    fn eq(&self, other: &Tree) -> (same: bool) {
        self.same_as(other)
    }
}

impl PartialEqSpecImpl for Tree {
    open spec fn obeys_eq_spec() -> bool {
        true
    }

    open spec fn eq_spec(&self, other: &Tree) -> bool {
        self@ == other@
    }
}

} // verus!
