//! Solutions are ordered by their cost alone.

use super::Solution;
use std::cmp::Ordering;
use vstd::prelude::*;

verus! {

impl<N: PartialEq> PartialOrd for Solution<N> {
    fn partial_cmp(&self, other: &Self) -> (order: Option<Ordering>) {
        let mine = self.cost();
        let theirs = other.cost();
        if mine < theirs {
            Some(Ordering::Less)
        } else if mine > theirs {
            Some(Ordering::Greater)
        } else {
            Some(Ordering::Equal)
        }
    }
}

impl<N: PartialEq> vstd::std_specs::cmp::PartialOrdSpecImpl for Solution<N> {
    open spec fn obeys_partial_cmp_spec() -> bool {
        true
    }

    open spec fn partial_cmp_spec(&self, other: &Self) -> Option<Ordering> {
        if self@.cost < other@.cost {
            Some(Ordering::Less)
        } else if self@.cost > other@.cost {
            Some(Ordering::Greater)
        } else {
            Some(Ordering::Equal)
        }
    }
}

} // verus!
