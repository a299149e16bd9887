//! The exact baseline: a std `HashSet` offered through the membership
//! capability, the reference oracle for the approximate filters.

use vstd::prelude::*;

verus! {

use std::collections::HashSet;
use vstd::std_specs::hash::builds_valid_hashers;
use vstd::std_specs::hash::obeys_key_model;
use crate::set_membership::SetMembership;

broadcast use vstd::std_specs::hash::group_hash_axioms;

impl<T: core::cmp::Eq + core::hash::Hash + Copy> SetMembership<T> for HashSet<T> {
    type InsertError = core::convert::Infallible;

    open spec fn sm_wf(&self) -> bool {
        obeys_key_model::<T>() && builds_valid_hashers::<std::hash::RandomState>()
    }

    open spec fn sm_contains(&self, item: T) -> bool {
        self@.contains(item)
    }

    fn contains(&self, item: &T) -> (r: bool) {
        HashSet::<T>::contains(self, item)
    }

    fn insert(&mut self, item: &T) -> (r: Result<(), core::convert::Infallible>) {
        HashSet::<T>::insert(self, *item);
        proof {
            assert(self@.contains(*item));
        }
        Ok(())
    }
}

} // verus!
