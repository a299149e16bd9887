//! Approximate set membership structures and their shared capability.

use vstd::prelude::*;

pub mod bloom;
pub mod cuckoo;
pub mod hash_set;

verus! {

/// The membership capability: ask whether an item was seen, and record
/// one.  Implementations answer through their own membership predicate
/// `sm_contains`, which may err on the positive side but never loses an
/// item it reported inserted.
pub trait SetMembership<T> {
    type InsertError;

    /// Structural well-formedness of the receiver.
    spec fn sm_wf(&self) -> bool;

    /// The membership predicate the implementation answers with.
    spec fn sm_contains(&self, item: T) -> bool;

    fn contains(&self, item: &T) -> (r: bool)
        requires
            self.sm_wf(),
        ensures
            r == self.sm_contains(*item),
    ;

    fn insert(&mut self, item: &T) -> (r: Result<(), Self::InsertError>)
        requires
            old(self).sm_wf(),
        ensures
            final(self).sm_wf(),
            r.is_ok() ==> final(self).sm_contains(*item),
    ;
}

} // verus!
