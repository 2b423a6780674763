use vstd::multiset::Multiset;
use vstd::prelude::*;

use crate::error::Error;

pub mod queue;
pub mod sled;

verus! {

/// The abstract buffer contract: items go in through `push` and come
/// back out through `shift`, each exactly once, in an order the backend
/// chooses.
///
/// A backend keeps items in an external place (an in-memory heap, or a
/// persistent store), so the contract speaks of the bag of item
/// meanings (`deep_view`) it holds: a push adds its item to the bag,
/// and a successful shift takes the returned item out of it. Which
/// member of the bag a shift returns — insertion order or priority
/// order — is each backend's own, stronger promise. The engine shares
/// a backend between its two flows behind a reference-counted guard.
pub trait ExternalBuffer<T: DeepView>: Sized {
    /// The backend's internal well-formedness.
    spec fn inv(&self) -> bool;

    /// The bag of meanings of the items the buffer holds.
    spec fn contents(&self) -> Multiset<<T as DeepView>::V>;

    /// Whether the backend's counters have room for one more push;
    /// machine limits alone bound it.
    spec fn can_push(&self) -> bool;

    /// Add one item to the buffer. Capacity is never a reason to
    /// reject.
    fn push(&mut self, item: T) -> (r: Result<(), Error>)
        requires
            old(self).inv(),
            old(self).can_push(),
        ensures
            final(self).inv(),
            r matches Ok(()) ==> final(self).contents() == old(self).contents().insert(
                item.deep_view(),
            ),
    ;

    /// Remove and return the next item per the backend's ordering, or
    /// `None` if the buffer is empty. An empty result is no error.
    fn shift(&mut self) -> (r: Result<Option<T>, Error>)
        requires
            old(self).inv(),
        ensures
            final(self).inv(),
            r matches Ok(Some(x)) ==> old(self).contents().contains(x.deep_view())
                && final(self).contents() == old(self).contents().remove(x.deep_view()),
            r matches Ok(None) ==> final(self).contents() == old(self).contents()
                && old(self).contents().len() == 0,
    ;
}

} // verus!
