//! Choose when unread payloads are destroyed after the last receiver drops.
//!
//! Both policies disconnect the channel and wake blocked senders. The policy
//! is fixed at construction and inherited by every lane.
use vstd::prelude::*;

verus! {

/// Marks the policies of this crate.
pub trait Sealed {

}

/// A channel's teardown policy. Only [`Deferred`] and [`Coordinated`] implement it.
pub trait Teardown: Sealed {
    /// Whether the last receiver reclaims unread payloads itself.
    spec fn reclaims() -> bool;

    /// Whether the last receiver reclaims unread payloads itself.
    fn coordinated() -> (reclaims: bool)
        ensures
            reclaims == Self::reclaims(),
    ;
}

/// Defer destruction of unread ring payloads until their sender releases the ring.
///
/// This is the default. Dropping the last receiver disconnects the channel but
/// may retain unread payloads for as long as sender handles remain alive.
#[derive(Debug, Clone, Copy, Default)]
pub struct Deferred;

/// Reclaim unread payloads without requiring sender handles to be dropped.
///
/// The last receiver drains unread values and hands any remaining cleanup to
/// an overlapping send, which destroys them when it finishes.
#[derive(Debug, Clone, Copy, Default)]
pub struct Coordinated;

impl Sealed for Deferred {

}

impl Sealed for Coordinated {

}

impl Teardown for Deferred {
    open spec fn reclaims() -> bool {
        false
    }

    fn coordinated() -> (reclaims: bool) {
        false
    }
}

impl Teardown for Coordinated {
    open spec fn reclaims() -> bool {
        true
    }

    fn coordinated() -> (reclaims: bool) {
        true
    }
}

} // verus!
