//! Dynamic MPSC channel built from one bounded ring per sender.
//!
//! A [`Channel`] holds the state that both sides share. A [`Sender`] owns one
//! lane of it, the one [`Receiver`] drains every lane. Ordering is FIFO per
//! sender and relaxed across senders.
//!
//! Every operation is one step on the shared state. An operation that would
//! block returns what to wait for instead.
use vstd::prelude::*;

use std::collections::VecDeque;

use crate::config::{is_rounded, round_capacity, validate_capacity};
use crate::count::{count, lemma_count_bound, lemma_count_push, lemma_count_update};
use crate::error::{ChannelError, TryRegisterError};
use crate::key::LaneKey;
use crate::ready::{holds_from, LaneSignal, ReadyIndex, LANES_PER_PAGE};
use crate::ring::Ring;
use crate::teardown::{Deferred, Teardown};
use crate::wait::WaitCell;

pub mod asynchronous;
pub mod calls;
pub mod laws;
pub mod look;
pub mod receiver;
pub mod sender;

verus! {

/// Maximum per-sender capacity accepted by [`channel`] and [`try_channel`]: a
/// quarter of the range of `usize`, which is a power of two.
pub const MAX_CAPACITY_PER_SENDER: usize = usize::MAX / 4 + 1;

/// Values served from one lane before it goes to the back.
pub const PREFETCH_LIMIT: usize = 64;

/// Values received between two looks at the ready index.
pub const READY_POLL_INTERVAL: usize = 64;

/// Attempts of a blocking operation before it parks.
pub const PARK_SPINS: usize = 128;

/// One sender's ring and what the receiver remembers of it.
pub struct Lane<T> {
    /// Slot and generation.
    pub key: LaneKey,
    /// Whether the receiver has to look at the lane, and the sender waiting for
    /// space.
    pub signal: LaneSignal,
    /// The values.
    pub ring: Ring<T>,
    /// Values left in the window of the ring.
    pub cached_available: usize,
    /// Values taken and not released yet.
    pub unreleased: usize,
    /// How many values are released together.
    pub release_batch: usize,
    /// Values served since the lane last came to the front.
    pub burst: usize,
}

impl<T> Lane<T> {
    /// The counts agree with the ring.
    pub open spec fn wf(&self, slot: int, capacity: nat) -> bool {
        &&& self.key.slot == slot
        &&& self.signal.wf(slot)
        &&& self.ring.wf()
        &&& self.ring.bound() == capacity
        &&& self.ring.flushed == self.ring@.len()
        &&& !self.ring.sending
        &&& !self.ring.consumer_closed ==> {
            &&& self.cached_available == self.ring.window
            &&& self.unreleased == self.ring.consumed
            &&& self.unreleased < self.release_batch
        }
        &&& self.release_batch == if capacity < PREFETCH_LIMIT {
            capacity as int
        } else {
            PREFETCH_LIMIT as int
        }
        &&& self.burst < PREFETCH_LIMIT
    }

    /// An empty lane in `key.slot`.
    pub fn new(key: LaneKey, signal: LaneSignal, ring: Ring<T>) -> (lane: Lane<T>)
        requires
            signal.wf(key.slot as int),
            ring.wf(),
            ring@.len() == 0,
            ring.consumed == 0,
            !ring.sending,
            !ring.consumer_closed,
        ensures
            lane.wf(key.slot as int, ring.bound()),
            lane.key == key,
            lane.signal == signal,
            lane.ring == ring,
            lane.burst == 0,
    {
        let capacity: usize = ring.capacity();
        let release_batch: usize = if capacity < PREFETCH_LIMIT {
            capacity
        } else {
            PREFETCH_LIMIT
        };
        Lane { key, signal, ring, cached_available: 0, unreleased: 0, release_batch, burst: 0 }
    }

    /// Give the taken slots back. Returns whether there were any.
    pub fn release_pending(&mut self) -> (released: bool)
        requires
            old(self).ring.wf(),
            old(self).unreleased == old(self).ring.consumed,
        ensures
            released == (old(self).unreleased > 0),
            *final(self) == (Lane {
                ring: Ring { consumed: 0, ..old(self).ring },
                unreleased: 0,
                ..*old(self)
            }),
            final(self).ring.wf(),
            final(self).ring@ == old(self).ring@,
    {
        if self.unreleased == 0 {
            return false;
        }
        self.ring.release();
        self.unreleased = 0;
        true
    }
}

/// Which slots hold a lane.
pub open spec fn occupied<T>(lanes: Seq<Option<Lane<T>>>) -> Seq<bool> {
    Seq::new(lanes.len(), |i: int| lanes[i] is Some)
}

/// Which slots hold a lane whose sender is alive.
pub open spec fn connected<T>(lanes: Seq<Option<Lane<T>>>) -> Seq<bool> {
    Seq::new(lanes.len(), |i: int| lanes[i] is Some && !lanes[i]->Some_0.ring.producer_closed)
}

/// Which slots hold a lane that the receiver has to look at.
pub open spec fn waiting<T>(lanes: Seq<Option<Lane<T>>>) -> Seq<bool> {
    Seq::new(lanes.len(), |i: int| lanes[i] is Some && lanes[i]->Some_0.signal.pending)
}

/// The state shared by the senders and the receiver of one channel.
pub struct Channel<T> {
    /// The lanes by slot.
    pub lanes: Vec<Option<Lane<T>>>,
    /// Slots that can be used again.
    pub free: Vec<LaneKey>,
    /// Lanes that became pending and were not taken up by the receiver.
    pub ready: ReadyIndex,
    /// Slots the receiver serves, front first.
    pub active: VecDeque<usize>,
    /// Where the receiver next looks for a ready group.
    pub ready_group_cursor: usize,
    /// Values left until the receiver looks at the ready index.
    pub items_until_ready_poll: usize,
    /// Lanes that were registered and not retired.
    pub registered_lanes: usize,
    /// Senders that are alive.
    pub live_senders: usize,
    /// Whether the receiver is alive.
    pub receiver_alive: bool,
    /// The receiver waiting for data.
    pub data_waiter: WaitCell,
    /// Slots of each ring.
    pub capacity: usize,
    /// Whether a dropped receiver discards unread values at once.
    pub coordinated: bool,
}

/// Sending half: the owner of one lane.
#[derive(Debug)]
pub struct Sender {
    /// The lane.
    pub key: LaneKey,
}

/// Receiving half.
#[derive(Debug)]
pub struct Receiver {
    /// Slots of each ring.
    pub capacity: usize,
}

impl<T> Channel<T> {
    /// Whether `slot` holds a lane.
    pub open spec fn present(&self, slot: int) -> bool {
        0 <= slot < self.lanes@.len() && self.lanes@[slot] is Some
    }

    /// The lane in `slot`.
    pub open spec fn lane(&self, slot: int) -> Lane<T> {
        self.lanes@[slot]->Some_0
    }

    /// The values sent through `slot` and not received, oldest first.
    pub open spec fn unread(&self, slot: int) -> Seq<T> {
        self.lane(slot).ring@
    }

    /// Whether `slot` holds an unread value.
    pub open spec fn has_data(&self, slot: int) -> bool {
        self.present(slot) && self.unread(slot).len() > 0
    }

    /// Whether no lane holds an unread value.
    pub open spec fn is_empty(&self) -> bool {
        forall|slot: int| !#[trigger] self.has_data(slot)
    }

    /// Whether the receiver has to look at the lane in `slot`.
    pub open spec fn pending(&self, slot: int) -> bool {
        self.present(slot) && self.lane(slot).signal.pending
    }

    /// Whether the receiver serves `slot`.
    pub open spec fn in_active(&self, slot: int) -> bool {
        holds_from(self.active@, 0, slot)
    }

    /// Whether `tx` is a live sender of this channel.
    pub open spec fn owns(&self, tx: &Sender) -> bool {
        let slot = tx.key.slot as int;
        self.present(slot) && self.lane(slot).key == tx.key
            && !self.lane(slot).ring.producer_closed
    }

    /// Every lane is sound.
    pub open spec fn lanes_ok(&self) -> bool {
        &&& 0 < self.lanes@.len()
        &&& 0 < self.capacity
        &&& forall|slot: int|
            0 <= slot < self.lanes@.len() && (#[trigger] self.lanes@[slot]) is Some ==> {
                &&& self.lanes@[slot]->Some_0.wf(slot, self.capacity as nat)
                &&& self.lanes@[slot]->Some_0.ring.consumer_closed == !self.receiver_alive
                &&& self.lanes@[slot]->Some_0.ring.coordinated == self.coordinated
            }
    }

    /// The free list names vacant slots, each once.
    pub open spec fn free_ok(&self) -> bool {
        &&& forall|i: int|
            0 <= i < self.free@.len() ==> (#[trigger] self.free@[i]).slot < self.lanes@.len()
                && self.lanes@[self.free@[i].slot as int] is None
        &&& forall|i: int, j: int|
            0 <= i < j < self.free@.len() ==> (#[trigger] self.free@[i]).slot != (
            #[trigger] self.free@[j]).slot
    }

    /// The counters agree with the lanes.
    pub open spec fn counts_ok(&self) -> bool {
        &&& self.live_senders == count(connected(self.lanes@))
        &&& self.receiver_alive ==> {
            &&& self.registered_lanes == count(occupied(self.lanes@))
            &&& self.free@.len() + self.registered_lanes == self.lanes@.len()
        }
    }

    /// The ready index covers the lanes.
    pub open spec fn covered(&self) -> bool {
        &&& self.ready.wf()
        &&& self.ready.pages@.len() == (self.lanes@.len() + 63) / 64
        &&& self.ready_group_cursor < self.ready.groups@.len()
    }

    /// Every pending lane is found, and no other. The lane in `hand`, if any,
    /// is held by the receiver itself.
    pub open spec fn found(&self, hand: Option<int>) -> bool {
        &&& forall|slot: int| #[trigger]
            self.ready@.contains(slot) ==> self.pending(slot) && !self.in_active(slot) && hand
                != Some(slot)
        &&& forall|i: int, j: int|
            0 <= i < j < self.active@.len() ==> self.active@[i] != self.active@[j]
        &&& forall|i: int|
            0 <= i < self.active@.len() ==> self.pending(#[trigger] self.active@[i] as int) && hand
                != Some(self.active@[i] as int)
        &&& forall|slot: int| #[trigger]
            self.pending(slot) ==> self.ready@.contains(slot) || self.in_active(slot) || hand
                == Some(slot)
        &&& hand matches Some(slot) ==> self.pending(slot)
        &&& forall|slot: int|
            0 <= slot < self.lanes@.len() && (#[trigger] self.lanes@[slot]) is Some && (
            self.lanes@[slot]->Some_0.ring@.len() > 0
                || self.lanes@[slot]->Some_0.ring.producer_closed)
                ==> self.lanes@[slot]->Some_0.signal.pending
    }

    /// The invariant, with the lane in `hand` held by the receiver.
    pub open spec fn inv(&self, hand: Option<int>) -> bool {
        &&& self.lanes_ok()
        &&& self.free_ok()
        &&& self.counts_ok()
        &&& self.covered()
        &&& self.items_until_ready_poll <= READY_POLL_INTERVAL
        &&& self.receiver_alive ==> self.found(hand)
    }

    /// The invariant between operations.
    pub open spec fn wf(&self) -> bool {
        &&& self.inv(None)
        &&& self.receiver_alive && self.items_until_ready_poll == 0 ==> self.active@.len() > 0
    }

    /// Whether two states hold the same.
    pub open spec fn unchanged(&self, other: &Channel<T>) -> bool {
        &&& self.lanes@ == other.lanes@
        &&& self.free == other.free
        &&& self.ready == other.ready
        &&& self.active == other.active
        &&& self.ready_group_cursor == other.ready_group_cursor
        &&& self.items_until_ready_poll == other.items_until_ready_poll
        &&& self.registered_lanes == other.registered_lanes
        &&& self.live_senders == other.live_senders
        &&& self.receiver_alive == other.receiver_alive
        &&& self.data_waiter == other.data_waiter
        &&& self.capacity == other.capacity
        &&& self.coordinated == other.coordinated
    }

    /// The invariant depends only on what the state holds.
    pub proof fn lemma_unchanged(&self, after: &Channel<T>)
        requires
            self.wf(),
            after.unchanged(self),
        ensures
            after.wf(),
    {
        if self.receiver_alive {
            assert forall|slot: int| #[trigger] after.pending(slot) == self.pending(slot) by {}
            assert forall|slot: int| #[trigger] after.in_active(slot) == self.in_active(slot) by {}
            assert forall|slot: int| #[trigger] after.ready@.contains(slot) implies after.pending(
                slot,
            ) && !after.in_active(slot) by {
                assert(self.ready@.contains(slot));
            }
            assert forall|i: int| 0 <= i < after.active@.len() implies after.pending(
                #[trigger] after.active@[i] as int,
            ) by {
                assert(self.pending(self.active@[i] as int));
            }
            assert forall|slot: int| #[trigger] after.pending(slot) implies after.ready@.contains(
                slot,
            ) || after.in_active(slot) by {
                assert(self.pending(slot));
            }
        }
    }

    /// What no operation of a sender or the receiver changes.
    pub open spec fn same_channel(&self, other: &Channel<T>) -> bool {
        self.capacity == other.capacity && self.coordinated == other.coordinated
    }
}

/// What a new channel looks like.
pub open spec fn is_new<T>(
    ch: &Channel<T>,
    tx: &Sender,
    rx: &Receiver,
    capacity_per_sender: usize,
    coordinated: bool,
) -> bool {
    &&& ch.wf()
    &&& is_rounded(capacity_per_sender as int, ch.capacity as int)
    &&& ch.coordinated == coordinated
    &&& ch.receiver_alive
    &&& ch.live_senders == 1
    &&& ch.registered_lanes == 1
    &&& ch.lanes@.len() == 1
    &&& ch.free@.len() == 0
    &&& ch.owns(tx)
    &&& tx.key == (LaneKey { slot: 0, generation: 0 })
    &&& is_fresh(&ch.lane(0))
    &&& ch.active@.len() == 0
    &&& ch.ready_group_cursor == 0
    &&& ch.items_until_ready_poll == READY_POLL_INTERVAL
    &&& ch.data_waiter.state == 0
    &&& !ch.data_waiter.waker
    &&& rx.capacity == ch.capacity
}

/// An empty lane that nobody has looked at.
pub open spec fn is_fresh<T>(lane: &Lane<T>) -> bool {
    &&& lane.ring@ == Seq::<T>::empty()
    &&& lane.ring.consumed == 0
    &&& lane.unreleased == 0
    &&& lane.burst == 0
    &&& !lane.signal.pending
    &&& lane.signal.space_waiter.state == 0
    &&& !lane.signal.space_waiter.waker
    &&& !lane.ring.producer_closed
}

/// Create an MPSC channel with one bounded ring per sender. A dropped receiver
/// leaves unread values to their senders.
///
/// `capacity_per_sender` is rounded up to the next power of two.
pub fn channel<T>(capacity_per_sender: usize) -> (r: (Channel<T>, Sender, Receiver))
    requires
        0 < capacity_per_sender <= MAX_CAPACITY_PER_SENDER,
    ensures
        is_new(&r.0, &r.1, &r.2, capacity_per_sender, false),
{
    build_channel::<T, Deferred>(capacity_per_sender)
}

/// Create an MPSC channel whose dropped receiver treats unread values as `P`
/// says.
pub fn channel_with_policy<T, P: Teardown>(capacity_per_sender: usize) -> (r: (
    Channel<T>,
    Sender,
    Receiver,
))
    requires
        0 < capacity_per_sender <= MAX_CAPACITY_PER_SENDER,
    ensures
        is_new(&r.0, &r.1, &r.2, capacity_per_sender, P::reclaims()),
{
    build_channel::<T, P>(capacity_per_sender)
}

/// Try to create an MPSC channel with one bounded ring per sender.
pub fn try_channel<T>(capacity_per_sender: usize) -> (r: Result<
    (Channel<T>, Sender, Receiver),
    ChannelError,
>)
    ensures
        match r {
            Ok(r) => 0 < capacity_per_sender <= MAX_CAPACITY_PER_SENDER && is_new(
                &r.0,
                &r.1,
                &r.2,
                capacity_per_sender,
                false,
            ),
            Err(ChannelError::ZeroCapacity) => capacity_per_sender == 0,
            Err(ChannelError::CapacityTooLarge { requested, max }) => capacity_per_sender
                > MAX_CAPACITY_PER_SENDER && requested == capacity_per_sender && max
                == MAX_CAPACITY_PER_SENDER,
        },
{
    match validate_capacity(capacity_per_sender, MAX_CAPACITY_PER_SENDER) {
        Ok(()) => Ok(build_channel::<T, Deferred>(capacity_per_sender)),
        Err(error) => Err(error),
    }
}

fn build_channel<T, P: Teardown>(capacity_per_sender: usize) -> (r: (Channel<T>, Sender, Receiver))
    requires
        0 < capacity_per_sender <= MAX_CAPACITY_PER_SENDER,
    ensures
        is_new(&r.0, &r.1, &r.2, capacity_per_sender, P::reclaims()),
{
    let capacity: usize = round_capacity(capacity_per_sender);
    let ring: Ring<T> = Ring::new(capacity, P::coordinated());
    let key = LaneKey { slot: 0, generation: 0 };
    let lane = Lane::new(key, LaneSignal::new(0), ring);
    let mut lanes: Vec<Option<Lane<T>>> = Vec::new();
    lanes.push(Some(lane));
    proof {
        let none = Seq::<bool>::empty();
        lemma_count_push(none, true);
        assert(connected(lanes@) =~= none.push(true));
        assert(occupied(lanes@) =~= none.push(true));
    }
    let ch = Channel {
        lanes,
        free: Vec::new(),
        ready: ReadyIndex::new(),
        active: VecDeque::new(),
        ready_group_cursor: 0,
        items_until_ready_poll: READY_POLL_INTERVAL,
        registered_lanes: 1,
        live_senders: 1,
        receiver_alive: true,
        data_waiter: WaitCell::new(),
        capacity,
        coordinated: P::coordinated(),
    };
    (ch, Sender { key }, Receiver { capacity })
}

impl<T> Channel<T> {
    /// Take a slot for a new lane: the one retired last, or a new one. Returns
    /// the key and the page that signals the slot. The slot stays empty until
    /// the lane is put there.
    pub fn allocate_lane(&mut self) -> (taken: (LaneKey, usize))
        requires
            old(self).wf(),
            old(self).receiver_alive,
            old(self).lanes@.len() + LANES_PER_PAGE <= usize::MAX,
        ensures
            taken.0 == old(self).next_key(),
            taken.0.slot < final(self).lanes@.len(),
            final(self).lanes@[taken.0.slot as int] is None,
            taken.1 == taken.0.slot / LANES_PER_PAGE,
            taken.1 < final(self).ready.pages@.len(),
            final(self).free@ == if old(self).free@.len() == 0 {
                old(self).free@
            } else {
                old(self).free@.drop_last()
            },
            final(self).lanes@ == if old(self).free@.len() == 0 {
                old(self).lanes@.push(None)
            } else {
                old(self).lanes@
            },
            final(self).covered(),
            final(self).ready@ == old(self).ready@,
            final(self).active == old(self).active,
            final(self).ready_group_cursor == old(self).ready_group_cursor,
            final(self).items_until_ready_poll == old(self).items_until_ready_poll,
            final(self).registered_lanes == old(self).registered_lanes,
            final(self).live_senders == old(self).live_senders,
            final(self).receiver_alive == old(self).receiver_alive,
            final(self).data_waiter == old(self).data_waiter,
            final(self).same_channel(old(self)),
    {
        let key: LaneKey = match self.free.pop() {
            Some(key) => key,
            None => {
                let key = LaneKey { slot: self.lanes.len(), generation: 0 };
                self.lanes.push(None);
                key
            },
        };
        let page_id: usize = key.slot / LANES_PER_PAGE;
        self.ready.grow(page_id);
        (key, page_id)
    }

    /// The key of the lane that a registration creates.
    pub open spec fn next_key(&self) -> LaneKey {
        if self.free@.len() == 0 {
            LaneKey { slot: self.lanes@.len() as usize, generation: 0 }
        } else {
            self.free@.last()
        }
    }

    /// What a registration does.
    pub open spec fn registered(&self, before: &Channel<T>, key: LaneKey) -> bool {
        let slot = key.slot as int;
        &&& key == before.next_key()
        &&& self.present(slot)
        &&& !before.present(slot)
        &&& self.lane(slot).key == key
        &&& is_fresh(&self.lane(slot))
        &&& self.lanes@.len() == if before.free@.len() == 0 {
            before.lanes@.len() + 1
        } else {
            before.lanes@.len()
        }
        &&& forall|t: int|
            0 <= t < before.lanes@.len() && t != slot ==> #[trigger] self.lanes@[t]
                == before.lanes@[t]
        &&& self.free@ == if before.free@.len() == 0 {
            before.free@
        } else {
            before.free@.drop_last()
        }
        &&& self.registered_lanes == before.registered_lanes + 1
        &&& self.live_senders == before.live_senders + 1
        &&& self.ready@ == before.ready@
        &&& self.active == before.active
        &&& self.ready_group_cursor == before.ready_group_cursor
        &&& self.items_until_ready_poll == before.items_until_ready_poll
        &&& self.receiver_alive == before.receiver_alive
        &&& self.data_waiter == before.data_waiter
        &&& self.same_channel(before)
    }

    /// Register another sender while the receiver is alive.
    pub(crate) fn register_sender(&mut self) -> (r: Result<LaneKey, TryRegisterError>)
        requires
            old(self).wf(),
            old(self).lanes@.len() + LANES_PER_PAGE <= usize::MAX,
        ensures
            final(self).wf(),
            match r {
                Ok(key) => old(self).receiver_alive && final(self).registered(old(self), key),
                Err(_) => !old(self).receiver_alive && *final(self) == *old(self),
            },
    {
        if !self.receiver_alive {
            return Err(TryRegisterError::Disconnected);
        }
        let ghost before = *self;
        proof {
            lemma_count_bound(connected(self.lanes@));
        }
        let (key, _) = self.allocate_lane();
        let ring: Ring<T> = Ring::new(self.capacity, self.coordinated);
        let lane = Lane::new(key, LaneSignal::new(key.slot), ring);
        let ghost middle = *self;
        self.lanes.set(key.slot, Some(lane));
        self.registered_lanes = self.registered_lanes + 1;
        self.live_senders = self.live_senders + 1;
        proof {
            let slot = key.slot as int;
            if before.free@.len() == 0 {
                lemma_count_push(connected(before.lanes@), false);
                lemma_count_push(occupied(before.lanes@), false);
                assert(connected(middle.lanes@) =~= connected(before.lanes@).push(false));
                assert(occupied(middle.lanes@) =~= occupied(before.lanes@).push(false));
            }
            lemma_count_update(connected(middle.lanes@), slot, true);
            lemma_count_update(occupied(middle.lanes@), slot, true);
            assert(connected(self.lanes@) =~= connected(middle.lanes@).update(slot, true));
            assert(occupied(self.lanes@) =~= occupied(middle.lanes@).update(slot, true));
            assert forall|t: int| 0 <= t < before.lanes@.len() && t != slot implies
                #[trigger] self.lanes@[t] == before.lanes@[t] by {}
            self.lemma_found_after_registration(&before, key);
        }
        Ok(key)
    }

    proof fn lemma_found_after_registration(&self, before: &Channel<T>, key: LaneKey)
        requires
            before.found(None),
            before.lanes@.len() <= usize::MAX,
            self.registered(before, key),
        ensures
            self.found(None),
    {
        let slot = key.slot as int;
        assert forall|t: int| #[trigger] self.pending(t) <==> before.pending(t) by {
            if 0 <= t < before.lanes@.len() && t != slot {
                assert(self.lanes@[t] == before.lanes@[t]);
            }
        }
        assert forall|t: int| #[trigger] self.pending(t) implies self.ready@.contains(t)
            || self.in_active(t) by {
            assert(before.pending(t));
            assert(before.in_active(t) == self.in_active(t));
        }
        assert forall|t: int| #[trigger] self.ready@.contains(t) implies self.pending(t)
            && !self.in_active(t) by {
            assert(before.ready@.contains(t));
            assert(before.in_active(t) == self.in_active(t));
        }
        assert forall|i: int| 0 <= i < self.active@.len() implies self.pending(
            #[trigger] self.active@[i] as int,
        ) by {
            assert(before.pending(before.active@[i] as int));
        }
        assert forall|t: int|
            0 <= t < self.lanes@.len() && (#[trigger] self.lanes@[t]) is Some && (
            self.lanes@[t]->Some_0.ring@.len() > 0
                || self.lanes@[t]->Some_0.ring.producer_closed) implies
            self.lanes@[t]->Some_0.signal.pending by {
            if t != slot {
                assert(self.lanes@[t] == before.lanes@[t]);
            }
        }
    }
}

} // verus!
