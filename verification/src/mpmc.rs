//! Dynamic MPMC channel built from one bounded ring per sender.
//!
//! A [`Channel`] holds the state that all endpoints share. A receiver drains up
//! to 64 values from a ready ring, returns one and stages the rest. A sole
//! receiver keeps them to itself; with several receivers they are stealable.
//! Ordering is relaxed.
//!
//! Every operation is one step on the shared state. An operation that would
//! block returns what to wait for instead.
use vstd::multiset::Multiset;
use vstd::prelude::*;

use std::collections::VecDeque;

use crate::bags::{lemma_bag_empty, lemma_total_push, total};
use crate::config::{is_rounded, round_capacity, validate_capacity};
use crate::count::{count, lemma_count_bound, lemma_count_push, lemma_count_update};
use crate::error::{ChannelError, TryRegisterError};
use crate::key::LaneKey;
use crate::publication::PublicationTracker;
use crate::ready::{LaneSignal, LANES_PER_PAGE};
use crate::ring::Ring;
use crate::teardown::{Deferred, Teardown};
use crate::wait::MultiWaitCell;

pub mod calls;
pub mod drain;
pub mod laws;
pub mod membership;
pub mod queue;
pub mod receiver;
pub mod routing;
pub mod sender;
pub mod staged;
pub mod staging;
pub mod work;

use routing::{Cursors, Routing};
use staging::Staging;
use work::WorkQueue;

verus! {

/// Maximum per-sender capacity accepted by [`channel`] and [`try_channel`]: a
/// quarter of the range of `usize`, which is a power of two.
pub const MAX_CAPACITY_PER_SENDER: usize = usize::MAX / 4 + 1;

/// Values taken from one lane at a time.
pub const PREFETCH_LIMIT: usize = 64;

/// Further looks of one receive after the first.
pub const TRY_RECV_RETRIES: usize = 1;

/// Attempts of a blocking operation before it parks.
pub const PARK_SPINS: usize = 128;

/// One sender's ring and what the receivers remember of it.
pub struct Lane<T> {
    /// Slot and generation.
    pub key: LaneKey,
    /// Whether a receiver has to look at the lane, and the sender waiting for
    /// space.
    pub signal: LaneSignal,
    /// The values.
    pub ring: Ring<T>,
    /// Values left in the window of the ring.
    pub cached_available: usize,
    /// Values taken and not released yet.
    pub unreleased: usize,
    /// How many values are released together.
    pub release_batch: usize,
}

impl<T> Lane<T> {
    /// The counts agree with the ring.
    pub open spec fn wf(&self, slot: int, capacity: nat) -> bool {
        &&& self.key.slot == slot
        &&& self.signal.wf(slot)
        &&& self.ring.wf()
        &&& self.ring.bound() == capacity
        &&& self.ring.flushed == self.ring@.len()
        &&& !self.ring.sending
        &&& !self.ring.consumer_closed ==> {
            &&& self.cached_available == self.ring.window
            &&& self.unreleased == self.ring.consumed
            &&& self.unreleased < self.release_batch
        }
        &&& self.release_batch == if capacity < PREFETCH_LIMIT {
            capacity as int
        } else {
            PREFETCH_LIMIT as int
        }
    }

    /// An empty lane in `key.slot`.
    pub fn new(key: LaneKey, signal: LaneSignal, ring: Ring<T>) -> (lane: Lane<T>)
        requires
            signal.wf(key.slot as int),
            ring.wf(),
            ring@.len() == 0,
            ring.consumed == 0,
            !ring.sending,
            !ring.consumer_closed,
        ensures
            lane.wf(key.slot as int, ring.bound()),
            lane.key == key,
            lane.signal == signal,
            lane.ring == ring,
    {
        let capacity: usize = ring.capacity();
        let release_batch: usize = if capacity < PREFETCH_LIMIT {
            capacity
        } else {
            PREFETCH_LIMIT
        };
        Lane { key, signal, ring, cached_available: 0, unreleased: 0, release_batch }
    }

    /// Give the taken slots back. Returns whether there were any.
    pub fn release_pending(&mut self) -> (released: bool)
        requires
            old(self).ring.wf(),
            old(self).unreleased == old(self).ring.consumed,
        ensures
            released == (old(self).unreleased > 0),
            *final(self) == (Lane {
                ring: Ring { consumed: 0, ..old(self).ring },
                unreleased: 0,
                ..*old(self)
            }),
            final(self).ring.wf(),
            final(self).ring@ == old(self).ring@,
    {
        if self.unreleased == 0 {
            return false;
        }
        self.ring.release();
        self.unreleased = 0;
        true
    }
}

/// What the channel keeps for one receiver.
pub struct ReceiverState<T> {
    /// Staged values of a sole receiver.
    pub private: VecDeque<T>,
    /// Tickets of staged values that competing receivers may steal.
    pub local: WorkQueue,
    /// Where to look for a receiver to steal from.
    pub steal_cursor: usize,
    /// Where to look for a lane.
    pub cursors: Cursors,
}

impl<T> ReceiverState<T> {
    /// At most one batch is staged.
    pub open spec fn wf(&self) -> bool {
        &&& self.local.wf()
        &&& self.local.limit() == Some(PREFETCH_LIMIT as nat)
        &&& self.private@.len() + self.local@.len() < PREFETCH_LIMIT
        &&& self.cursors.wf()
    }

    /// Looks for lanes and for receivers to steal from where `before` did.
    pub open spec fn searches_like(&self, before: &ReceiverState<T>) -> bool {
        self.cursors == before.cursors && self.steal_cursor == before.steal_cursor
    }

    /// Nothing staged.
    pub fn new() -> (state: ReceiverState<T>)
        ensures
            state.wf(),
            is_unused(&state),
    {
        ReceiverState {
            private: VecDeque::new(),
            local: WorkQueue::bounded(PREFETCH_LIMIT),
            steal_cursor: 0,
            cursors: Cursors::new(),
        }
    }
}

/// Which places are taken.
pub open spec fn taken_places<A>(table: Seq<Option<A>>) -> Seq<bool> {
    Seq::new(table.len(), |i: int| table[i] is Some)
}

/// Which slots hold a lane whose sender is alive.
pub open spec fn connected<T>(lanes: Seq<Option<Lane<T>>>) -> Seq<bool> {
    Seq::new(lanes.len(), |i: int| lanes[i] is Some && !lanes[i]->Some_0.ring.producer_closed)
}

/// Which slots hold a pending lane without values.
pub open spec fn dry<T>(lanes: Seq<Option<Lane<T>>>) -> Seq<bool> {
    Seq::new(
        lanes.len(),
        |i: int|
            lanes[i] is Some && lanes[i]->Some_0.signal.pending && lanes[i]->Some_0.ring@.len() == 0,
    )
}

/// The values in a lane.
pub open spec fn lane_bag<T>(lane: Option<Lane<T>>) -> Multiset<T> {
    match lane {
        None => Multiset::empty(),
        Some(lane) => lane.ring@.to_multiset(),
    }
}

/// The values in each lane.
pub open spec fn lane_bags<T>(lanes: Seq<Option<Lane<T>>>) -> Seq<Multiset<T>> {
    Seq::new(lanes.len(), |i: int| lane_bag(lanes[i]))
}

/// The values that a receiver keeps to itself.
pub open spec fn private_bag<T>(state: Option<ReceiverState<T>>) -> Multiset<T> {
    match state {
        None => Multiset::empty(),
        Some(state) => state.private@.to_multiset(),
    }
}

/// The values that each receiver keeps to itself.
pub open spec fn private_bags<T>(table: Seq<Option<ReceiverState<T>>>) -> Seq<Multiset<T>> {
    Seq::new(table.len(), |i: int| private_bag(table[i]))
}

/// The tickets in a receiver's queue.
pub open spec fn local_bag<T>(state: Option<ReceiverState<T>>) -> Multiset<u64> {
    match state {
        None => Multiset::empty(),
        Some(state) => state.local@.to_multiset(),
    }
}

/// The tickets in each receiver's queue.
pub open spec fn local_bags<T>(table: Seq<Option<ReceiverState<T>>>) -> Seq<Multiset<u64>> {
    Seq::new(table.len(), |i: int| local_bag(table[i]))
}

/// The state shared by the senders and receivers of one channel.
pub struct Channel<T> {
    /// The lanes by slot.
    pub lanes: Vec<Option<Lane<T>>>,
    /// Slots that can be used again.
    pub free: Vec<LaneKey>,
    /// Pending lanes that no receiver holds.
    pub routing: Routing,
    /// The receivers by number.
    pub receivers: Vec<Option<ReceiverState<T>>>,
    /// Receiver numbers that can be used again.
    pub free_receivers: Vec<usize>,
    /// Staged values by ticket.
    pub staging: Staging<T>,
    /// Tickets that dropped receivers left behind.
    pub orphaned: WorkQueue,
    /// Work moving between queues.
    pub publications: PublicationTracker,
    /// Lanes that were registered and not retired.
    pub registered_lanes: usize,
    /// Senders that are alive.
    pub live_senders: usize,
    /// Receivers that are alive.
    pub live_receivers: usize,
    /// Whether some receiver is alive.
    pub receiver_alive: bool,
    /// Receivers waiting for data.
    pub data_waiters: MultiWaitCell,
    /// Slots of each ring.
    pub capacity: usize,
    /// Whether the last receiver to go discards unread values at once.
    pub coordinated: bool,
}

/// Sending half: the owner of one lane.
#[derive(Debug)]
pub struct Sender {
    /// The lane.
    pub key: LaneKey,
}

/// Receiving half: one of several that compete for values.
#[derive(Debug)]
pub struct Receiver {
    /// The number of this receiver.
    pub id: usize,
    /// Slots of each ring.
    pub capacity: usize,
}

impl<T> Channel<T> {
    /// Whether `slot` holds a lane.
    pub open spec fn present(&self, slot: int) -> bool {
        0 <= slot < self.lanes@.len() && self.lanes@[slot] is Some
    }

    /// The lane in `slot`.
    pub open spec fn lane(&self, slot: int) -> Lane<T> {
        self.lanes@[slot]->Some_0
    }

    /// The values in the ring of `slot`, oldest first.
    pub open spec fn unread(&self, slot: int) -> Seq<T> {
        self.lane(slot).ring@
    }

    /// The values in the ring of `slot`, oldest first, or none if the slot is
    /// vacant.
    pub open spec fn unread_in(&self, slot: int) -> Seq<T> {
        if self.present(slot) {
            self.unread(slot)
        } else {
            Seq::empty()
        }
    }

    /// Whether a receiver has to look at the lane in `slot`.
    pub open spec fn pending(&self, slot: int) -> bool {
        self.present(slot) && self.lane(slot).signal.pending
    }

    /// Whether `tx` is a live sender of this channel.
    pub open spec fn owns(&self, tx: &Sender) -> bool {
        let slot = tx.key.slot as int;
        self.present(slot) && self.lane(slot).key == tx.key
            && !self.lane(slot).ring.producer_closed
    }

    /// Whether receiver `id` is alive.
    pub open spec fn knows(&self, id: int) -> bool {
        0 <= id < self.receivers@.len() && self.receivers@[id] is Some
    }

    /// What the channel keeps for receiver `id`.
    pub open spec fn receiver(&self, id: int) -> ReceiverState<T> {
        self.receivers@[id]->Some_0
    }

    /// The staged values of receiver `id` that others may steal.
    pub open spec fn stealable(&self, id: int) -> Seq<T> {
        self.staging.named(self.receiver(id).local@)
    }

    /// The values that receiver `id` has staged, in the order in which it takes
    /// them.
    pub open spec fn staged_by(&self, id: int) -> Seq<T> {
        if self.knows(id) {
            self.receiver(id).private@ + self.stealable(id)
        } else {
            Seq::empty()
        }
    }

    /// The values that dropped receivers had staged, in the order in which they
    /// are taken.
    pub open spec fn left_behind(&self) -> Seq<T> {
        self.staging.named(self.orphaned@)
    }

    /// Whether the rings hold the same.
    pub open spec fn same_unread(&self, before: &Channel<T>) -> bool {
        forall|slot: int| #[trigger] self.unread_in(slot) == before.unread_in(slot)
    }

    /// Whether every receiver but `a` and `b` has staged the same.
    pub open spec fn same_staged_but(&self, before: &Channel<T>, a: int, b: int) -> bool {
        forall|k: int|
            k != a && k != b ==> #[trigger] self.staged_by(k) == before.staged_by(k)
    }

    /// Whether the same values are staged in the same places.
    pub open spec fn same_staged(&self, before: &Channel<T>) -> bool {
        &&& forall|k: int| #[trigger] self.staged_by(k) == before.staged_by(k)
        &&& self.left_behind() == before.left_behind()
    }

    /// Every value that was sent and not received: in the rings, kept by a sole
    /// receiver, or staged.
    pub open spec fn contents(&self) -> Multiset<T> {
        total(lane_bags(self.lanes@)).add(total(private_bags(self.receivers@))).add(
            self.staging.values(),
        )
    }

    /// Every ticket in a queue.
    pub open spec fn tickets(&self) -> Multiset<u64> {
        total(local_bags(self.receivers@)).add(self.orphaned@.to_multiset())
    }

    /// How many lanes are pending without a value.
    pub open spec fn dry_lanes(&self) -> nat {
        count(dry(self.lanes@))
    }

    /// How much upkeep stands between receivers and values: pending lanes
    /// without values, and pages listed without a lane.
    pub open spec fn upkeep(&self) -> nat {
        2 * self.dry_lanes() + self.routing.stale()
    }

    /// Every lane is sound.
    pub open spec fn lanes_ok(&self) -> bool {
        &&& 0 < self.lanes@.len()
        &&& 0 < self.capacity
        &&& forall|slot: int|
            0 <= slot < self.lanes@.len() && (#[trigger] self.lanes@[slot]) is Some ==> {
                &&& self.lanes@[slot]->Some_0.wf(slot, self.capacity as nat)
                &&& self.lanes@[slot]->Some_0.ring.consumer_closed == !self.receiver_alive
                &&& self.lanes@[slot]->Some_0.ring.coordinated == self.coordinated
            }
    }

    /// The free list names vacant slots, each once.
    pub open spec fn free_ok(&self) -> bool {
        &&& forall|i: int|
            0 <= i < self.free@.len() ==> (#[trigger] self.free@[i]).slot < self.lanes@.len()
                && self.lanes@[self.free@[i].slot as int] is None
        &&& forall|i: int, j: int|
            0 <= i < j < self.free@.len() ==> (#[trigger] self.free@[i]).slot != (
            #[trigger] self.free@[j]).slot
    }

    /// The counters agree with the lanes.
    pub open spec fn counts_ok(&self) -> bool {
        &&& self.live_senders == count(connected(self.lanes@))
        &&& self.receiver_alive ==> {
            &&& self.registered_lanes == count(taken_places(self.lanes@))
            &&& self.free@.len() + self.registered_lanes == self.lanes@.len()
        }
    }

    /// The receiver table is sound.
    pub open spec fn receivers_ok(&self) -> bool {
        &&& self.live_receivers == count(taken_places(self.receivers@))
        &&& self.receiver_alive == (self.live_receivers > 0)
        &&& forall|id: int|
            0 <= id < self.receivers@.len() && (#[trigger] self.receivers@[id]) is Some ==> {
                &&& self.receivers@[id]->Some_0.wf()
                &&& self.receivers@[id]->Some_0.private@.len() > 0 ==> self.live_receivers == 1
            }
        &&& forall|i: int|
            0 <= i < self.free_receivers@.len() ==> (#[trigger] self.free_receivers@[i])
                < self.receivers@.len() && self.receivers@[self.free_receivers@[i] as int] is None
        &&& forall|i: int, j: int|
            0 <= i < j < self.free_receivers@.len() ==> self.free_receivers@[i]
                != self.free_receivers@[j]
    }

    /// Every staged value has one ticket, which stands in one queue.
    pub open spec fn staging_ok(&self) -> bool {
        &&& self.staging.wf()
        &&& self.orphaned.wf()
        &&& self.orphaned.limit() == None::<nat>
        &&& forall|ticket: u64| #[trigger]
            self.tickets().count(ticket) == if self.staging.holds(ticket) {
                1nat
            } else {
                0nat
            }
    }

    /// The routing covers the lanes.
    pub open spec fn covered(&self) -> bool {
        &&& self.routing.wf()
        &&& self.routing.ready.pages@.len() == (self.lanes@.len() + 63) / 64
    }

    /// Every pending lane is marked or queued, and no other. The lane in `hand`,
    /// if any, is held by a receiver.
    pub open spec fn found(&self, hand: Option<int>) -> bool {
        &&& forall|slot: int| #[trigger]
            self.routing.slots().contains(slot) ==> self.pending(slot) && hand != Some(slot)
        &&& forall|slot: int| #[trigger]
            self.pending(slot) ==> self.routing.slots().contains(slot) || hand == Some(slot)
        &&& hand matches Some(slot) ==> self.pending(slot)
        &&& forall|slot: int|
            0 <= slot < self.lanes@.len() && (#[trigger] self.lanes@[slot]) is Some && (
            self.lanes@[slot]->Some_0.ring@.len() > 0
                || self.lanes@[slot]->Some_0.ring.producer_closed)
                ==> self.lanes@[slot]->Some_0.signal.pending
    }

    /// The invariant, with the lane in `hand` held by a receiver.
    pub open spec fn inv(&self, hand: Option<int>) -> bool {
        &&& self.lanes_ok()
        &&& self.free_ok()
        &&& self.counts_ok()
        &&& self.receivers_ok()
        &&& self.staging_ok()
        &&& self.covered()
        &&& self.data_waiters.wf()
        &&& self.receiver_alive ==> self.found(hand)
    }

    /// The invariant between operations.
    pub open spec fn wf(&self) -> bool {
        &&& self.inv(None)
        &&& self.publications.in_flight == 0
    }

    /// What no operation changes.
    pub open spec fn same_channel(&self, other: &Channel<T>) -> bool {
        self.capacity == other.capacity && self.coordinated == other.coordinated
    }
}

/// An empty lane that nobody has looked at.
pub open spec fn is_fresh<T>(lane: &Lane<T>) -> bool {
    &&& lane.ring@ == Seq::<T>::empty()
    &&& lane.ring.consumed == 0
    &&& lane.unreleased == 0
    &&& !lane.signal.pending
    &&& lane.signal.space_waiter.state == 0
    &&& !lane.signal.space_waiter.waker
    &&& !lane.ring.producer_closed
}

/// A receiver that has not looked for anything.
pub open spec fn is_unused<T>(state: &ReceiverState<T>) -> bool {
    &&& state.private@ == Seq::<T>::empty()
    &&& state.local@ == Seq::<u64>::empty()
    &&& state.steal_cursor == 0
    &&& state.cursors == (Cursors { group: 0, page: 0, direct: 0, prefer_work: false })
}

/// What a new channel looks like.
pub open spec fn is_new<T>(
    ch: &Channel<T>,
    tx: &Sender,
    rx: &Receiver,
    capacity_per_sender: usize,
    coordinated: bool,
) -> bool {
    &&& ch.wf()
    &&& is_rounded(capacity_per_sender as int, ch.capacity as int)
    &&& ch.coordinated == coordinated
    &&& ch.receiver_alive
    &&& ch.live_senders == 1
    &&& ch.live_receivers == 1
    &&& ch.registered_lanes == 1
    &&& ch.lanes@.len() == 1
    &&& ch.free@.len() == 0
    &&& ch.owns(tx)
    &&& tx.key == (LaneKey { slot: 0, generation: 0 })
    &&& is_fresh(&ch.lane(0))
    &&& ch.knows(rx.id as int)
    &&& rx.id == 0
    &&& rx.capacity == ch.capacity
    &&& ch.receivers@.len() == 1
    &&& ch.free_receivers@.len() == 0
    &&& is_unused(&ch.receiver(0))
    &&& ch.left_behind().len() == 0
    &&& ch.publications.generation == 0
    &&& ch.contents() == Multiset::<T>::empty()
    &&& ch.upkeep() == 0
    &&& ch.data_waiters == (MultiWaitCell { state: 0, waiters: 0, signals: 0 })
}

/// Create an MPMC channel with one bounded ring per sender. The last receiver
/// to go leaves unread values to their senders.
///
/// `capacity_per_sender` is rounded up to the next power of two.
pub fn channel<T>(capacity_per_sender: usize) -> (r: (Channel<T>, Sender, Receiver))
    requires
        0 < capacity_per_sender <= MAX_CAPACITY_PER_SENDER,
    ensures
        is_new(&r.0, &r.1, &r.2, capacity_per_sender, false),
{
    build_channel::<T, Deferred>(capacity_per_sender)
}

/// Create an MPMC channel whose last receiver treats unread values as `P` says.
pub fn channel_with_policy<T, P: Teardown>(capacity_per_sender: usize) -> (r: (
    Channel<T>,
    Sender,
    Receiver,
))
    requires
        0 < capacity_per_sender <= MAX_CAPACITY_PER_SENDER,
    ensures
        is_new(&r.0, &r.1, &r.2, capacity_per_sender, P::reclaims()),
{
    build_channel::<T, P>(capacity_per_sender)
}

/// Try to create an MPMC channel with one bounded ring per sender.
pub fn try_channel<T>(capacity_per_sender: usize) -> (r: Result<
    (Channel<T>, Sender, Receiver),
    ChannelError,
>)
    ensures
        match r {
            Ok(r) => 0 < capacity_per_sender <= MAX_CAPACITY_PER_SENDER && is_new(
                &r.0,
                &r.1,
                &r.2,
                capacity_per_sender,
                false,
            ),
            Err(ChannelError::ZeroCapacity) => capacity_per_sender == 0,
            Err(ChannelError::CapacityTooLarge { requested, max }) => capacity_per_sender
                > MAX_CAPACITY_PER_SENDER && requested == capacity_per_sender && max
                == MAX_CAPACITY_PER_SENDER,
        },
{
    match validate_capacity(capacity_per_sender, MAX_CAPACITY_PER_SENDER) {
        Ok(()) => Ok(build_channel::<T, Deferred>(capacity_per_sender)),
        Err(error) => Err(error),
    }
}

fn build_channel<T, P: Teardown>(capacity_per_sender: usize) -> (r: (Channel<T>, Sender, Receiver))
    requires
        0 < capacity_per_sender <= MAX_CAPACITY_PER_SENDER,
    ensures
        is_new(&r.0, &r.1, &r.2, capacity_per_sender, P::reclaims()),
{
    let capacity: usize = round_capacity(capacity_per_sender);
    let ring: Ring<T> = Ring::new(capacity, P::coordinated());
    let key = LaneKey { slot: 0, generation: 0 };
    let lane = Lane::new(key, LaneSignal::new(0), ring);
    let mut lanes: Vec<Option<Lane<T>>> = Vec::new();
    lanes.push(Some(lane));
    let mut receivers: Vec<Option<ReceiverState<T>>> = Vec::new();
    receivers.push(Some(ReceiverState::new()));
    let ch = Channel {
        lanes,
        free: Vec::new(),
        routing: Routing::new(),
        receivers,
        free_receivers: Vec::new(),
        staging: Staging::new(),
        orphaned: WorkQueue::unbounded(),
        publications: PublicationTracker::new(),
        registered_lanes: 1,
        live_senders: 1,
        live_receivers: 1,
        receiver_alive: true,
        data_waiters: MultiWaitCell::new(),
        capacity,
        coordinated: P::coordinated(),
    };
    proof {
        let none = Seq::<bool>::empty();
        lemma_count_push(none, true);
        lemma_count_push(none, false);
        assert(connected(ch.lanes@) =~= none.push(true));
        assert(taken_places(ch.lanes@) =~= none.push(true));
        assert(taken_places(ch.receivers@) =~= none.push(true));
        assert(dry(ch.lanes@) =~= none.push(false));
        lemma_bag_empty::<T>();
        lemma_bag_empty::<u64>();
        assert(ch.orphaned@ =~= Seq::<u64>::empty());
        crate::bags::lemma_total_empty(lane_bags(ch.lanes@));
        crate::bags::lemma_total_empty(private_bags(ch.receivers@));
        crate::bags::lemma_total_empty(local_bags(ch.receivers@));
        assert(ch.contents() =~= Multiset::<T>::empty());
    }
    (ch, Sender { key }, Receiver { id: 0, capacity })
}

impl<T> Channel<T> {
    /// The key of the lane that a registration creates.
    pub open spec fn next_key(&self) -> LaneKey {
        if self.free@.len() == 0 {
            LaneKey { slot: self.lanes@.len() as usize, generation: 0 }
        } else {
            self.free@.last()
        }
    }

    /// Everything but the lanes, the routing and the senders.
    pub open spec fn same_receiving(&self, before: &Channel<T>) -> bool {
        &&& self.receivers == before.receivers
        &&& self.free_receivers == before.free_receivers
        &&& self.staging == before.staging
        &&& self.orphaned == before.orphaned
        &&& self.publications == before.publications
        &&& self.live_receivers == before.live_receivers
        &&& self.receiver_alive == before.receiver_alive
        &&& self.same_channel(before)
    }

    /// What a registration does.
    pub open spec fn registered(&self, before: &Channel<T>, key: LaneKey) -> bool {
        let slot = key.slot as int;
        &&& key == before.next_key()
        &&& self.present(slot)
        &&& !before.present(slot)
        &&& self.lane(slot).key == key
        &&& is_fresh(&self.lane(slot))
        &&& self.lanes@.len() == if before.free@.len() == 0 {
            before.lanes@.len() + 1
        } else {
            before.lanes@.len()
        }
        &&& forall|t: int|
            0 <= t < before.lanes@.len() && t != slot ==> #[trigger] self.lanes@[t]
                == before.lanes@[t]
        &&& self.free@ == if before.free@.len() == 0 {
            before.free@
        } else {
            before.free@.drop_last()
        }
        &&& self.registered_lanes == before.registered_lanes + 1
        &&& self.live_senders == before.live_senders + 1
        &&& self.routing.slots() == before.routing.slots()
        &&& self.data_waiters == before.data_waiters
        &&& self.same_receiving(before)
        &&& self.contents() == before.contents()
        &&& self.upkeep() == before.upkeep()
    }

    /// Take a slot for a new lane: the one retired last, or a new one. Returns
    /// the key, the page that signals the slot, and whether pages were added for
    /// it. The slot stays empty until the lane is put there.
    pub fn allocate_lane(&mut self) -> (taken: (LaneKey, usize, bool))
        requires
            old(self).wf(),
            old(self).receiver_alive,
            old(self).lanes@.len() + LANES_PER_PAGE <= usize::MAX,
        ensures
            taken.0 == old(self).next_key(),
            taken.0.slot < final(self).lanes@.len(),
            final(self).lanes@[taken.0.slot as int] is None,
            taken.1 == taken.0.slot / LANES_PER_PAGE,
            taken.1 < final(self).routing.ready.pages@.len(),
            final(self).routing.ready.pages@.len() == old(self).routing.ready.pages@.len() + if taken.2 {
                1int
            } else {
                0
            },
            final(self).free@ == if old(self).free@.len() == 0 {
                old(self).free@
            } else {
                old(self).free@.drop_last()
            },
            final(self).lanes@ == if old(self).free@.len() == 0 {
                old(self).lanes@.push(None)
            } else {
                old(self).lanes@
            },
            final(self).covered(),
            final(self).routing.slots() == old(self).routing.slots(),
            final(self).routing.stale() == old(self).routing.stale(),
            final(self).registered_lanes == old(self).registered_lanes,
            final(self).live_senders == old(self).live_senders,
            final(self).data_waiters == old(self).data_waiters,
            final(self).same_receiving(old(self)),
    {
        let key: LaneKey = match self.free.pop() {
            Some(key) => key,
            None => {
                let key = LaneKey { slot: self.lanes.len(), generation: 0 };
                self.lanes.push(None);
                key
            },
        };
        let page_id: usize = key.slot / LANES_PER_PAGE;
        let old_page_count: usize = self.routing.pages.len();
        self.routing.grow(page_id);
        (key, page_id, self.routing.pages.len() != old_page_count)
    }

    /// Register another sender while a receiver is alive.
    fn register_sender(&mut self) -> (r: Result<LaneKey, TryRegisterError>)
        requires
            old(self).wf(),
            old(self).lanes@.len() + LANES_PER_PAGE <= usize::MAX,
        ensures
            final(self).wf(),
            match r {
                Ok(key) => old(self).receiver_alive && final(self).registered(old(self), key),
                Err(_) => !old(self).receiver_alive && *final(self) == *old(self),
            },
    {
        if !self.receiver_alive {
            return Err(TryRegisterError::Disconnected);
        }
        let ghost before = *self;
        proof {
            lemma_count_bound(connected(self.lanes@));
        }
        let (key, _, _) = self.allocate_lane();
        let ring: Ring<T> = Ring::new(self.capacity, self.coordinated);
        let lane = Lane::new(key, LaneSignal::new(key.slot), ring);
        let ghost middle = *self;
        self.lanes.set(key.slot, Some(lane));
        self.registered_lanes = self.registered_lanes + 1;
        self.live_senders = self.live_senders + 1;
        proof {
            before.lemma_registered(&middle, self, key);
        }
        Ok(key)
    }

    proof fn lemma_registered(&self, middle: &Channel<T>, after: &Channel<T>, key: LaneKey)
        requires
            self.wf(),
            self.receiver_alive,
            self.lanes@.len() <= usize::MAX,
            key == self.next_key(),
            middle.lanes@ == if self.free@.len() == 0 {
                self.lanes@.push(None)
            } else {
                self.lanes@
            },
            after.present(key.slot as int),
            after.lanes@ == middle.lanes@.update(
                key.slot as int,
                Some(after.lane(key.slot as int)),
            ),
            after.lane(key.slot as int).wf(key.slot as int, self.capacity as nat),
            after.lane(key.slot as int).key == key,
            is_fresh(&after.lane(key.slot as int)),
            !after.lane(key.slot as int).ring.consumer_closed,
            after.lane(key.slot as int).ring.coordinated == self.coordinated,
            after.free@ == if self.free@.len() == 0 {
                self.free@
            } else {
                self.free@.drop_last()
            },
            after.covered(),
            after.routing.slots() == self.routing.slots(),
            after.routing.stale() == self.routing.stale(),
            after.registered_lanes == self.registered_lanes + 1,
            after.live_senders == self.live_senders + 1,
            after.data_waiters == self.data_waiters,
            after.same_receiving(self),
        ensures
            after.wf(),
            after.registered(self, key),
    {
        let slot = key.slot as int;
        if self.free@.len() > 0 {
            assert(self.free@[self.free@.len() - 1] == key);
        }
        if self.free@.len() == 0 {
            lemma_count_push(connected(self.lanes@), false);
            lemma_count_push(taken_places(self.lanes@), false);
            lemma_count_push(dry(self.lanes@), false);
            lemma_total_push(lane_bags(self.lanes@), Multiset::empty());
            assert(connected(middle.lanes@) =~= connected(self.lanes@).push(false));
            assert(taken_places(middle.lanes@) =~= taken_places(self.lanes@).push(false));
            assert(dry(middle.lanes@) =~= dry(self.lanes@).push(false));
            assert(lane_bags(middle.lanes@) =~= lane_bags(self.lanes@).push(Multiset::empty()));
        }
        lemma_count_update(connected(middle.lanes@), slot, true);
        lemma_count_update(taken_places(middle.lanes@), slot, true);
        lemma_count_update(dry(middle.lanes@), slot, false);
        assert(connected(after.lanes@) =~= connected(middle.lanes@).update(slot, true));
        assert(taken_places(after.lanes@) =~= taken_places(middle.lanes@).update(slot, true));
        assert(dry(after.lanes@) =~= dry(middle.lanes@).update(slot, false));
        lemma_bag_empty::<T>();
        assert(lane_bags(after.lanes@) =~= lane_bags(middle.lanes@));
        assert(after.contents() =~= self.contents()) by {
            assert(total(lane_bags(after.lanes@)) =~= total(lane_bags(self.lanes@)));
        }
        assert(after.tickets() == self.tickets());
        assert forall|t: u64| #[trigger] after.tickets().count(t) == if after.staging.holds(t) {
            1nat
        } else {
            0nat
        } by {
            assert(self.tickets().count(t) == if self.staging.holds(t) {
                1nat
            } else {
                0nat
            });
        }
        assert forall|t: int| 0 <= t < self.lanes@.len() && t != slot implies
            #[trigger] after.lanes@[t] == self.lanes@[t] by {}
        assert forall|t: int| #[trigger] after.pending(t) == self.pending(t) by {
            if 0 <= t < self.lanes@.len() && t != slot {
                assert(after.lanes@[t] == self.lanes@[t]);
            }
        }
        assert forall|t: int| #[trigger] after.routing.slots().contains(t) implies after.pending(
            t,
        ) by {
            assert(self.routing.slots().contains(t));
        }
        assert forall|t: int| #[trigger] after.pending(t) implies after.routing.slots().contains(
            t,
        ) by {
            assert(self.pending(t));
        }
        assert forall|t: int|
            0 <= t < after.lanes@.len() && (#[trigger] after.lanes@[t]) is Some implies {
            &&& after.lanes@[t]->Some_0.wf(t, after.capacity as nat)
            &&& after.lanes@[t]->Some_0.ring.consumer_closed == !after.receiver_alive
            &&& after.lanes@[t]->Some_0.ring.coordinated == after.coordinated
            &&& (after.lanes@[t]->Some_0.ring@.len() > 0
                || after.lanes@[t]->Some_0.ring.producer_closed)
                ==> after.lanes@[t]->Some_0.signal.pending
        } by {
            if t != slot {
                assert(after.lanes@[t] == self.lanes@[t]);
            }
        }
    }

    /// The number that the next receiver gets.
    pub open spec fn next_receiver(&self) -> int {
        if self.free_receivers@.len() == 0 {
            self.receivers@.len() as int
        } else {
            self.free_receivers@.last() as int
        }
    }
}

} // verus!
