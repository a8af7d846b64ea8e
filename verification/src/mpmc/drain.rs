//! Draining lanes: taking batches, and queueing, idling and retiring lanes.
use vstd::prelude::*;

use std::collections::VecDeque;

use crate::bags::{lemma_bag_concat, lemma_bag_empty, lemma_bag_push, lemma_total_update, total};
use crate::count::{count, lemma_count_update, lemma_count_within, lemma_count_zero};
use crate::key::LaneKey;
use crate::publication::later;
use crate::ready::LaneSignal;
use crate::wait::MultiWaitCell;

use super::routing::Routing;
use super::{
    connected, dry, lane_bag, lane_bags, local_bags, private_bags, taken_places, Channel, Lane,
    PREFETCH_LIMIT,
};

verus! {

/// Whom to wake.
#[derive(Debug, Clone, Copy, PartialEq, Eq, Structural)]
pub enum Wake {
    /// Nobody.
    Nobody,
    /// One receiver.
    One,
    /// Every receiver.
    All,
}

impl Wake {
    /// Both wishes together.
    pub open spec fn both(self, other: Wake) -> Wake {
        if self is All || other is All {
            Wake::All
        } else if self is One || other is One {
            Wake::One
        } else {
            Wake::Nobody
        }
    }

    /// The cell once the wish has been carried out.
    pub open spec fn told(self, cell: MultiWaitCell) -> MultiWaitCell {
        match self {
            Wake::Nobody => cell,
            Wake::One => cell.after_notify_one(),
            Wake::All => cell.after_notify_all(),
        }
    }

    /// Both wishes together.
    pub fn merge(self, other: Wake) -> (r: Wake)
        ensures
            r == self.both(other),
    {
        match (self, other) {
            (Wake::All, _) => Wake::All,
            (_, Wake::All) => Wake::All,
            (Wake::One, _) => Wake::One,
            (_, Wake::One) => Wake::One,
            (Wake::Nobody, Wake::Nobody) => Wake::Nobody,
        }
    }
}

/// What is left to do after a lane was drained.
#[derive(Debug, Clone, Copy, PartialEq, Eq, Structural)]
pub struct Effects {
    /// The lane whose sender has to be told about free slots.
    pub released: Option<usize>,
    /// Whom to wake.
    pub wake: Wake,
}

impl Effects {
    /// Nothing to do.
    pub fn none() -> (effects: Effects)
        ensures
            effects.released is None,
            effects.wake is Nobody,
    {
        Effects { released: None, wake: Wake::Nobody }
    }

    /// Whether there is something to do.
    pub fn has_effect(&self) -> (any: bool)
        ensures
            any == (self.released is Some || !(self.wake is Nobody)),
    {
        self.released.is_some() || !matches!(self.wake, Wake::Nobody)
    }
}

/// How a lane that was found empty ended up.
pub enum FinishLane {
    /// It holds values after all.
    Ready,
    /// It is idle.
    Parked,
    /// It is gone, and with it, if `wake_all` is set, the last one.
    Retired { wake_all: bool },
}

/// What draining a lane gave.
pub enum LaneDrain<T> {
    /// A value.
    Item { value: T, effects: Effects },
    /// No value.
    Empty(Effects),
}

/// Whether `after` is the end of `before`.
pub open spec fn ends<V>(after: Seq<V>, before: Seq<V>) -> bool {
    exists|k: int| 0 <= k <= before.len() && after == #[trigger] before.skip(k)
}

/// What receiving may do to a lane: take values from its front, and retire it
/// when its sender is gone.
pub open spec fn lane_kept<T>(before: Option<Lane<T>>, after: Option<Lane<T>>) -> bool {
    match before {
        None => after is None,
        Some(lane) => {
            ||| after is None && lane.ring.producer_closed
            ||| {
                &&& after is Some
                &&& after->Some_0.key == lane.key
                &&& after->Some_0.ring.producer_closed == lane.ring.producer_closed
                &&& ends(after->Some_0.ring@, lane.ring@)
            }
        },
    }
}

/// How many values one receive takes from a lane.
pub open spec fn batch_of<T>(lane: Lane<T>) -> int {
    let available = if lane.cached_available == 0 {
        lane.ring@.len() as int
    } else {
        lane.cached_available as int
    };
    if available < PREFETCH_LIMIT {
        available
    } else {
        PREFETCH_LIMIT as int
    }
}

/// Whether taking a batch gives slots back.
pub open spec fn gives_back<T>(lane: Lane<T>) -> bool {
    lane.unreleased + batch_of(lane) >= lane.release_batch
}

/// Whom to wake when a lane was put down after it gave a batch: one receiver
/// when values are left, and all when it was the last lane.
pub open spec fn left_over<T>(lane: Lane<T>, batch: int, last: bool) -> Wake {
    if lane.ring@.len() > batch {
        Wake::One
    } else if last {
        Wake::All
    } else {
        Wake::Nobody
    }
}

/// A lane that a receive did not come to: at most its sender was told of room.
pub open spec fn undisturbed<T>(before: Option<Lane<T>>, after: Option<Lane<T>>) -> bool {
    match before {
        None => after is None,
        Some(lane) => after matches Some(now) && now == (Lane {
            signal: LaneSignal { space_waiter: now.signal.space_waiter, ..lane.signal },
            ..lane
        }),
    }
}

/// A lane that a receive came to and found empty: it is idle and has its taken
/// slots back, or it is gone with its sender.
pub open spec fn rested<T>(before: Option<Lane<T>>, after: Option<Lane<T>>) -> bool {
    before matches Some(lane) && lane.signal.pending && lane.ring@.len() == 0 && match after {
        None => lane.ring.producer_closed,
        Some(now) => {
            &&& !lane.ring.producer_closed
            &&& now.ring@.len() == 0
            &&& now.ring.consumed == 0
            &&& !now.signal.pending
        },
    }
}

/// A lane that gave a batch. Its taken slots go back once they complete a
/// release batch. It stays pending for the values that are left; without any it
/// is idle, or gone with its sender.
pub open spec fn gave_batch<T>(before: Option<Lane<T>>, after: Option<Lane<T>>) -> bool {
    before matches Some(lane) && lane.ring@.len() > 0 && {
        let left = lane.ring@.skip(batch_of(lane));
        match after {
            None => lane.ring.producer_closed && left.len() == 0,
            Some(now) => {
                &&& lane.ring.producer_closed ==> left.len() > 0
                &&& now.ring@ == left
                &&& now.ring.consumed == if gives_back(lane) {
                    0
                } else {
                    lane.unreleased + batch_of(lane)
                }
                &&& now.signal.pending == (left.len() > 0)
            },
        }
    }
}

/// The keys for new lanes after a lane was put down empty: its slot is free if
/// its sender is gone.
pub open spec fn freed<T>(free: Seq<LaneKey>, lane: Lane<T>) -> Seq<LaneKey> {
    if lane.ring.producer_closed {
        free.push(lane.key.next())
    } else {
        free
    }
}

impl<T> Lane<T> {
    /// Take the values of one batch that are in the window. Returns the first
    /// one, the others, and whether slots were given back.
    fn take_batch(&mut self) -> (r: (T, VecDeque<T>, bool))
        requires
            exists|slot: int, capacity: nat| #[trigger] old(self).wf(slot, capacity),
            !old(self).ring.consumer_closed,
            old(self).cached_available > 0,
        ensures
            forall|slot: int, capacity: nat| #[trigger]
                old(self).wf(slot, capacity) ==> final(self).wf(slot, capacity),
            final(self).key == old(self).key,
            final(self).signal == old(self).signal,
            final(self).release_batch == old(self).release_batch,
            final(self).ring.same_ends(&old(self).ring),
            ({
                let batch = batch_of(*old(self));
                &&& 0 < batch <= old(self).ring@.len()
                &&& r.0 == old(self).ring@[0]
                &&& r.1@ == old(self).ring@.subrange(1, batch)
                &&& r.2 == (old(self).unreleased + batch >= old(self).release_batch)
                &&& final(self).ring@ == old(self).ring@.skip(batch)
                &&& final(self).cached_available == old(self).cached_available - batch
                &&& final(self).unreleased == if r.2 {
                    0
                } else {
                    old(self).unreleased + batch
                }
            }),
    {
        let ghost before = *self;
        let ghost values = self.ring@;
        let batch: usize = if self.cached_available < PREFETCH_LIMIT {
            self.cached_available
        } else {
            PREFETCH_LIMIT
        };
        let value = self.ring.pop().unwrap();
        let mut rest: VecDeque<T> = VecDeque::new();
        let mut i: usize = 1;
        assert(values.drop_first() =~= values.skip(1));
        assert(rest@ =~= values.subrange(1, 1));
        while i < batch
            invariant
                1 <= i <= batch <= before.cached_available,
                batch <= values.len(),
                values == before.ring@,
                before.cached_available == before.ring.window,
                before.ring.wf(),
                self.ring.wf(),
                self.ring.same_ends(&before.ring),
                !self.ring.sending,
                self.ring@ == values.skip(i as int),
                self.ring.window == before.ring.window - i,
                self.ring.flushed == before.ring.flushed - i,
                self.ring.consumed == before.ring.consumed + i,
                rest@ == values.subrange(1, i as int),
                self.key == before.key,
                self.signal == before.signal,
                self.cached_available == before.cached_available,
                self.unreleased == before.unreleased,
                self.release_batch == before.release_batch,
            decreases batch - i,
        {
            let next = self.ring.pop().unwrap();
            rest.push_back(next);
            assert(values.skip(i as int).drop_first() =~= values.skip(i + 1));
            assert(values.subrange(1, i as int).push(values[i as int]) =~= values.subrange(
                1,
                i + 1,
            ));
            i += 1;
        }
        self.cached_available = self.cached_available - batch;
        self.unreleased = self.unreleased + batch;
        let released: bool = self.unreleased >= self.release_batch && self.release_pending();
        (value, rest, released)
    }
}

/// Slots of a ring that its sender cannot fill: unread values, and taken ones
/// that were not given back.
pub open spec fn held<T>(lane: Lane<T>) -> int {
    lane.ring@.len() + lane.ring.consumed
}

/// The lane has as much room as before, and its sender heard nothing.
pub open spec fn same_room<T>(before: Lane<T>, after: Lane<T>) -> bool {
    held(after) == held(before) && after.signal.space_waiter == before.signal.space_waiter
}

/// The lane has more room than before, and its sender has not heard of it.
pub open spec fn more_room<T>(before: Lane<T>, after: Lane<T>) -> bool {
    held(after) < held(before) && after.signal.space_waiter == before.signal.space_waiter
}

impl<T> Channel<T> {
    /// Whether the lane in `slot` gave several values, so that some were staged.
    pub open spec fn gave_many(&self, before: &Channel<T>, slot: int) -> bool {
        self.unread_in(slot).len() + 1 < before.unread_in(slot).len()
    }

    /// Whether the lane in `slot` gave values and holds more.
    pub open spec fn gave_some(&self, before: &Channel<T>, slot: int) -> bool {
        0 < self.unread_in(slot).len() < before.unread_in(slot).len()
    }

    /// Whether the last lane retired after the last sender.
    pub open spec fn last_retired(&self, before: &Channel<T>) -> bool {
        self.registered_lanes == 0 && self.live_senders == 0 && before.registered_lanes > 0
    }

    /// Whom a look for a value has to wake: every receiver if it staged values or
    /// retired the last lane, one of them if a lane that it drained holds more,
    /// and nobody otherwise.
    pub open spec fn wake_due(&self, before: &Channel<T>) -> Wake {
        if self.last_retired(before) || exists|t: int| #[trigger] self.gave_many(before, t) {
            Wake::All
        } else if exists|t: int| #[trigger] self.gave_some(before, t) {
            Wake::One
        } else {
            Wake::Nobody
        }
    }

    /// What is owed after a look for a value: `effects` names the only lane with
    /// more room, and wakes receivers where they should hear something.
    pub open spec fn owes(&self, before: &Channel<T>, effects: Effects) -> bool {
        &&& forall|t: int|
            0 <= t < before.lanes@.len() && before.lanes@[t] is Some && (
            #[trigger] self.lanes@[t]) is Some ==> if effects.released == Some(t as usize) {
                more_room(before.lane(t), self.lane(t))
            } else {
                same_room(before.lane(t), self.lane(t))
            }
        &&& effects.released matches Some(slot) ==> slot < before.lanes@.len()
        &&& effects.wake == self.wake_due(before)
    }

    /// Nothing is owed where the lanes stay as they are.
    pub(super) proof fn lemma_owes_nothing(&self, after: &Channel<T>, effects: Effects)
        requires
            after.lanes@ == self.lanes@,
            after.registered_lanes == self.registered_lanes,
            effects.released is None,
            effects.wake is Nobody,
        ensures
            after.owes(self, effects),
    {
        assert forall|t: int| #[trigger] after.unread_in(t) == self.unread_in(t) by {}
    }

    /// Lanes only give values while receiving.
    pub(super) proof fn lemma_unread_shrinks(&self, after: &Channel<T>, slot: int)
        requires
            after.kept(self),
        ensures
            after.unread_in(slot).len() <= self.unread_in(slot).len(),
    {
        if after.present(slot) {
            assert(lane_kept(self.lanes@[slot], after.lanes@[slot]));
        }
    }

    /// What a look has to announce does not depend on an earlier one that had to
    /// announce nothing.
    pub(super) proof fn lemma_due_further(&self, mid: &Channel<T>, after: &Channel<T>)
        requires
            mid.kept(self),
            mid.wake_due(self) is Nobody,
            after.kept(mid),
        ensures
            after.wake_due(self) == after.wake_due(mid),
    {
        assert forall|t: int|
            #![trigger after.gave_many(self, t)]
            #![trigger after.gave_many(mid, t)]
            #![trigger after.gave_some(self, t)]
            #![trigger after.gave_some(mid, t)]
            after.gave_many(self, t) == after.gave_many(mid, t) && after.gave_some(self, t)
                == after.gave_some(mid, t) by {
            self.lemma_unread_shrinks(mid, t);
            mid.lemma_unread_shrinks(after, t);
            assert(!mid.gave_many(self, t));
            assert(!mid.gave_some(self, t));
        }
        if exists|t: int| #[trigger] after.gave_many(self, t) {
            let t = choose|t: int| #[trigger] after.gave_many(self, t);
            assert(after.gave_many(mid, t));
        }
        if exists|t: int| #[trigger] after.gave_many(mid, t) {
            let t = choose|t: int| #[trigger] after.gave_many(mid, t);
            assert(after.gave_many(self, t));
        }
        if exists|t: int| #[trigger] after.gave_some(self, t) {
            let t = choose|t: int| #[trigger] after.gave_some(self, t);
            assert(after.gave_some(mid, t));
        }
        if exists|t: int| #[trigger] after.gave_some(mid, t) {
            let t = choose|t: int| #[trigger] after.gave_some(mid, t);
            assert(after.gave_some(self, t));
        }
    }

    /// A look that owes nothing can be forgotten.
    pub(super) proof fn lemma_owes_further(&self, mid: &Channel<T>, after: &Channel<T>, effects: Effects)
        requires
            mid.kept(self),
            mid.owes(self, (Effects { released: None, wake: Wake::Nobody })),
            after.kept(mid),
            after.owes(mid, effects),
        ensures
            after.owes(self, effects),
    {
        let nothing = Effects { released: None, wake: Wake::Nobody };
        assert forall|t: int|
            0 <= t < self.lanes@.len() && self.lanes@[t] is Some && (
            #[trigger] after.lanes@[t]) is Some implies if effects.released == Some(t as usize) {
            more_room(self.lane(t), after.lane(t))
        } else {
            same_room(self.lane(t), after.lane(t))
        } by {
            assert(lane_kept(mid.lanes@[t], after.lanes@[t]));
            assert(mid.lanes@[t] is Some);
            assert(nothing.released != Some(t as usize));
            assert(same_room(self.lane(t), mid.lane(t)));
        }
        self.lemma_due_further(mid, after);
    }
}

impl<T> Channel<T> {
    /// What receiving leaves as it is.
    pub open spec fn kept(&self, before: &Channel<T>) -> bool {
        &&& self.lanes@.len() == before.lanes@.len()
        &&& forall|t: int|
            0 <= t < before.lanes@.len() ==> lane_kept(before.lanes@[t], #[trigger] self.lanes@[t])
        &&& self.registered_lanes <= before.registered_lanes
        &&& self.live_senders == before.live_senders
        &&& self.live_receivers == before.live_receivers
        &&& self.receiver_alive == before.receiver_alive
        &&& self.free_receivers == before.free_receivers
        &&& self.same_receivers(before)
        &&& self.same_channel(before)
        &&& self.data_waiters.waiters == before.data_waiters.waiters
    }

    /// Nothing lost by doing nothing.
    pub(super) proof fn lemma_kept_same(&self, after: &Channel<T>)
        requires
            after.lanes == self.lanes,
            after.registered_lanes <= self.registered_lanes,
            after.live_senders == self.live_senders,
            after.live_receivers == self.live_receivers,
            after.receiver_alive == self.receiver_alive,
            after.free_receivers == self.free_receivers,
            after.same_receivers(self),
            after.same_channel(self),
            after.data_waiters.waiters == self.data_waiters.waiters,
        ensures
            after.kept(self),
    {
        assert forall|t: int| 0 <= t < self.lanes@.len() implies lane_kept(
            self.lanes@[t],
            #[trigger] after.lanes@[t],
        ) by {
            if self.lanes@[t] is Some {
                let values = self.lanes@[t]->Some_0.ring@;
                assert(values =~= values.skip(0));
            }
        }
    }

    /// Steps of a receive one after the other.
    pub(super) proof fn lemma_kept_further(&self, mid: &Channel<T>, after: &Channel<T>)
        requires
            mid.kept(self),
            after.kept(mid),
        ensures
            after.kept(self),
    {
        assert forall|t: int| 0 <= t < self.lanes@.len() implies lane_kept(
            self.lanes@[t],
            #[trigger] after.lanes@[t],
        ) by {
            assert(lane_kept(self.lanes@[t], mid.lanes@[t]));
            assert(lane_kept(mid.lanes@[t], after.lanes@[t]));
            if after.lanes@[t] is Some && self.lanes@[t] is Some && mid.lanes@[t] is Some {
                let a = self.lanes@[t]->Some_0.ring@;
                let b = mid.lanes@[t]->Some_0.ring@;
                let c = after.lanes@[t]->Some_0.ring@;
                let k = choose|k: int| 0 <= k <= a.len() && b == #[trigger] a.skip(k);
                let m = choose|m: int| 0 <= m <= b.len() && c == #[trigger] b.skip(m);
                assert(c =~= a.skip(k + m));
            }
        }
        assert forall|i: int| 0 <= i < self.receivers@.len() implies ((
        #[trigger] after.receivers@[i]) is Some <==> self.receivers@[i] is Some) by {
            assert(mid.receivers@[i] is Some <==> self.receivers@[i] is Some);
        }
    }

    /// What exchanging the lane in `slot` does to the sums.
    pub(super) proof fn lemma_lane_replaced(&self, after: &Channel<T>, slot: int, lane: Option<Lane<T>>)
        requires
            0 <= slot < self.lanes@.len(),
            after.lanes@ == self.lanes@.update(slot, lane),
        ensures
            forall|v: T| #[trigger]
                total(lane_bags(after.lanes@)).count(v) + lane_bag(self.lanes@[slot]).count(v)
                    == total(lane_bags(self.lanes@)).count(v) + lane_bag(lane).count(v),
            ({
                let open = lane is Some && !lane->Some_0.ring.producer_closed;
                let was_open = connected(self.lanes@)[slot];
                count(connected(after.lanes@)) + (if was_open {
                    1nat
                } else {
                    0nat
                }) == count(connected(self.lanes@)) + (if open {
                    1nat
                } else {
                    0nat
                })
            }),
            count(taken_places(after.lanes@)) + (if self.lanes@[slot] is Some {
                1nat
            } else {
                0nat
            }) == count(taken_places(self.lanes@)) + (if lane is Some {
                1nat
            } else {
                0nat
            }),
            ({
                let is_dry = lane is Some && lane->Some_0.signal.pending
                    && lane->Some_0.ring@.len() == 0;
                count(dry(after.lanes@)) + (if dry(self.lanes@)[slot] {
                    1nat
                } else {
                    0nat
                }) == count(dry(self.lanes@)) + (if is_dry {
                    1nat
                } else {
                    0nat
                })
            }),
    {
        let open = lane is Some && !lane->Some_0.ring.producer_closed;
        let is_dry = lane is Some && lane->Some_0.signal.pending && lane->Some_0.ring@.len() == 0;
        lemma_total_update(lane_bags(self.lanes@), slot, lane_bag(lane));
        assert(lane_bags(after.lanes@) =~= lane_bags(self.lanes@).update(slot, lane_bag(lane)));
        lemma_count_update(connected(self.lanes@), slot, open);
        assert(connected(after.lanes@) =~= connected(self.lanes@).update(slot, open));
        lemma_count_update(taken_places(self.lanes@), slot, lane is Some);
        assert(taken_places(after.lanes@) =~= taken_places(self.lanes@).update(slot, lane is Some));
        lemma_count_update(dry(self.lanes@), slot, is_dry);
        assert(dry(after.lanes@) =~= dry(self.lanes@).update(slot, is_dry));
    }

    /// The lane in the hand was exchanged: it is still pending and in the hand,
    /// or it is idle and nothing is left to do for it, or it is gone.
    proof fn lemma_hand_replaced(&self, after: &Channel<T>, slot: int, lane: Option<Lane<T>>)
        requires
            self.inv(Some(slot)),
            self.receiver_alive,
            after.lanes@ == self.lanes@.update(slot, lane),
            after.routing == self.routing,
            after.receivers == self.receivers,
            after.free_receivers == self.free_receivers,
            after.staging == self.staging,
            after.orphaned == self.orphaned,
            after.live_senders == self.live_senders,
            after.live_receivers == self.live_receivers,
            after.receiver_alive == self.receiver_alive,
            after.data_waiters.wf(),
            after.same_channel(self),
            match lane {
                Some(lane) => {
                    &&& lane.wf(slot, self.capacity as nat)
                    &&& !lane.ring.consumer_closed
                    &&& lane.ring.coordinated == self.coordinated
                    &&& lane.ring.producer_closed == self.lane(slot).ring.producer_closed
                    &&& lane.signal.pending || (lane.ring@.len() == 0 && !lane.ring.producer_closed)
                    &&& after.free == self.free
                    &&& after.registered_lanes == self.registered_lanes
                },
                None => {
                    &&& self.lane(slot).ring.producer_closed
                    &&& after.free@ == self.free@.push(self.lane(slot).key.next())
                    &&& after.registered_lanes == self.registered_lanes - 1
                },
            },
        ensures
            after.inv(
                if lane is Some && lane->Some_0.signal.pending {
                    Some(slot)
                } else {
                    None
                },
            ),
    {
        let hand = if lane is Some && lane->Some_0.signal.pending {
            Some(slot)
        } else {
            None
        };
        assert(self.pending(slot));
        self.lemma_lane_replaced(after, slot, lane);
        assert forall|t: int| #[trigger] after.pending(t) <==> (self.pending(t) && t != slot)
            || hand == Some(t) by {
            if 0 <= t < self.lanes@.len() && t != slot {
                assert(after.lanes@[t] == self.lanes@[t]);
            }
        }
        assert forall|t: int| #[trigger] after.routing.slots().contains(t) implies after.pending(t)
            && hand != Some(t) by {
            assert(self.routing.slots().contains(t));
        }
        assert forall|t: int| #[trigger] after.pending(t) implies after.routing.slots().contains(t)
            || hand == Some(t) by {
            if self.pending(t) {
                assert(self.routing.slots().contains(t) || t == slot);
            }
        }
        assert forall|t: int|
            0 <= t < after.lanes@.len() && (#[trigger] after.lanes@[t]) is Some implies {
            &&& after.lanes@[t]->Some_0.wf(t, after.capacity as nat)
            &&& after.lanes@[t]->Some_0.ring.consumer_closed == !after.receiver_alive
            &&& after.lanes@[t]->Some_0.ring.coordinated == after.coordinated
            &&& (after.lanes@[t]->Some_0.ring@.len() > 0
                || after.lanes@[t]->Some_0.ring.producer_closed)
                ==> after.lanes@[t]->Some_0.signal.pending
        } by {
            if t != slot {
                assert(after.lanes@[t] == self.lanes@[t]);
            }
        }
        assert(after.free_ok()) by {
            assert forall|i: int| 0 <= i < after.free@.len() implies (
            #[trigger] after.free@[i]).slot < after.lanes@.len()
                && after.lanes@[after.free@[i].slot as int] is None by {
                if i < self.free@.len() {
                    assert(after.free@[i] == self.free@[i]);
                    let t = self.free@[i].slot as int;
                    assert(self.lanes@[t] is None);
                }
            }
            assert forall|i: int, j: int| 0 <= i < j < after.free@.len() implies (
            #[trigger] after.free@[i]).slot != (#[trigger] after.free@[j]).slot by {
                assert(after.free@[i] == self.free@[i]);
                if j < self.free@.len() {
                    assert(after.free@[j] == self.free@[j]);
                } else {
                    assert(self.lanes@[self.free@[i].slot as int] is None);
                }
            }
        }
        assert(after.tickets() == self.tickets());
        assert forall|t: u64| #[trigger] after.tickets().count(t) == if after.staging.holds(t) {
            1nat
        } else {
            0nat
        } by {
            assert(self.tickets().count(t) == if self.staging.holds(t) {
                1nat
            } else {
                0nat
            });
        }
    }
}

impl<T> Channel<T> {
    /// Everything but the lanes and the free list.
    pub open spec fn same_work(&self, before: &Channel<T>) -> bool {
        &&& self.lanes@.len() == before.lanes@.len()
        &&& self.receivers == before.receivers
        &&& self.free_receivers == before.free_receivers
        &&& self.staging == before.staging
        &&& self.orphaned == before.orphaned
        &&& self.publications == before.publications
        &&& self.live_senders == before.live_senders
        &&& self.live_receivers == before.live_receivers
        &&& self.receiver_alive == before.receiver_alive
        &&& self.data_waiters == before.data_waiters
        &&& self.same_channel(before)
    }

    /// Everything but the lane in `slot` stays.
    pub open spec fn same_other_lanes(&self, before: &Channel<T>, slot: int) -> bool {
        forall|t: int|
            0 <= t < before.lanes@.len() && t != slot ==> #[trigger] self.lanes@[t]
                == before.lanes@[t]
    }

    /// Whether every lane with values stayed as it was, and no other got any.
    pub open spec fn untouched(&self, before: &Channel<T>) -> bool {
        &&& self.same_unread(before)
        &&& forall|t: int|
            before.unread_in(t).len() > 0 ==> #[trigger] self.lanes@[t] == before.lanes@[t]
    }

    /// What receiving does to every lane, with the one in `slot`, if any, giving
    /// a batch.
    pub open spec fn settled(&self, before: &Channel<T>, slot: Option<int>) -> bool {
        forall|t: int|
            0 <= t < before.lanes@.len() ==> if slot == Some(t) {
                gave_batch(before.lanes@[t], #[trigger] self.lanes@[t])
            } else {
                undisturbed(before.lanes@[t], self.lanes@[t]) || rested(
                    before.lanes@[t],
                    self.lanes@[t],
                )
            }
    }

    /// Receiving leaves no lane pending without a value.
    pub(super) proof fn lemma_settled_dry(&self, after: &Channel<T>, slot: Option<int>)
        requires
            after.settled(self, slot),
            after.lanes@.len() == self.lanes@.len(),
        ensures
            after.dry_lanes() <= self.dry_lanes(),
    {
        assert forall|t: int| 0 <= t < dry(after.lanes@).len() && #[trigger] dry(
            after.lanes@,
        )[t] implies dry(self.lanes@)[t] by {
            assert(after.lanes@[t] is Some);
        }
        lemma_count_within(dry(after.lanes@), dry(self.lanes@));
    }

    /// What happens to the lanes in two steps, of which one gives a batch at
    /// most.
    pub(super) proof fn lemma_settled_further(
        &self,
        mid: &Channel<T>,
        after: &Channel<T>,
        first: Option<int>,
        second: Option<int>,
    )
        requires
            mid.lanes@.len() == self.lanes@.len(),
            mid.settled(self, first),
            after.settled(mid, second),
            first is None || second is None,
        ensures
            after.settled(
                self,
                if first is Some {
                    first
                } else {
                    second
                },
            ),
    {
        assert forall|t: int| 0 <= t < self.lanes@.len() implies if first == Some(t) || (first
            is None && second == Some(t)) {
            gave_batch(self.lanes@[t], #[trigger] after.lanes@[t])
        } else {
            undisturbed(self.lanes@[t], after.lanes@[t]) || rested(
                self.lanes@[t],
                after.lanes@[t],
            )
        } by {
            assert(mid.lanes@[t] == mid.lanes@[t]);
        }
    }

    /// Lanes that nobody touched.
    pub(super) proof fn lemma_settled_same(&self, after: &Channel<T>)
        requires
            after.lanes@ == self.lanes@,
        ensures
            after.settled(self, None),
    {
    }

    /// What draining the lane in `slot` does: its first value is taken, and
    /// receiver `id` stages the rest of the batch. A sole receiver keeps it to
    /// itself; otherwise others may steal it.
    pub open spec fn drained(&self, before: &Channel<T>, id: int, slot: int, value: T) -> bool {
        let values = before.unread_in(slot);
        let batch = batch_of(before.lane(slot));
        &&& 0 < batch <= values.len()
        &&& value == values[0]
        &&& self.unread_in(slot) == values.skip(batch)
        &&& forall|t: int| t != slot ==> #[trigger] self.unread_in(t) == before.unread_in(t)
        &&& self.staged_by(id) == values.subrange(1, batch)
        &&& before.live_receivers == 1 ==> self.receiver(id).private@ == values.subrange(1, batch)
        &&& before.live_receivers > 1 ==> self.receiver(id).private@.len() == 0 && self.stealable(
            id,
        ) == values.subrange(1, batch)
        &&& self.same_staged_but(before, id, id)
        &&& self.left_behind() == before.left_behind()
    }

    /// Where the lane in `slot` is after it gave a batch, if it was taken out of
    /// `routing` while `free` held the keys for new lanes: queued again for the
    /// values that are left, and otherwise out of sight.
    pub open spec fn put_down(
        &self,
        routing: &Routing,
        free: Seq<LaneKey>,
        before: &Channel<T>,
        slot: int,
    ) -> bool {
        if before.unread_in(slot).len() > batch_of(before.lane(slot)) {
            self.routing.requeued(routing, slot) && self.free@ == free
        } else {
            self.routing == *routing && self.free@ == freed(free, before.lane(slot))
        }
    }

    /// The same queues and staging hold the same values.
    pub(super) proof fn lemma_same_staged(&self, after: &Channel<T>)
        requires
            after.receivers == self.receivers,
            after.staging == self.staging,
            after.orphaned == self.orphaned,
        ensures
            after.same_staged(self),
    {
        assert forall|k: int| #[trigger] after.staged_by(k) == self.staged_by(k) by {}
    }

    /// Only the lane in `slot` changed.
    proof fn lemma_same_elsewhere(&self, after: &Channel<T>, slot: int)
        requires
            after.lanes@.len() == self.lanes@.len(),
            after.same_other_lanes(self, slot),
        ensures
            forall|t: int| t != slot ==> #[trigger] after.unread_in(t) == self.unread_in(t),
    {
        assert forall|t: int| t != slot implies #[trigger] after.unread_in(t) == self.unread_in(
            t,
        ) by {
            if 0 <= t < self.lanes@.len() {
                assert(after.lanes@[t] == self.lanes@[t]);
            }
        }
    }

    /// Take the lane in `slot` out of the table and free the slot.
    fn retire_lane(&mut self, slot: usize)
        requires
            old(self).present(slot as int),
            old(self).lane(slot as int).key.slot == slot,
            old(self).registered_lanes > 0,
        ensures
            final(self).lanes@ == old(self).lanes@.update(slot as int, None),
            final(self).free@ == old(self).free@.push(old(self).lane(slot as int).key.next()),
            final(self).registered_lanes == old(self).registered_lanes - 1,
            final(self).routing == old(self).routing,
            final(self).same_work(old(self)),
    {
        if let Some(lane) = self.lanes[slot].take() {
            let generation: usize = lane.key.generation.wrapping_add(1);
            self.free.push(LaneKey { slot: lane.key.slot, generation });
            self.registered_lanes = self.registered_lanes - 1;
        }
    }

    /// Make the lane in the hand idle after its window was drained. It is kept
    /// when its ring holds values after all, and retired when its sender is
    /// gone.
    fn finish_empty_lane(&mut self, slot: usize) -> (finish: FinishLane)
        requires
            old(self).inv(Some(slot as int)),
            old(self).receiver_alive,
            old(self).lane(slot as int).cached_available == 0,
        ensures
            final(self).same_work(old(self)),
            final(self).same_other_lanes(old(self), slot as int),
            final(self).routing == old(self).routing,
            final(self).registered_lanes <= old(self).registered_lanes <= final(
                self).registered_lanes + 1,
            final(self).contents() == old(self).contents(),
            lane_kept(old(self).lanes@[slot as int], final(self).lanes@[slot as int]),
            final(self).free@ == if finish is Retired {
                old(self).free@.push(old(self).lane(slot as int).key.next())
            } else {
                old(self).free@
            },
            ({
                let lane = old(self).lane(slot as int);
                match finish {
                    FinishLane::Ready => {
                        &&& lane.ring@.len() > 0
                        &&& final(self).inv(Some(slot as int))
                        &&& final(self).lane(slot as int).ring@ == lane.ring@
                        &&& final(self).lane(slot as int).signal.pending
                        &&& final(self).registered_lanes == old(self).registered_lanes
                        &&& same_room(lane, final(self).lane(slot as int))
                        &&& count(dry(final(self).lanes@)) == count(dry(old(self).lanes@))
                    },
                    FinishLane::Parked => {
                        &&& lane.ring@.len() == 0
                        &&& !lane.ring.producer_closed
                        &&& final(self).inv(None)
                        &&& final(self).present(slot as int)
                        &&& final(self).registered_lanes == old(self).registered_lanes
                        &&& final(self).unread(slot as int).len() == 0
                        &&& !final(self).lane(slot as int).signal.pending
                        &&& same_room(lane, final(self).lane(slot as int))
                        &&& count(dry(final(self).lanes@)) + 1 == count(dry(old(self).lanes@))
                    },
                    FinishLane::Retired { wake_all } => {
                        &&& lane.ring@.len() == 0
                        &&& lane.ring.producer_closed
                        &&& final(self).inv(None)
                        &&& final(self).lanes@[slot as int] is None
                        &&& wake_all == (final(self).registered_lanes == 0
                            && old(self).live_senders == 0)
                        &&& count(dry(final(self).lanes@)) + 1 == count(dry(old(self).lanes@))
                    },
                }
            }),
    {
        let ghost before = *self;
        let ghost s = slot as int;
        assert(self.pending(s));
        assert(self.lanes@[s] is Some);
        let lane = self.lanes[slot].as_mut().unwrap();
        lane.signal.finish_drain();
        lane.cached_available = lane.ring.prefetch();
        if lane.cached_available != 0 {
            let _ = lane.signal.claim_after_empty();
            proof {
                let now = self.lane(s);
                assert(self.lanes@ =~= before.lanes@.update(s, Some(now)));
                before.lemma_hand_replaced(self, s, Some(now));
                before.lemma_lane_replaced(self, s, Some(now));
                assert(now.ring@ =~= before.lane(s).ring@);
                assert(now.ring@ =~= before.lane(s).ring@.skip(0));
                before.lemma_same_values(self, s);
            }
            return FinishLane::Ready;
        }
        let disconnected: bool = lane.ring.is_disconnected();
        let ghost quiet = *self;
        proof {
            let now = self.lane(s);
            assert(self.lanes@ =~= before.lanes@.update(s, Some(now)));
            assert(now.ring@ =~= before.lane(s).ring@);
            assert(now.ring@ =~= before.lane(s).ring@.skip(0));
            lemma_count_zero(taken_places(before.lanes@));
            assert(taken_places(before.lanes@)[s]);
        }
        if disconnected {
            self.retire_lane(slot);
            proof {
                assert(self.lanes@ =~= before.lanes@.update(s, None));
                before.lemma_hand_replaced(self, s, None);
                before.lemma_lane_replaced(self, s, None);
                lemma_bag_empty::<T>();
                assert(before.lane(s).ring@ =~= Seq::<T>::empty());
                before.lemma_same_values(self, s);
            }
            let wake_all: bool = self.registered_lanes == 0 && self.live_senders == 0;
            FinishLane::Retired { wake_all }
        } else {
            proof {
                before.lemma_hand_replaced(self, s, Some(self.lane(s)));
                before.lemma_lane_replaced(self, s, Some(self.lane(s)));
                before.lemma_same_values(self, s);
            }
            FinishLane::Parked
        }
    }

    /// Exchanging a lane for one with the same values keeps the contents.
    proof fn lemma_same_values(&self, after: &Channel<T>, slot: int)
        requires
            0 <= slot < self.lanes@.len(),
            after.lanes@ == self.lanes@.update(slot, after.lanes@[slot]),
            lane_bag(after.lanes@[slot]) == lane_bag(self.lanes@[slot]),
            after.receivers == self.receivers,
            after.staging == self.staging,
        ensures
            after.contents() == self.contents(),
    {
        assert(lane_bags(after.lanes@) =~= lane_bags(self.lanes@));
    }

    /// Queue the lane in the hand again.
    fn requeue_lane(&mut self, slot: usize)
        requires
            old(self).inv(Some(slot as int)),
            old(self).receiver_alive,
        ensures
            final(self).inv(None),
            final(self).same_work(old(self)),
            final(self).lanes == old(self).lanes,
            final(self).free == old(self).free,
            final(self).registered_lanes == old(self).registered_lanes,
            final(self).contents() == old(self).contents(),
            final(self).routing.stale() <= old(self).routing.stale(),
            final(self).routing.requeued(&old(self).routing, slot as int),
    {
        let ghost before = *self;
        let ghost s = slot as int;
        proof {
            assert(self.pending(s));
            if self.routing.slots().contains(s) {
                assert(false);
            }
        }
        self.routing.requeue(slot);
        proof {
            assert forall|t: int| #[trigger] self.pending(t) == before.pending(t) by {}
            assert forall|t: int| #[trigger] self.routing.slots().contains(t) implies self.pending(
                t,
            ) by {
                if t != s {
                    assert(before.routing.slots().contains(t));
                }
            }
            assert forall|t: int| #[trigger] self.pending(t) implies self.routing.slots().contains(
                t,
            ) by {
                assert(before.pending(t));
            }
            assert(self.tickets() == before.tickets());
            assert forall|t: u64| #[trigger] self.tickets().count(t) == if self.staging.holds(t) {
                1nat
            } else {
                0nat
            } by {
                assert(before.tickets().count(t) == if before.staging.holds(t) {
                    1nat
                } else {
                    0nat
                });
            }
        }
    }

    /// Take a pending lane into the hand of receiver `id`.
    pub fn acquire_lane(&mut self, id: usize) -> (slot: Option<usize>)
        requires
            old(self).wf(),
            old(self).receiver_alive,
            old(self).knows(id as int),
        ensures
            final(self).inv(
                match slot {
                    Some(slot) => Some(slot as int),
                    None => None,
                },
            ),
            final(self).lanes == old(self).lanes,
            final(self).free == old(self).free,
            final(self).registered_lanes == old(self).registered_lanes,
            final(self).live_senders == old(self).live_senders,
            final(self).live_receivers == old(self).live_receivers,
            final(self).receiver_alive == old(self).receiver_alive,
            final(self).free_receivers == old(self).free_receivers,
            final(self).staging == old(self).staging,
            final(self).orphaned == old(self).orphaned,
            final(self).data_waiters == old(self).data_waiters,
            final(self).same_channel(old(self)),
            final(self).same_receivers(old(self)),
            final(self).others_stay(old(self), id as int),
            final(self).receiver(id as int).private@ == old(self).receiver(id as int).private@,
            final(self).receiver(id as int).local@ == old(self).receiver(id as int).local@,
            final(self).receiver(id as int).steal_cursor == old(self).receiver(
                id as int,
            ).steal_cursor,
            final(self).same_staged(old(self)),
            final(self).contents() == old(self).contents(),
            final(self).routing.routed(
                &old(self).routing,
                old(self).receiver(id as int).cursors,
                final(self).receiver(id as int).cursors,
                slot,
            ),
            later(
                old(self).publications.generation,
                final(self).publications.generation,
                old(self).routing.stale_met(old(self).receiver(id as int).cursors, slot) as int,
            ),
            match slot {
                Some(_) => {
                    &&& final(self).publications.in_flight == 1
                    &&& final(self).upkeep() <= old(self).upkeep() + 1
                },
                None => {
                    &&& final(self).publications.in_flight == 0
                    &&& old(self).routing.ready@ == Set::<int>::empty()
                    &&& {
                        ||| final(self).upkeep() == old(self).upkeep() && final(self).publications
                            == old(self).publications && old(self).routing.idle()
                        ||| final(self).upkeep() < old(self).upkeep() && final(
                            self).publications.generation != old(self).publications.generation
                    }
                },
            },
    {
        let ghost before = *self;
        let ghost i = id as int;
        assert(self.receivers@[i] is Some);
        let state = self.receivers[id].as_mut().unwrap();
        let slot = self.routing.acquire_lane(&mut state.cursors, &mut self.publications);
        proof {
            let state = self.receiver(i);
            assert(self.receivers@ =~= before.receivers@.update(i, Some(state)));
            before.lemma_receiver_updated(self, i, state);
            assert forall|k: int| #[trigger] self.staged_by(k) == before.staged_by(k) by {}
            assert(private_bags(self.receivers@) =~= private_bags(before.receivers@));
            assert(local_bags(self.receivers@) =~= local_bags(before.receivers@));
            assert(self.tickets() == before.tickets());
            assert forall|t: u64| #[trigger] self.tickets().count(t) == if self.staging.holds(t) {
                1nat
            } else {
                0nat
            } by {
                assert(before.tickets().count(t) == if before.staging.holds(t) {
                    1nat
                } else {
                    0nat
                });
            }
            let hand = match slot {
                Some(slot) => Some(slot as int),
                None => None,
            };
            assert forall|t: int| #[trigger] self.pending(t) == before.pending(t) by {}
            assert forall|t: int| #[trigger] self.routing.slots().contains(t) implies self.pending(
                t,
            ) && hand != Some(t) by {
                assert(before.routing.slots().contains(t));
            }
            assert forall|t: int| #[trigger] self.pending(t) implies self.routing.slots().contains(
                t,
            ) || hand == Some(t) by {
                assert(before.pending(t));
                assert(before.routing.slots().contains(t));
            }
        }
        slot
    }

    /// Whom to wake after a lane gave a batch.
    proof fn lemma_wake_due(&self, after: &Channel<T>, slot: int, batch: nat)
        requires
            0 < batch <= self.unread_in(slot).len(),
            after.unread_in(slot).len() == self.unread_in(slot).len() - batch,
            forall|t: int| t != slot ==> #[trigger] after.unread_in(t) == self.unread_in(t),
        ensures
            after.wake_due(self) == if after.last_retired(self) || batch > 1 {
                Wake::All
            } else if batch < self.unread_in(slot).len() {
                Wake::One
            } else {
                Wake::Nobody
            },
    {
        assert(after.gave_many(self, slot) == (batch > 1));
        assert(after.gave_some(self, slot) == (batch < self.unread_in(slot).len()));
        assert forall|t: int| t != slot implies !#[trigger] after.gave_many(self, t) by {
            assert(after.unread_in(t) == self.unread_in(t));
        }
        assert forall|t: int| t != slot implies !#[trigger] after.gave_some(self, t) by {
            assert(after.unread_in(t) == self.unread_in(t));
        }
    }

    /// Drain one batch of the lane in the hand of receiver `id`. The first value
    /// is returned, the others are staged. The lane is queued again, made idle
    /// or retired.
    #[verifier::rlimit(30)]
    pub fn drain_lane(&mut self, id: usize, slot: usize) -> (drain: LaneDrain<T>)
        requires
            old(self).inv(Some(slot as int)),
            old(self).receiver_alive,
            old(self).knows(id as int),
            old(self).receiver(id as int).private@.len() == 0,
            old(self).receiver(id as int).local@.len() == 0,
        ensures
            final(self).inv(None),
            final(self).kept(old(self)),
            final(self).publications == old(self).publications,
            final(self).data_waiters == old(self).data_waiters,
            match drain {
                LaneDrain::Item { value, effects } => {
                    &&& final(self).owes(old(self), effects)
                    &&& old(self).unread(slot as int).len() > 0
                    &&& value == old(self).unread(slot as int)[0]
                    &&& final(self).gave(old(self), value)
                    &&& final(self).drained(old(self), id as int, slot as int, value)
                    &&& final(self).settled(old(self), Some(slot as int))
                    &&& final(self).routing.stale() <= old(self).routing.stale()
                    &&& final(self).put_down(
                        &old(self).routing,
                        old(self).free@,
                        old(self),
                        slot as int,
                    )
                    &&& final(self).receiver(id as int).cursors == old(self).receiver(
                        id as int,
                    ).cursors
                    &&& final(self).receiver(id as int).steal_cursor == old(self).receiver(
                        id as int,
                    ).steal_cursor
                    &&& final(self).others_stay(old(self), id as int)
                    &&& effects.released == if gives_back(old(self).lane(slot as int)) {
                        Some(slot)
                    } else {
                        None
                    }
                    &&& effects.wake == (if batch_of(old(self).lane(slot as int)) > 1 {
                        Wake::All
                    } else {
                        Wake::Nobody
                    }).both(
                        left_over(
                            old(self).lane(slot as int),
                            batch_of(old(self).lane(slot as int)),
                            final(self).registered_lanes == 0 && old(self).live_senders == 0,
                        ),
                    )
                },
                LaneDrain::Empty(effects) => {
                    &&& final(self).owes(old(self), effects)
                    &&& old(self).unread(slot as int).len() == 0
                    &&& final(self).present(slot as int) ==> held(final(self).lane(slot as int))
                        == 0
                    &&& effects.wake == if final(self).registered_lanes == 0 && old(
                        self).live_senders == 0 {
                        Wake::All
                    } else {
                        Wake::Nobody
                    }
                    &&& final(self).contents() == old(self).contents()
                    &&& final(self).routing == old(self).routing
                    &&& final(self).free@ == freed(old(self).free@, old(self).lane(slot as int))
                    &&& final(self).receivers == old(self).receivers
                    &&& final(self).same_staged(old(self))
                    &&& final(self).untouched(old(self))
                    &&& final(self).settled(old(self), None)
                    &&& final(self).upkeep() + 2 <= old(self).upkeep()
                    &&& effects.released == if old(self).lane(slot as int).unreleased > 0 {
                        Some(slot)
                    } else {
                        None
                    }
                },
            },
    {
        let ghost before = *self;
        let ghost s = slot as int;
        assert(self.pending(s));
        assert(self.lanes@[s] is Some);
        let lane = self.lanes[slot].as_mut().unwrap();
        if lane.cached_available == 0 {
            lane.cached_available = lane.ring.prefetch();
        }
        let available: usize = lane.cached_available;
        let ghost fetched = *self;
        proof {
            let now = self.lane(s);
            assert(self.lanes@ =~= before.lanes@.update(s, Some(now)));
            assert(now.ring@ =~= before.lane(s).ring@);
            assert(now.ring@ =~= before.lane(s).ring@.skip(0));
            before.lemma_hand_replaced(self, s, Some(now));
            before.lemma_lane_replaced(self, s, Some(now));
            before.lemma_same_values(self, s);
            before.lemma_kept_one(self, s);
        }
        if available == 0 {
            let effects: Effects = self.finish_without_value(slot);
            proof {
                before.lemma_same_staged(self);
                before.lemma_same_elsewhere(&fetched, s);
                fetched.lemma_same_elsewhere(self, s);
                assert(before.unread_in(s) =~= self.unread_in(s));
                assert forall|t: int| before.unread_in(t).len() > 0 implies
                    #[trigger] self.lanes@[t] == before.lanes@[t] by {
                    assert(t != s);
                    assert(fetched.lanes@[t] == before.lanes@[t]);
                }
                assert forall|t: int| #[trigger] self.unread_in(t) == before.unread_in(t) by {
                    assert(fetched.unread_in(t) == before.unread_in(t));
                }
                before.lemma_kept_further(&fetched, self);
                assert forall|t: int| 0 <= t < before.lanes@.len() implies undisturbed(
                    before.lanes@[t],
                    #[trigger] self.lanes@[t],
                ) || rested(before.lanes@[t], self.lanes@[t]) by {
                    if t != s {
                        assert(fetched.lanes@[t] == before.lanes@[t]);
                    }
                }
                lemma_count_zero(taken_places(before.lanes@));
                assert(taken_places(before.lanes@)[s]);
            }
            return LaneDrain::Empty(effects);
        }
        let (value, staged_any, released) = self.take_and_stage(id, slot);
        let ghost staged = *self;
        let wake: Wake = self.finish_with_value(slot);
        proof {
            before.lemma_kept_further(&fetched, &staged);
            before.lemma_kept_further(&staged, self);
        }
        let told: Option<usize> = if released {
            Some(slot)
        } else {
            None
        };
        let first: Wake = if staged_any {
            Wake::All
        } else {
            Wake::Nobody
        };
        proof {
            let batch = batch_of(before.lane(s));
            lemma_count_zero(taken_places(before.lanes@));
            assert(taken_places(before.lanes@)[s]);
            before.lemma_same_staged(&fetched);
            staged.lemma_same_staged(self);
            before.lemma_same_elsewhere(&fetched, s);
            fetched.lemma_same_elsewhere(&staged, s);
            staged.lemma_same_elsewhere(self, s);
            assert forall|t: int| t != s implies #[trigger] self.unread_in(t) == before.unread_in(
                t,
            ) by {
                assert(staged.unread_in(t) == fetched.unread_in(t));
                assert(fetched.unread_in(t) == before.unread_in(t));
            }
            assert forall|k: int| k != id implies #[trigger] self.staged_by(k)
                == before.staged_by(k) by {
                assert(staged.staged_by(k) == fetched.staged_by(k));
                assert(fetched.staged_by(k) == before.staged_by(k));
            }
            assert(self.staged_by(id as int) == staged.staged_by(id as int));
            assert(self.drained(&before, id as int, s, value));
            assert forall|t: int| 0 <= t < before.lanes@.len() && t != s implies
                #[trigger] self.lanes@[t] == before.lanes@[t] by {
                assert(staged.lanes@[t] == fetched.lanes@[t]);
                assert(self.lanes@[t] == staged.lanes@[t]);
            }
            assert(gave_batch(before.lanes@[s], self.lanes@[s]));
            assert(self.put_down(&before.routing, before.free@, &before, s)) by {
                assert(staged.unread(s).len() == before.unread(s).len() - batch);
                assert(staged.routing == before.routing);
            }
            before.lemma_wake_due(self, s, batch as nat);
        }
        LaneDrain::Item { value, effects: Effects { released: told, wake: first.merge(wake) } }
    }

    /// Put the lane in the hand down after it gave no value.
    fn finish_without_value(&mut self, slot: usize) -> (effects: Effects)
        requires
            old(self).inv(Some(slot as int)),
            old(self).receiver_alive,
            old(self).unread(slot as int).len() == 0,
        ensures
            final(self).inv(None),
            final(self).kept(old(self)),
            final(self).publications == old(self).publications,
            final(self).data_waiters == old(self).data_waiters,
            final(self).contents() == old(self).contents(),
            final(self).upkeep() + 2 <= old(self).upkeep(),
            final(self).routing == old(self).routing,
            final(self).free@ == freed(old(self).free@, old(self).lane(slot as int)),
            final(self).same_work(old(self)),
            final(self).same_other_lanes(old(self), slot as int),
            final(self).unread_in(slot as int).len() == 0,
            rested(old(self).lanes@[slot as int], final(self).lanes@[slot as int]),
            final(self).present(slot as int) ==> {
                &&& held(final(self).lane(slot as int)) == 0
                &&& final(self).lane(slot as int).signal.space_waiter == old(self).lane(
                    slot as int,
                ).signal.space_waiter
            },
            effects.released == if old(self).lane(slot as int).unreleased > 0 {
                Some(slot)
            } else {
                None
            },
            effects.wake == if final(self).registered_lanes == 0 && old(self).live_senders == 0 {
                Wake::All
            } else {
                Wake::Nobody
            },
    {
        let ghost before = *self;
        let ghost s = slot as int;
        assert(self.pending(s));
        assert(self.lanes@[s] is Some);
        let lane = self.lanes[slot].as_mut().unwrap();
        let released: bool = lane.release_pending();
        let ghost mid = *self;
        proof {
            let now = self.lane(s);
            assert(self.lanes@ =~= before.lanes@.update(s, Some(now)));
            assert(now.ring@ =~= before.lane(s).ring@);
            assert(now.ring@ =~= before.lane(s).ring@.skip(0));
            before.lemma_hand_replaced(self, s, Some(now));
            before.lemma_lane_replaced(self, s, Some(now));
            before.lemma_same_values(self, s);
            before.lemma_kept_one(self, s);
        }
        let finish = self.finish_empty_lane(slot);
        proof {
            mid.lemma_kept_one(self, s);
            before.lemma_kept_further(&mid, self);
            if self.present(s) {
                lemma_count_zero(taken_places(self.lanes@));
                assert(taken_places(self.lanes@)[s]);
            }
        }
        let told: Option<usize> = if released {
            Some(slot)
        } else {
            None
        };
        match finish {
            FinishLane::Ready => {
                self.requeue_lane(slot);
                Effects { released: told, wake: Wake::One }
            },
            FinishLane::Parked => Effects { released: told, wake: Wake::Nobody },
            FinishLane::Retired { wake_all } => Effects {
                released: told,
                wake: if wake_all {
                    Wake::All
                } else {
                    Wake::Nobody
                },
            },
        }
    }

    /// Put the lane in the hand down after it gave a batch.
    fn finish_with_value(&mut self, slot: usize) -> (wake: Wake)
        requires
            old(self).inv(Some(slot as int)),
            old(self).receiver_alive,
        ensures
            final(self).inv(None),
            final(self).kept(old(self)),
            final(self).publications == old(self).publications,
            final(self).data_waiters == old(self).data_waiters,
            final(self).contents() == old(self).contents(),
            final(self).same_work(old(self)),
            final(self).same_other_lanes(old(self), slot as int),
            final(self).unread_in(slot as int) == old(self).unread_in(slot as int),
            final(self).pending(slot as int) == (old(self).unread(slot as int).len() > 0),
            final(self).present(slot as int) == (old(self).unread(slot as int).len() > 0 || !old(
                self).lane(slot as int).ring.producer_closed),
            final(self).routing.stale() <= old(self).routing.stale(),
            if old(self).unread(slot as int).len() > 0 {
                &&& final(self).routing.requeued(&old(self).routing, slot as int)
                &&& final(self).free@ == old(self).free@
            } else {
                &&& final(self).routing == old(self).routing
                &&& final(self).free@ == freed(old(self).free@, old(self).lane(slot as int))
            },
            final(self).present(slot as int) ==> same_room(
                old(self).lane(slot as int),
                final(self).lane(slot as int),
            ),
            wake == left_over(
                old(self).lane(slot as int),
                0,
                final(self).registered_lanes == 0 && old(self).live_senders == 0,
            ),
    {
        let ghost before = *self;
        let ghost s = slot as int;
        assert(self.pending(s));
        assert(self.lanes@[s] is Some);
        let left: usize = self.lanes[slot].as_ref().unwrap().cached_available;
        if left != 0 {
            self.requeue_lane(slot);
            proof {
                before.lemma_kept_same(self);
            }
            return Wake::One;
        }
        let finish = self.finish_empty_lane(slot);
        let ghost finished = *self;
        proof {
            before.lemma_kept_one(self, s);
            if self.present(s) {
                lemma_count_zero(taken_places(self.lanes@));
                assert(taken_places(self.lanes@)[s]);
            }
        }
        match finish {
            FinishLane::Ready => {
                self.requeue_lane(slot);
                proof {
                    finished.lemma_kept_same(self);
                    before.lemma_kept_further(&finished, self);
                }
                Wake::One
            },
            FinishLane::Parked => Wake::Nobody,
            FinishLane::Retired { wake_all } => if wake_all {
                Wake::All
            } else {
                Wake::Nobody
            },
        }
    }

    /// Take one batch from the lane in the hand of receiver `id` and stage all
    /// but its first value. Returns that value, whether others were staged, and
    /// whether slots were given back.
    fn take_and_stage(&mut self, id: usize, slot: usize) -> (r: (T, bool, bool))
        requires
            old(self).inv(Some(slot as int)),
            old(self).receiver_alive,
            old(self).knows(id as int),
            old(self).receiver(id as int).private@.len() == 0,
            old(self).receiver(id as int).local@.len() == 0,
            old(self).lane(slot as int).cached_available > 0,
        ensures
            final(self).inv(Some(slot as int)),
            final(self).kept(old(self)),
            final(self).publications == old(self).publications,
            final(self).data_waiters == old(self).data_waiters,
            old(self).unread(slot as int).len() > 0,
            r.0 == old(self).unread(slot as int)[0],
            r.1 == (batch_of(old(self).lane(slot as int)) > 1),
            r.2 == gives_back(old(self).lane(slot as int)),
            final(self).unread(slot as int) == old(self).unread(slot as int).skip(
                batch_of(old(self).lane(slot as int)),
            ),
            final(self).gave(old(self), r.0),
            final(self).staged_by(id as int) == old(self).unread(slot as int).subrange(
                1,
                batch_of(old(self).lane(slot as int)),
            ),
            final(self).same_staged_but(old(self), id as int, id as int),
            final(self).left_behind() == old(self).left_behind(),
            final(self).receiver(id as int).cursors == old(self).receiver(id as int).cursors,
            final(self).receiver(id as int).steal_cursor == old(self).receiver(
                id as int,
            ).steal_cursor,
            final(self).others_stay(old(self), id as int),
            final(self).same_other_lanes(old(self), slot as int),
            final(self).present(slot as int),
            final(self).lane(slot as int).ring.consumed == if r.2 {
                0
            } else {
                old(self).lane(slot as int).unreleased + batch_of(old(self).lane(slot as int))
            },
            final(self).lane(slot as int).ring.producer_closed == old(self).lane(
                slot as int,
            ).ring.producer_closed,
            old(self).live_receivers == 1 ==> final(self).receiver(id as int).private@ == old(
                self).unread(slot as int).subrange(1, batch_of(old(self).lane(slot as int))),
            old(self).live_receivers > 1 ==> final(self).receiver(id as int).private@.len() == 0,
            final(self).routing == old(self).routing,
            final(self).free == old(self).free,
            final(self).lane(slot as int).key == old(self).lane(slot as int).key,
            final(self).registered_lanes == old(self).registered_lanes,
            0 < batch_of(old(self).lane(slot as int)) <= old(self).unread(slot as int).len(),
            if r.2 {
                more_room(old(self).lane(slot as int), final(self).lane(slot as int))
            } else {
                same_room(old(self).lane(slot as int), final(self).lane(slot as int))
            },
    {
        let ghost before = *self;
        let ghost s = slot as int;
        assert(self.pending(s));
        assert(self.lanes@[s] is Some);
        let lane = self.lanes[slot].as_mut().unwrap();
        assert(lane.wf(s, before.capacity as nat));
        let (value, rest, released) = lane.take_batch();
        let ghost staged = rest@;
        let staged_any: bool = rest.len() > 0;
        let ghost popped = *self;
        let ghost batch = batch_of(before.lane(s));
        let ghost values = before.lane(s).ring@;
        proof {
            let now = self.lane(s);
            assert(self.lanes@ =~= before.lanes@.update(s, Some(now)));
            before.lemma_hand_replaced(self, s, Some(now));
            assert(now.ring@ == values.skip(batch));
            before.lemma_kept_one(self, s);
        }
        self.stage(id, rest, Ghost(Some(s)));
        proof {
            before.lemma_same_staged(&popped);
            assert forall|k: int| k != id implies #[trigger] self.staged_by(k)
                == before.staged_by(k) by {
                assert(popped.staged_by(k) == before.staged_by(k));
            }
            before.lemma_batch_taken(&popped, s, batch);
            assert forall|v: T| #[trigger] self.contents().count(v) + (if v == value {
                1nat
            } else {
                0nat
            }) == before.contents().count(v) by {
                assert(popped.contents().add(staged.to_multiset()).count(v)
                    == popped.contents().count(v) + staged.to_multiset().count(v));
                assert(popped.contents().count(v) + staged.to_multiset().count(v) + (if v
                    == values[0] {
                    1nat
                } else {
                    0nat
                }) == before.contents().count(v));
            }
            before.lemma_gave(self, value);
            popped.lemma_kept_same(self);
            before.lemma_kept_further(&popped, self);
        }
        (value, staged_any, released)
    }

    /// What a batch takes out of the contents.
    proof fn lemma_batch_taken(&self, popped: &Channel<T>, slot: int, batch: int)
        requires
            self.present(slot),
            popped.present(slot),
            popped.lanes@ == self.lanes@.update(slot, popped.lanes@[slot]),
            popped.receivers == self.receivers,
            popped.staging == self.staging,
            0 < batch <= self.unread(slot).len(),
            popped.unread(slot) == self.unread(slot).skip(batch),
        ensures
            forall|v: T| #[trigger]
                popped.contents().count(v) + self.unread(slot).subrange(
                    1,
                    batch,
                ).to_multiset().count(v) + (if v == self.unread(slot)[0] {
                    1nat
                } else {
                    0nat
                }) == self.contents().count(v),
    {
        let values = self.unread(slot);
        let value = values[0];
        let staged = values.subrange(1, batch);
        self.lemma_lane_replaced(popped, slot, popped.lanes@[slot]);
        assert(values =~= seq![value] + staged + values.skip(batch));
        lemma_bag_concat(seq![value] + staged, values.skip(batch));
        lemma_bag_concat(seq![value], staged);
        lemma_bag_push(Seq::<T>::empty(), value);
        lemma_bag_empty::<T>();
        assert(Seq::<T>::empty().push(value) =~= seq![value]);
        assert forall|v: T| #[trigger]
            popped.contents().count(v) + self.unread(slot).subrange(1, batch).to_multiset().count(v)
                + (if v == self.unread(slot)[0] {
                1nat
            } else {
                0nat
            }) == self.contents().count(v) by {
            assert((seq![value] + staged + values.skip(batch)).to_multiset().count(v) == (seq![value]
                + staged).to_multiset().count(v) + values.skip(batch).to_multiset().count(v));
            assert((seq![value] + staged).to_multiset().count(v) == seq![
                value,
            ].to_multiset().count(v) + staged.to_multiset().count(v));
            assert(Seq::<T>::empty().push(value).to_multiset().count(v) == Seq::<
                T,
            >::empty().to_multiset().count(v) + (if v == value {
                1nat
            } else {
                0nat
            }));
            assert(total(lane_bags(popped.lanes@)).count(v) + lane_bag(self.lanes@[slot]).count(v)
                == total(lane_bags(self.lanes@)).count(v) + lane_bag(popped.lanes@[slot]).count(v));
        }
    }

    /// Only one lane changed.
    proof fn lemma_kept_one(&self, after: &Channel<T>, slot: int)
        requires
            after.same_work(self),
            after.same_other_lanes(self, slot),
            after.registered_lanes <= self.registered_lanes,
            0 <= slot < self.lanes@.len(),
            lane_kept(self.lanes@[slot], after.lanes@[slot]),
        ensures
            after.kept(self),
    {
        assert forall|t: int| 0 <= t < self.lanes@.len() implies lane_kept(
            self.lanes@[t],
            #[trigger] after.lanes@[t],
        ) by {
            if t != slot {
                assert(after.lanes@[t] == self.lanes@[t]);
                if self.lanes@[t] is Some {
                    let values = self.lanes@[t]->Some_0.ring@;
                    assert(values =~= values.skip(0));
                }
            }
        }
    }
}

} // verus!
