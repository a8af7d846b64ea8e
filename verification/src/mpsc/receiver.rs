//! The receiving side: bounded round-robin bursts over the pending lanes.
use vstd::prelude::*;

use crate::count::{count, lemma_count_update, lemma_count_zero};
use crate::error::{RecvError, RecvTimeoutError, TryRecvError};
use crate::key::LaneKey;
use crate::ready::{extends, holds_from, rising_from, LaneSignal};
use crate::ring::Ring;
use crate::wait::{is_waiting, with_waiter, without_waiter, WaitCell, WaitRegistration};

use super::look::Look;
use super::{
    connected, occupied, waiting, Channel, Lane, Receiver, PARK_SPINS, PREFETCH_LIMIT,
    READY_POLL_INTERVAL,
};

verus! {

/// What one look at a lane gave.
pub enum LanePoll<T> {
    /// A value.
    Item { value: T, rotate: bool, released: bool },
    /// No value, but one was published meanwhile.
    Keep { released: bool },
    /// No value.
    Idle { disconnected: bool, released: bool },
    /// The lane is not there any more.
    Stale,
}

/// A lane that was found empty, before a waiting sender is told.
pub open spec fn quiet<T>(lane: Lane<T>) -> Lane<T> {
    Lane {
        ring: Ring { consumed: 0, ..lane.ring },
        signal: LaneSignal { pending: false, ..lane.signal },
        cached_available: 0,
        unreleased: 0,
        burst: 0,
        ..lane
    }
}

/// A lane that was found empty: it is idle, its slots are given back, and a
/// sender that waits for them is told.
pub open spec fn rested<T>(lane: Lane<T>) -> Lane<T> {
    if lane.unreleased > 0 {
        told(quiet(lane))
    } else {
        quiet(lane)
    }
}

/// A lane whose waiting sender was told that slots are free.
pub open spec fn told<T>(lane: Lane<T>) -> Lane<T> {
    Lane {
        signal: LaneSignal {
            space_waiter: lane.signal.space_waiter.after_notify(),
            ..lane.signal
        },
        ..lane
    }
}

/// Whether the next value taken from the lane completes a release batch.
pub open spec fn releases<T>(lane: Lane<T>) -> bool {
    lane.unreleased + 1 == lane.release_batch
}

/// Whether the next value taken from the lane completes its burst.
pub open spec fn rotates<T>(lane: Lane<T>) -> bool {
    lane.burst + 1 == PREFETCH_LIMIT
}

/// What taking the oldest value does to a lane.
pub open spec fn taken<T>(before: Lane<T>, after: Lane<T>) -> bool {
    &&& after.key == before.key
    &&& after.release_batch == before.release_batch
    &&& after.ring.same_ends(&before.ring)
    &&& after.ring@ == before.ring@.drop_first()
    &&& after.unreleased == if releases(before) {
        0
    } else {
        before.unreleased + 1
    }
    &&& after.burst == if rotates(before) {
        0
    } else {
        before.burst + 1
    }
}

impl<T> Lane<T> {
    /// Take a value or find the lane empty.
    fn poll(&mut self) -> (poll: LanePoll<T>)
        requires
            exists|slot: int, capacity: nat| old(self).wf(slot, capacity),
            !old(self).ring.consumer_closed,
            old(self).signal.pending,
        ensures
            match poll {
                LanePoll::Item { value, rotate, released } => {
                    &&& old(self).ring@.len() > 0
                    &&& value == old(self).ring@[0]
                    &&& taken(*old(self), *final(self))
                    &&& final(self).signal == old(self).signal
                    &&& forall|slot: int, capacity: nat| #[trigger]
                        old(self).wf(slot, capacity) ==> final(self).wf(slot, capacity)
                    &&& rotate == rotates(*old(self))
                    &&& released == releases(*old(self))
                },
                LanePoll::Keep { .. } => false,
                LanePoll::Idle { disconnected, released } => {
                    &&& old(self).ring@.len() == 0
                    &&& *final(self) == quiet(*old(self))
                    &&& forall|slot: int, capacity: nat| #[trigger]
                        old(self).wf(slot, capacity) ==> final(self).wf(slot, capacity)
                    &&& disconnected == old(self).ring.producer_closed
                    &&& released == (old(self).unreleased > 0)
                },
                LanePoll::Stale => false,
            },
    {
        let ghost before = *self;
        if self.cached_available == 0 {
            self.cached_available = self.ring.prefetch();
            if self.cached_available == 0 {
                let released: bool = self.release_pending();
                self.signal.finish_drain();
                self.cached_available = self.ring.prefetch();
                self.burst = 0;
                assert(self.ring@ =~= before.ring@);
                return if self.cached_available != 0 && self.signal.claim_after_empty() {
                    LanePoll::Keep { released }
                } else {
                    LanePoll::Idle { disconnected: self.ring.is_disconnected(), released }
                };
            }
        }
        assert(self.ring@ == before.ring@);
        let popped = self.ring.pop();
        let value = popped.unwrap();
        self.cached_available = self.cached_available - 1;
        self.unreleased = self.unreleased + 1;
        self.burst = self.burst + 1;
        let released: bool = self.unreleased == self.release_batch && self.release_pending();
        let rotate: bool = self.burst == PREFETCH_LIMIT;
        if rotate {
            self.burst = 0;
        }
        LanePoll::Item { value, rotate, released }
    }
}

/// What stands in a longer queue.
proof fn lemma_holds_extended(out: Seq<usize>, before: Seq<usize>, base: int)
    requires
        extends(out, before),
        0 <= base <= before.len(),
    ensures
        forall|slot: int| #[trigger]
            holds_from(out, base, slot) <==> holds_from(before, base, slot) || holds_from(
                out,
                before.len() as int,
                slot,
            ),
{
    assert forall|slot: int| #[trigger] holds_from(out, base, slot) <==> holds_from(
        before,
        base,
        slot,
    ) || holds_from(out, before.len() as int, slot) by {
        if holds_from(out, base, slot) {
            let i = choose|i: int| base <= i < out.len() && out[i] == slot;
            if i < before.len() {
                assert(before[i] == slot);
            }
        }
        if holds_from(before, base, slot) {
            let i = choose|i: int| base <= i < before.len() && before[i] == slot;
            assert(out[i] == slot);
        }
        if holds_from(out, before.len() as int, slot) {
            let i = choose|i: int| before.len() <= i < out.len() && out[i] == slot;
            assert(out[i] == slot);
        }
    }
}

/// How many steps lead from group `from` to group `to`, going round after `n`.
pub open spec fn steps_to(from: int, to: int, n: int) -> int {
    if to >= from {
        to - from
    } else {
        to + n - from
    }
}

impl<T> Channel<T> {
    /// Whether `g` is the first group with a ready lane, counted from the
    /// cursor.
    pub open spec fn head_group(&self, g: int) -> bool {
        let n = self.ready.groups@.len() as int;
        &&& 0 <= g < n
        &&& exists|slot: int| self.ready@.contains(slot) && slot / 4096 == g
        &&& forall|slot: int| #[trigger]
            self.ready@.contains(slot) ==> steps_to(self.ready_group_cursor as int, g, n)
                <= steps_to(self.ready_group_cursor as int, slot / 4096, n)
    }

    /// Everything but what the receiver serves and where it looks next.
    pub open spec fn same_lanes(&self, other: &Channel<T>) -> bool {
        &&& self.lanes == other.lanes
        &&& self.free == other.free
        &&& self.registered_lanes == other.registered_lanes
        &&& self.live_senders == other.live_senders
        &&& self.receiver_alive == other.receiver_alive
        &&& self.data_waiter == other.data_waiter
        &&& self.capacity == other.capacity
        &&& self.coordinated == other.coordinated
    }

    /// What a look at the ready index does: the lanes of the head group are
    /// appended to the served ones in rising order, and after them, if `all`
    /// is set, lanes of other groups.
    pub open spec fn collected(&self, before: &Channel<T>, all: bool) -> bool {
        let base = before.active@.len() as int;
        &&& self.same_lanes(before)
        &&& self.items_until_ready_poll == before.items_until_ready_poll
        &&& self.ready.groups@.len() == before.ready.groups@.len()
        &&& if all {
            self.look().reached(
                before.look(),
                before.ready.groups@.len(),
                before.ready.groups@.len() as int,
            )
        } else {
            self.look().took_one(before.look(), before.ready.groups@.len() as int)
        }
        &&& extends(self.active@, before.active@)
        &&& forall|slot: int| #[trigger]
            before.ready@.contains(slot) <==> self.ready@.contains(slot) || holds_from(
                self.active@,
                base,
                slot,
            )
        &&& before.ready@ == Set::<int>::empty() ==> self.active@ == before.active@
        &&& before.ready@ != Set::<int>::empty() ==> self.active@.len() > base
        &&& forall|g: int| #[trigger]
            before.head_group(g) ==> {
                &&& forall|slot: int| #[trigger]
                    before.ready@.contains(slot) && slot / 4096 == g ==> holds_from(
                        self.active@,
                        base,
                        slot,
                    )
                &&& forall|i: int, j: int|
                    base <= i < j < self.active@.len() && self.active@[j] as int / 4096 == g
                        ==> self.active@[i] < self.active@[j] && self.active@[i] as int / 4096 == g
                &&& !all ==> forall|i: int|
                    base <= i < self.active@.len() ==> self.active@[i] as int / 4096 == g
            }
    }

    /// A look at the ready index leaves no lane of the head group there.
    proof fn lemma_collected_looked(&self, after: &Channel<T>, all: bool)
        requires
            after.collected(self, all),
            after.found(None),
        ensures
            after.looked(self),
    {
        let base = self.active@.len() as int;
        assert forall|t: int| #[trigger] after.ready@.contains(t) implies self.ready@.contains(
            t,
        ) by {}
        assert forall|g: int, t: int|
            #![trigger self.head_group(g), after.ready@.contains(t)]
            self.head_group(g) && after.ready@.contains(t) implies t / 4096 != g by {
            if t / 4096 == g {
                assert(self.ready@.contains(t));
                assert(holds_from(after.active@, base, t));
                let i = choose|i: int| base <= i < after.active@.len() && after.active@[i] == t;
                assert(after.active@[i] == t);
                assert(after.in_active(t));
            }
        }
    }

    /// Take ready lanes up into the served ones: those of one group, or with
    /// `all` of every group that the scan meets.
    fn collect_ready(&mut self, all: bool)
        requires
            old(self).inv(None),
            old(self).receiver_alive,
        ensures
            final(self).inv(None),
            final(self).collected(old(self), all),
    {
        let ghost before = *self;
        let ghost base = self.active@.len() as int;
        let ghost n = self.ready.groups@.len() as int;
        let group_count: usize = self.ready.group_count();
        let mut offset: usize = 0;
        let ghost mut hit: bool = false;
        while offset < group_count
            invariant
                self.inv(None),
                self.receiver_alive,
                before == *old(self),
                before.inv(None),
                self.same_lanes(&before),
                self.items_until_ready_poll == before.items_until_ready_poll,
                base == before.active@.len(),
                n == before.ready.groups@.len(),
                n == group_count,
                n == self.ready.groups@.len(),
                offset <= group_count,
                extends(self.active@, before.active@),
                forall|slot: int| #[trigger]
                    before.ready@.contains(slot) <==> self.ready@.contains(slot) || holds_from(
                        self.active@,
                        base,
                        slot,
                    ),
                self.look().reached(before.look(), offset as nat, n),
                !hit ==> {
                    &&& forall|j: int|
                        0 <= j < offset ==> !#[trigger] before.look().marks(
                            before.look().group_at(j, n),
                        )
                    &&& self.active@ == before.active@
                    &&& self.ready@ == before.ready@
                    &&& self.ready_group_cursor == before.ready_group_cursor
                    &&& forall|slot: int| #[trigger]
                        before.ready@.contains(slot) ==> steps_to(
                            before.ready_group_cursor as int,
                            slot / 4096,
                            n,
                        ) >= offset
                },
                hit ==> {
                    &&& all
                    &&& self.active@.len() > base
                    &&& forall|g: int| #[trigger]
                        before.head_group(g) ==> {
                            &&& forall|slot: int| #[trigger]
                                self.ready@.contains(slot) ==> slot / 4096 != g
                            &&& forall|i: int, j: int|
                                base <= i < j < self.active@.len() && self.active@[j] as int / 4096
                                    == g ==> self.active@[i] < self.active@[j]
                                    && self.active@[i] as int / 4096 == g
                        }
                },
            decreases group_count - offset,
        {
            let ahead: usize = self.ready_group_cursor + offset;
            let group_index: usize = if ahead < group_count {
                ahead
            } else {
                ahead - group_count
            };
            let ghost now = *self;
            let ghost was_hit = hit;
            let taken: bool = self.ready.take_group(group_index, &mut self.active);
            let ghost mid = *self;
            proof {
                now.lemma_collect(self, group_index as int);
                lemma_holds_extended(self.active@, now.active@, base);
                assert forall|slot: int| #[trigger]
                    before.ready@.contains(slot) <==> self.ready@.contains(slot) || holds_from(
                        self.active@,
                        base,
                        slot,
                    ) by {
                    assert(before.ready@.contains(slot) <==> now.ready@.contains(slot)
                        || holds_from(now.active@, base, slot));
                }
            }
            if taken {
                self.ready_group_cursor = if group_index + 1 == group_count {
                    0
                } else {
                    group_index + 1
                };
                proof {
                    mid.lemma_frame(self, None);
                    hit = true;
                    let fresh = now.active@.len() as int;
                    assert forall|i: int| fresh <= i < self.active@.len() implies now.ready@.contains(
                        #[trigger] self.active@[i] as int,
                    ) && self.active@[i] as int / 4096 == group_index by {
                        assert(holds_from(self.active@, fresh, self.active@[i] as int));
                    }
                    assert forall|g: int| #[trigger] before.head_group(g) implies ({
                        &&& forall|slot: int| #[trigger]
                            self.ready@.contains(slot) ==> slot / 4096 != g
                        &&& forall|i: int, j: int|
                            base <= i < j < self.active@.len() && self.active@[j] as int / 4096 == g
                                ==> self.active@[i] < self.active@[j] && self.active@[i] as int
                                / 4096 == g
                        &&& !was_hit ==> g == group_index
                    }) by {
                        if !was_hit {
                            let slot = self.active@[fresh] as int;
                            assert(before.ready@.contains(slot));
                            let lead = choose|slot: int|
                                before.ready@.contains(slot) && slot / 4096 == g;
                            assert(before.ready@.contains(lead));
                        } else {
                            assert(g != group_index) by {
                                assert(now.ready@.contains(self.active@[fresh] as int));
                            }
                        }
                    }
                    assert(now.look().ready.contains(self.active@[fresh] as int));
                    assert(now.look().marks(group_index as int));
                    assert(self.look().took(now.look(), group_index as int, n));
                    assert(self.look().stepped(now.look(), offset as int, n));
                    self.look().lemma_reached(now.look(), before.look(), offset as nat, n);
                }
                if !all {
                    proof {
                        let slot = self.active@[base] as int;
                        assert(holds_from(self.active@, base, slot));
                        assert(before.ready@.contains(slot));
                        assert(now.look() == before.look());
                        assert(before.look().marks(before.look().group_at(offset as int, n)));
                    }
                    return;
                }
            } else {
                proof {
                    assert(self.look() == now.look());
                    assert forall|slot: int| #[trigger] now.look().ready.contains(slot) implies slot
                        / 4096 != group_index by {
                        if slot / 4096 == group_index {
                            assert(holds_from(self.active@, now.active@.len() as int, slot));
                        }
                    }
                    assert(!now.look().marks(group_index as int));
                    assert(self.look().stepped(now.look(), offset as int, n));
                    self.look().lemma_reached(now.look(), before.look(), offset as nat, n);
                    if !hit {
                        assert(now.look() == before.look());
                        assert(group_index == before.look().group_at(offset as int, n));
                    }
                }
            }
            proof {
                if !hit {
                    assert forall|slot: int| #[trigger] before.ready@.contains(slot) implies steps_to(
                        before.ready_group_cursor as int,
                        slot / 4096,
                        n,
                    ) >= offset + 1 by {
                        if slot / 4096 == group_index {
                            assert(holds_from(self.active@, now.active@.len() as int, slot));
                        }
                    }
                }
            }
            offset = offset + 1;
        }
        proof {
            assert(self.active@ =~= before.active@ || hit);
            if !hit {
                assert forall|slot: int| !before.ready@.contains(slot) by {
                    if before.ready@.contains(slot) {
                        assert(before.pending(slot));
                    }
                }
                assert(before.ready@ =~= Set::<int>::empty());
                assert(self.look() == before.look());
            } else {
                let slot = self.active@[base] as int;
                assert(holds_from(self.active@, base, slot));
                assert(before.ready@.contains(slot));
            }
        }
    }

    /// The invariant does not depend on where the receiver looks next.
    proof fn lemma_frame(&self, after: &Channel<T>, hand: Option<int>)
        requires
            self.inv(hand),
            after.same_lanes(self),
            after.ready == self.ready,
            after.active == self.active,
            after.ready_group_cursor < after.ready.groups@.len(),
            after.items_until_ready_poll <= READY_POLL_INTERVAL,
        ensures
            after.inv(hand),
    {
        if self.receiver_alive {
            assert forall|slot: int| #[trigger] after.pending(slot) == self.pending(slot) by {}
            assert forall|slot: int| #[trigger] after.in_active(slot) == self.in_active(slot) by {}
            assert forall|slot: int| #[trigger] after.ready@.contains(slot) implies after.pending(
                slot,
            ) && !after.in_active(slot) && hand != Some(slot) by {
                assert(self.ready@.contains(slot));
            }
            assert forall|i: int| 0 <= i < after.active@.len() implies after.pending(
                #[trigger] after.active@[i] as int,
            ) && hand != Some(after.active@[i] as int) by {
                assert(self.pending(self.active@[i] as int));
            }
            assert forall|slot: int| #[trigger] after.pending(slot) implies after.ready@.contains(
                slot,
            ) || after.in_active(slot) || hand == Some(slot) by {
                assert(self.pending(slot));
            }
        }
    }

    /// Moving the lanes of one group into the served ones keeps the invariant.
    proof fn lemma_collect(&self, after: &Channel<T>, g: int)
        requires
            self.inv(None),
            self.receiver_alive,
            after.same_lanes(self),
            after.items_until_ready_poll == self.items_until_ready_poll,
            after.ready_group_cursor == self.ready_group_cursor,
            after.ready.wf(),
            after.ready.same_size(&self.ready),
            forall|slot: int| #[trigger]
                after.ready@.contains(slot) <==> self.ready@.contains(slot) && slot / 4096 != g,
            extends(after.active@, self.active@),
            rising_from(after.active@, self.active@.len() as int),
            forall|slot: int| #[trigger]
                holds_from(after.active@, self.active@.len() as int, slot) <==> self.ready@.contains(
                    slot,
                ) && slot / 4096 == g,
        ensures
            after.inv(None),
    {
        let base = self.active@.len() as int;
        assert forall|slot: int| #[trigger] after.in_active(slot) <==> self.in_active(slot)
            || holds_from(after.active@, base, slot) by {
            if after.in_active(slot) {
                let i = choose|i: int| 0 <= i < after.active@.len() && after.active@[i] == slot;
                if i < base {
                    assert(self.active@[i] == slot);
                }
            }
            if self.in_active(slot) {
                let i = choose|i: int| 0 <= i < self.active@.len() && self.active@[i] == slot;
                assert(after.active@[i] == slot);
            }
            if holds_from(after.active@, base, slot) {
                let i = choose|i: int| base <= i < after.active@.len() && after.active@[i] == slot;
                assert(after.active@[i] == slot);
            }
        }
        assert forall|slot: int| #[trigger] after.pending(slot) == self.pending(slot) by {}
        assert forall|i: int| base <= i < after.active@.len() implies self.ready@.contains(
            #[trigger] after.active@[i] as int,
        ) by {
            assert(holds_from(after.active@, base, after.active@[i] as int));
        }
        assert forall|i: int, j: int| 0 <= i < j < after.active@.len() implies after.active@[i]
            != after.active@[j] by {
            if i < base && j >= base {
                assert(self.ready@.contains(after.active@[j] as int));
                assert(!self.in_active(after.active@[j] as int));
                assert(self.active@[i] == after.active@[i]);
            }
        }
        assert forall|i: int| 0 <= i < after.active@.len() implies after.pending(
            #[trigger] after.active@[i] as int,
        ) by {
            if i < base {
                assert(self.pending(self.active@[i] as int));
            } else {
                assert(self.ready@.contains(after.active@[i] as int));
            }
        }
        assert forall|slot: int| #[trigger] after.ready@.contains(slot) implies after.pending(slot)
            && !after.in_active(slot) by {
            assert(self.ready@.contains(slot));
        }
        assert forall|slot: int| #[trigger] after.pending(slot) implies after.ready@.contains(slot)
            || after.in_active(slot) by {
            assert(self.pending(slot));
        }
    }
}

/// What receiving may do to a lane that it does not serve: nothing, or, if it
/// was pending and empty, make it idle or retire it.
pub open spec fn settled<T>(before: Option<Lane<T>>, after: Option<Lane<T>>) -> bool {
    ||| after == before
    ||| before matches Some(lane) && lane.signal.pending && lane.ring@.len() == 0 && after == (
    if lane.ring.producer_closed {
        None
    } else {
        Some(rested(lane))
    })
}

/// What receiving does to the lane that it serves.
pub open spec fn served<T>(before: Lane<T>, after: Lane<T>) -> bool {
    &&& before.ring@.len() > 0
    &&& taken(before, after)
    &&& after.signal == if releases(before) {
        told(before).signal
    } else {
        before.signal
    }
}

impl<T> Channel<T> {
    /// Whether a served lane holds a value.
    pub open spec fn active_has_data(&self) -> bool {
        exists|i: int| 0 <= i < self.active@.len() && self.has_data(#[trigger] self.active@[i] as int)
    }

    /// Whether the lane in `slot` is the one to take the next value from: the
    /// first served lane that holds one. When no served lane does, the lanes of
    /// the head group come first, in rising order.
    pub open spec fn first(&self, slot: int) -> bool {
        &&& self.has_data(slot)
        &&& self.active_has_data() ==> exists|i: int|
            #![trigger self.active@[i]]
            0 <= i < self.active@.len() && self.active@[i] == slot && forall|j: int|
                0 <= j < i ==> !self.has_data(#[trigger] self.active@[j] as int)
        &&& !self.active_has_data() ==> forall|g: int, t: int|
            #![trigger self.head_group(g), self.ready@.contains(t)]
            self.head_group(g) && self.ready@.contains(t) && t / 4096 == g && self.has_data(t)
                ==> slot / 4096 == g && slot <= t
    }

    /// What receiving does to the lanes, with the lane in `slot`, if any,
    /// served.
    pub open spec fn moved(&self, before: &Channel<T>, slot: Option<int>) -> bool {
        &&& self.lanes@.len() == before.lanes@.len()
        &&& self.live_senders == before.live_senders
        &&& self.receiver_alive == before.receiver_alive
        &&& self.same_channel(before)
        &&& forall|t: int|
            0 <= t < before.lanes@.len() && slot != Some(t) ==> settled(
                before.lanes@[t],
                #[trigger] self.lanes@[t],
            )
        &&& before.free@.len() <= self.free@.len()
        &&& forall|i: int|
            0 <= i < before.free@.len() ==> #[trigger] self.free@[i] == before.free@[i]
        &&& forall|i: int|
            before.free@.len() <= i < self.free@.len() ==> {
                let slot = (#[trigger] self.free@[i]).slot as int;
                before.present(slot) && self.free@[i] == before.lane(slot).key.next()
            }
    }

    /// The served lanes are the earlier ones from position `k` on, with others
    /// behind them. None of the first `k` held a value.
    pub open spec fn trails(&self, before: &Channel<T>, k: int) -> bool {
        &&& 0 <= k <= before.active@.len()
        &&& extends(self.active@, before.active@.skip(k))
        &&& forall|i: int|
            0 <= i < k ==> !before.has_data(#[trigger] before.active@[i] as int)
    }

    /// Values left until the ready index is polled, after a due poll.
    pub open spec fn poll_credit(&self) -> int {
        if self.items_until_ready_poll == 0 {
            READY_POLL_INTERVAL as int
        } else {
            self.items_until_ready_poll as int
        }
    }

    /// Whether a receive takes ready lanes up: when none is served, and once in
    /// every poll interval.
    pub open spec fn look_due(&self) -> bool {
        self.active@.len() == 0 || self.items_until_ready_poll == 0
    }

    /// Lanes leave the ready index only when the receiver takes them up, and
    /// when a look is due, no lane of the head group is left there.
    pub open spec fn looked(&self, before: &Channel<T>) -> bool {
        &&& forall|t: int| #[trigger] self.ready@.contains(t) ==> before.ready@.contains(t)
        &&& before.look_due() ==> forall|g: int, t: int|
            #![trigger before.head_group(g), self.ready@.contains(t)]
            before.head_group(g) && self.ready@.contains(t) ==> t / 4096 != g
    }

    /// What receiving `value` from the lane in `slot` does.
    pub open spec fn received(&self, before: &Channel<T>, slot: int, value: T) -> bool {
        &&& before.first(slot)
        &&& value == before.unread(slot)[0]
        &&& self.moved(before, Some(slot))
        &&& self.present(slot)
        &&& served(before.lane(slot), self.lane(slot))
        &&& self.items_until_ready_poll == before.poll_credit() - 1
        &&& exists|turns: nat, from: Look, at: Look| #[trigger]
            self.came_to(before, slot, turns, from, at)
        &&& self.looked(before)
        &&& self.active@.len() > 0
        &&& if rotates(before.lane(slot)) {
            &&& self.active@.last() == slot
            &&& forall|i: int|
                #![trigger before.active@[i]]
                0 <= i < before.active@.len() && before.active@[i] == slot ==> extends(
                    self.active@,
                    before.active@.skip(i + 1),
                )
        } else {
            &&& self.active@[0] == slot
            &&& forall|i: int|
                #![trigger before.active@[i]]
                0 <= i < before.active@.len() && before.active@[i] == slot ==> extends(
                    self.active@,
                    before.active@.skip(i),
                )
        }
    }

    /// What a receive that finds no value does: every lane comes to rest.
    pub open spec fn exhausted(&self, before: &Channel<T>) -> bool {
        &&& before.is_empty()
        &&& self.moved(before, None)
        &&& exists|turns: nat, from: Look| #[trigger] self.came_to_rest(before, turns, from)
        &&& forall|slot: int| !#[trigger] self.pending(slot)
        &&& self.items_until_ready_poll == before.poll_credit()
        &&& self.active@.len() == 0
        &&& self.ready@ == Set::<int>::empty()
    }

    /// What a receive that does not block returns and does.
    pub open spec fn answers(&self, before: &Channel<T>, result: Result<T, TryRecvError>) -> bool {
        &&& self.data_waiter == before.data_waiter
        &&& match result {
            Ok(value) => exists|slot: int| #[trigger] self.received(before, slot, value),
            Err(TryRecvError::Empty) => self.exhausted(before) && before.live_senders > 0,
            Err(TryRecvError::Disconnected) => self.exhausted(before) && before.live_senders == 0,
        }
    }

    /// Whether all senders are gone and every lane is retired.
    fn is_drained(&self) -> (drained: bool)
        ensures
            drained == (self.live_senders == 0 && self.registered_lanes == 0),
    {
        self.live_senders == 0 && self.registered_lanes == 0
    }

    /// Take the lane in `slot` out of the table and free the slot.
    fn retire_lane(&mut self, slot: usize)
        requires
            old(self).present(slot as int),
            old(self).registered_lanes > 0,
        ensures
            final(self).lanes@ == old(self).lanes@.update(slot as int, None),
            final(self).registered_lanes == old(self).registered_lanes - 1,
            final(self).free@ == old(self).free@.push(old(self).lane(slot as int).key.next()),
            final(self).live_senders == old(self).live_senders,
            final(self).receiver_alive == old(self).receiver_alive,
            final(self).data_waiter == old(self).data_waiter,
            final(self).same_channel(old(self)),
            final(self).ready == old(self).ready,
            final(self).active == old(self).active,
            final(self).ready_group_cursor == old(self).ready_group_cursor,
            final(self).items_until_ready_poll == old(self).items_until_ready_poll,
    {
        if let Some(lane) = self.lanes[slot].take() {
            self.registered_lanes = self.registered_lanes - 1;
            let generation: usize = lane.key.generation.wrapping_add(1);
            self.free.push(LaneKey { slot: lane.key.slot, generation });
        }
    }

    /// Whether the lane with `key` is there.
    pub open spec fn holds(&self, key: LaneKey) -> bool {
        self.present(key.slot as int) && self.lane(key.slot as int).key == key
    }

    /// Take a value from the lane with `key` or find it empty, and tell its
    /// sender when slots were given back.
    pub fn poll_lane(&mut self, key: LaneKey) -> (poll: LanePoll<T>)
        requires
            old(self).holds(key) ==> {
                &&& old(self).pending(key.slot as int)
                &&& old(self).lane(key.slot as int).wf(
                    key.slot as int,
                    old(self).capacity as nat,
                )
                &&& !old(self).lane(key.slot as int).ring.consumer_closed
            },
        ensures
            poll is Stale <==> !old(self).holds(key),
            poll is Stale ==> *final(self) == *old(self),
            old(self).holds(key) ==> {
                let slot = key.slot as int;
                let lane = old(self).lane(slot);
                &&& final(self).present(slot)
                &&& final(self).lane(slot).wf(slot, old(self).capacity as nat)
                &&& match poll {
                    LanePoll::Item { value, rotate, released } => {
                        &&& value == old(self).unread(slot)[0]
                        &&& served(lane, final(self).lane(slot))
                        &&& rotate == rotates(lane)
                        &&& released == releases(lane)
                    },
                    LanePoll::Keep { .. } => false,
                    LanePoll::Idle { disconnected, released } => {
                        &&& old(self).unread(slot).len() == 0
                        &&& disconnected == lane.ring.producer_closed
                        &&& released == (lane.unreleased > 0)
                        &&& final(self).lane(slot) == if disconnected {
                            quiet(lane)
                        } else {
                            rested(lane)
                        }
                    },
                    LanePoll::Stale => false,
                }
            },
            final(self).lanes@.len() == old(self).lanes@.len(),
            forall|t: int|
                0 <= t < old(self).lanes@.len() && t != key.slot ==> #[trigger] final(
                    self).lanes@[t] == old(self).lanes@[t],
            final(self).free == old(self).free,
            final(self).registered_lanes == old(self).registered_lanes,
            final(self).live_senders == old(self).live_senders,
            final(self).receiver_alive == old(self).receiver_alive,
            final(self).data_waiter == old(self).data_waiter,
            final(self).same_channel(old(self)),
            final(self).ready == old(self).ready,
            final(self).active == old(self).active,
            final(self).ready_group_cursor == old(self).ready_group_cursor,
            final(self).items_until_ready_poll == old(self).items_until_ready_poll,
    {
        let slot: usize = key.slot;
        if slot >= self.lanes.len() {
            return LanePoll::Stale;
        }
        let there: bool = match &self.lanes[slot] {
            Some(lane) => lane.key.slot == key.slot && lane.key.generation == key.generation,
            None => false,
        };
        if !there {
            return LanePoll::Stale;
        }
        let lane = self.lanes[slot].as_mut().unwrap();
        let poll = lane.poll();
        let told: bool = match &poll {
            LanePoll::Item { value, rotate, released } => *released,
            LanePoll::Keep { released } => *released,
            LanePoll::Idle { disconnected, released } => *released && !*disconnected,
            LanePoll::Stale => false,
        };
        if told {
            let _ = lane.signal.space_waiter.notify();
        }
        poll
    }
}

impl<T> Channel<T> {
    /// A look at the ready index does not change which lane comes first.
    proof fn lemma_first_collected(&self, after: &Channel<T>, all: bool)
        requires
            self.inv(None),
            self.receiver_alive,
            after.collected(self, all),
            all ==> self.active@.len() == 0,
        ensures
            forall|slot: int| #[trigger] after.first(slot) ==> self.first(slot),
            forall|slot: int| #[trigger] after.has_data(slot) == self.has_data(slot),
    {
        let base = self.active@.len() as int;
        assert forall|slot: int| #[trigger] after.has_data(slot) == self.has_data(slot) by {}
        assert forall|slot: int| #[trigger] after.first(slot) implies self.first(slot) by {
            if self.active_has_data() {
                let j = choose|j: int|
                    0 <= j < self.active@.len() && self.has_data(
                        #[trigger] self.active@[j] as int,
                    );
                assert(after.active@[j] == self.active@[j]);
                assert(after.has_data(after.active@[j] as int));
                assert(after.active_has_data());
                let i = choose|i: int|
                    #![trigger after.active@[i]]
                    0 <= i < after.active@.len() && after.active@[i] == slot && forall|j: int|
                        0 <= j < i ==> !after.has_data(#[trigger] after.active@[j] as int);
                assert(i <= j);
                assert(self.active@[i] == slot);
                assert forall|m: int| 0 <= m < i implies !self.has_data(
                    #[trigger] self.active@[m] as int,
                ) by {
                    assert(!after.has_data(after.active@[m] as int));
                }
            } else {
                assert forall|g: int, t: int|
                    #![trigger self.head_group(g), self.ready@.contains(t)]
                    self.head_group(g) && self.ready@.contains(t) && t / 4096 == g && self.has_data(
                        t,
                    ) implies slot / 4096 == g && slot <= t by {
                    assert(holds_from(after.active@, base, t));
                    let j = choose|j: int|
                        base <= j < after.active@.len() && after.active@[j] == t;
                    assert(after.has_data(after.active@[j] as int));
                    assert(after.active_has_data());
                    let i = choose|i: int|
                        #![trigger after.active@[i]]
                        0 <= i < after.active@.len() && after.active@[i] == slot && forall|j: int|
                            0 <= j < i ==> !after.has_data(#[trigger] after.active@[j] as int);
                    assert(i <= j);
                    if i < base {
                        assert(self.active@[i] == after.active@[i]);
                        assert(self.has_data(self.active@[i] as int));
                    }
                }
            }
        }
    }

    /// Which lane comes first does not depend on when the ready index is polled.
    proof fn lemma_first_frame(&self, after: &Channel<T>)
        requires
            after.same_lanes(self),
            after.ready == self.ready,
            after.active == self.active,
            after.ready_group_cursor == self.ready_group_cursor,
        ensures
            forall|slot: int| #[trigger] after.first(slot) ==> self.first(slot),
    {
        assert forall|slot: int| #[trigger] after.has_data(slot) == self.has_data(slot) by {}
        assert forall|g: int| #[trigger] after.head_group(g) == self.head_group(g) by {}
        assert(after.active_has_data() == self.active_has_data());
        assert forall|slot: int| #[trigger] after.first(slot) implies self.first(slot) by {
            if self.active_has_data() {
                let i = choose|i: int|
                    #![trigger after.active@[i]]
                    0 <= i < after.active@.len() && after.active@[i] == slot && forall|j: int|
                        0 <= j < i ==> !after.has_data(#[trigger] after.active@[j] as int);
                assert(self.active@[i] == slot);
                assert forall|j: int| 0 <= j < i implies !self.has_data(
                    #[trigger] self.active@[j] as int,
                ) by {
                    assert(!after.has_data(after.active@[j] as int));
                }
            } else {
                assert forall|g: int, t: int|
                    #![trigger self.head_group(g), self.ready@.contains(t)]
                    self.head_group(g) && self.ready@.contains(t) && t / 4096 == g && self.has_data(
                        t,
                    ) implies slot / 4096 == g && slot <= t by {
                    assert(after.head_group(g) && after.ready@.contains(t));
                }
            }
        }
    }

    /// Putting the empty front lane to rest does not change which lane comes
    /// first.
    proof fn lemma_first_popped(&self, after: &Channel<T>, slot: int)
        requires
            self.active@.len() > 0,
            self.active@[0] == slot,
            !self.has_data(slot),
            after.active@ == self.active@.drop_first(),
            after.ready == self.ready,
            after.ready_group_cursor == self.ready_group_cursor,
            forall|t: int| #[trigger] after.has_data(t) == self.has_data(t),
        ensures
            forall|t: int| #[trigger] after.first(t) ==> self.first(t),
    {
        assert forall|g: int| #[trigger] after.head_group(g) == self.head_group(g) by {}
        assert forall|t: int| #[trigger] after.first(t) implies self.first(t) by {
            if self.active_has_data() {
                let j = choose|j: int|
                    0 <= j < self.active@.len() && self.has_data(
                        #[trigger] self.active@[j] as int,
                    );
                assert(after.active@[j - 1] == self.active@[j]);
                assert(after.has_data(after.active@[j - 1] as int));
                assert(after.active_has_data());
                let i = choose|i: int|
                    #![trigger after.active@[i]]
                    0 <= i < after.active@.len() && after.active@[i] == t && forall|j: int|
                        0 <= j < i ==> !after.has_data(#[trigger] after.active@[j] as int);
                assert(self.active@[i + 1] == t);
                assert forall|m: int| 0 <= m < i + 1 implies !self.has_data(
                    #[trigger] self.active@[m] as int,
                ) by {
                    if m > 0 {
                        assert(!after.has_data(after.active@[m - 1] as int));
                    }
                }
            } else {
                if after.active_has_data() {
                    let i = choose|i: int|
                        0 <= i < after.active@.len() && after.has_data(
                            #[trigger] after.active@[i] as int,
                        );
                    assert(self.active@[i + 1] == after.active@[i]);
                    assert(self.has_data(self.active@[i + 1] as int));
                }
                assert forall|g: int, u: int|
                    #![trigger self.head_group(g), self.ready@.contains(u)]
                    self.head_group(g) && self.ready@.contains(u) && u / 4096 == g && self.has_data(
                        u,
                    ) implies t / 4096 == g && t <= u by {
                    assert(after.head_group(g) && after.ready@.contains(u));
                }
            }
        }
    }

    /// Taking the front lane into the hand.
    proof fn lemma_hand(&self, after: &Channel<T>, slot: int)
        requires
            self.inv(None),
            self.receiver_alive,
            self.active@.len() > 0,
            self.active@[0] == slot,
            after.same_lanes(self),
            after.ready == self.ready,
            after.ready_group_cursor == self.ready_group_cursor,
            after.items_until_ready_poll == self.items_until_ready_poll,
            after.active@ == self.active@.drop_first(),
        ensures
            after.inv(Some(slot)),
            self.pending(slot),
    {
        assert(self.pending(self.active@[0] as int));
        assert(self.in_active(slot));
        assert forall|t: int| #[trigger] after.pending(t) == self.pending(t) by {}
        assert forall|t: int| #[trigger] self.in_active(t) <==> after.in_active(t) || t == slot by {
            if self.in_active(t) {
                let i = choose|i: int| 0 <= i < self.active@.len() && self.active@[i] == t;
                if i > 0 {
                    assert(after.active@[i - 1] == t);
                }
            }
            if after.in_active(t) {
                let i = choose|i: int| 0 <= i < after.active@.len() && after.active@[i] == t;
                assert(self.active@[i + 1] == t);
            }
        }
        assert forall|t: int| #[trigger] after.ready@.contains(t) implies after.pending(t)
            && !after.in_active(t) && t != slot by {
            assert(self.ready@.contains(t));
            assert(!self.in_active(t));
        }
        assert forall|i: int| 0 <= i < after.active@.len() implies after.pending(
            #[trigger] after.active@[i] as int,
        ) && after.active@[i] != slot by {
            assert(self.active@[i + 1] == after.active@[i]);
            assert(self.pending(self.active@[i + 1] as int));
        }
        assert forall|t: int| #[trigger] after.pending(t) implies after.ready@.contains(t)
            || after.in_active(t) || t == slot by {
            assert(self.pending(t));
            assert(self.in_active(t) <==> after.in_active(t) || t == slot);
        }
    }

    /// Putting the lane in the hand to rest.
    proof fn lemma_put_down(&self, after: &Channel<T>, slot: int)
        requires
            self.inv(Some(slot)),
            self.receiver_alive,
            after.receiver_alive,
            after.ready == self.ready,
            after.active == self.active,
            after.ready_group_cursor == self.ready_group_cursor,
            after.items_until_ready_poll == self.items_until_ready_poll,
            after.live_senders == self.live_senders,
            after.same_channel(self),
            after.lanes@.len() == self.lanes@.len(),
            forall|t: int|
                0 <= t < self.lanes@.len() && t != slot ==> #[trigger] after.lanes@[t]
                    == self.lanes@[t],
            if self.lane(slot).ring.producer_closed {
                &&& after.lanes@[slot] is None
                &&& after.registered_lanes == self.registered_lanes - 1
                &&& after.free@ == self.free@.push(self.lane(slot).key.next())
            } else {
                &&& after.lanes@[slot] == Some(rested(self.lane(slot)))
                &&& after.lane(slot).wf(slot, self.capacity as nat)
                &&& self.lane(slot).ring@.len() == 0
                &&& after.registered_lanes == self.registered_lanes
                &&& after.free == self.free
            },
        ensures
            after.inv(None),
            count(waiting(after.lanes@)) < count(waiting(self.lanes@)),
    {
        assert(self.pending(slot));
        let closed = self.lane(slot).ring.producer_closed;
        lemma_count_update(connected(self.lanes@), slot, !closed);
        lemma_count_update(occupied(self.lanes@), slot, !closed);
        lemma_count_update(waiting(self.lanes@), slot, false);
        assert(connected(after.lanes@) =~= connected(self.lanes@).update(slot, !closed));
        assert(occupied(after.lanes@) =~= occupied(self.lanes@).update(slot, !closed));
        assert(waiting(after.lanes@) =~= waiting(self.lanes@).update(slot, false));
        assert forall|t: int| #[trigger] after.pending(t) <==> self.pending(t) && t != slot by {
            if 0 <= t < self.lanes@.len() && t != slot {
                assert(after.lanes@[t] == self.lanes@[t]);
            }
        }
        assert forall|t: int| #[trigger] after.in_active(t) == self.in_active(t) by {}
        assert forall|t: int| #[trigger] after.ready@.contains(t) implies after.pending(t)
            && !after.in_active(t) by {
            assert(self.ready@.contains(t));
        }
        assert forall|i: int| 0 <= i < after.active@.len() implies after.pending(
            #[trigger] after.active@[i] as int,
        ) by {
            assert(self.pending(self.active@[i] as int));
        }
        assert forall|t: int| #[trigger] after.pending(t) implies after.ready@.contains(t)
            || after.in_active(t) by {
            assert(self.pending(t));
        }
        assert forall|t: int|
            0 <= t < after.lanes@.len() && (#[trigger] after.lanes@[t]) is Some implies {
            &&& after.lanes@[t]->Some_0.wf(t, after.capacity as nat)
            &&& after.lanes@[t]->Some_0.ring.consumer_closed == !after.receiver_alive
            &&& after.lanes@[t]->Some_0.ring.coordinated == after.coordinated
            &&& (after.lanes@[t]->Some_0.ring@.len() > 0
                || after.lanes@[t]->Some_0.ring.producer_closed)
                ==> after.lanes@[t]->Some_0.signal.pending
        } by {
            if t != slot {
                assert(after.lanes@[t] == self.lanes@[t]);
            } else {
                assert(self.lanes@[t] is Some);
                assert(after.lanes@[t]->Some_0.ring@ =~= self.lanes@[t]->Some_0.ring@);
            }
        }
        assert(after.free_ok()) by {
            assert forall|i: int| 0 <= i < after.free@.len() implies (
            #[trigger] after.free@[i]).slot < after.lanes@.len()
                && after.lanes@[after.free@[i].slot as int] is None by {
                if i < self.free@.len() {
                    assert(after.free@[i] == self.free@[i]);
                    let t = self.free@[i].slot as int;
                    assert(self.lanes@[t] is None);
                }
            }
            assert forall|i: int, j: int| 0 <= i < j < after.free@.len() implies (
            #[trigger] after.free@[i]).slot != (#[trigger] after.free@[j]).slot by {
                assert(after.free@[i] == self.free@[i]);
                if j < self.free@.len() {
                    assert(after.free@[j] == self.free@[j]);
                } else {
                    assert(self.lanes@[self.free@[i].slot as int] is None);
                }
            }
        }
    }
}

impl<T> Channel<T> {
    /// Putting the lane in the hand back after it was served.
    proof fn lemma_put_back(&self, after: &Channel<T>, slot: int)
        requires
            self.inv(Some(slot)),
            self.receiver_alive,
            after.receiver_alive,
            after.ready == self.ready,
            after.active@ == seq![slot as usize] + self.active@ || after.active@
                == self.active@.push(slot as usize),
            after.ready_group_cursor == self.ready_group_cursor,
            after.items_until_ready_poll <= READY_POLL_INTERVAL,
            after.live_senders == self.live_senders,
            after.same_channel(self),
            after.registered_lanes == self.registered_lanes,
            after.free == self.free,
            after.lanes@.len() == self.lanes@.len(),
            forall|t: int|
                0 <= t < self.lanes@.len() && t != slot ==> #[trigger] after.lanes@[t]
                    == self.lanes@[t],
            after.present(slot),
            after.lane(slot).wf(slot, self.capacity as nat),
            served(self.lane(slot), after.lane(slot)),
        ensures
            after.inv(None),
    {
        assert(self.pending(slot));
        assert(self.lanes@[slot] is Some);
        assert(connected(after.lanes@) =~= connected(self.lanes@));
        assert(occupied(after.lanes@) =~= occupied(self.lanes@));
        let shift: int = if after.active@ == seq![slot as usize] + self.active@ {
            1
        } else {
            0
        };
        let place: int = if shift == 1 {
            0
        } else {
            self.active@.len() as int
        };
        assert(after.active@[place] == slot);
        assert forall|i: int| 0 <= i < self.active@.len() implies after.active@[i + shift]
            == #[trigger] self.active@[i] by {}
        assert forall|t: int| #[trigger] after.in_active(t) <==> self.in_active(t) || t == slot by {
            if self.in_active(t) {
                let i = choose|i: int| 0 <= i < self.active@.len() && self.active@[i] == t;
                assert(after.active@[i + shift] == t);
            }
            if after.in_active(t) && t != slot {
                let i = choose|i: int| 0 <= i < after.active@.len() && after.active@[i] == t;
                assert(self.active@[i - shift] == t);
            }
        }
        assert forall|t: int| #[trigger] after.pending(t) == self.pending(t) by {
            if 0 <= t < self.lanes@.len() && t != slot {
                assert(after.lanes@[t] == self.lanes@[t]);
            }
        }
        assert forall|t: int| #[trigger] after.ready@.contains(t) implies after.pending(t)
            && !after.in_active(t) by {
            assert(self.ready@.contains(t));
        }
        assert forall|i: int| 0 <= i < after.active@.len() implies after.pending(
            #[trigger] after.active@[i] as int,
        ) by {
            if i != place {
                assert(after.active@[i] == self.active@[i - shift]);
                assert(self.pending(self.active@[i - shift] as int));
            }
        }
        assert forall|i: int, j: int| 0 <= i < j < after.active@.len() implies after.active@[i]
            != after.active@[j] by {
            if i != place {
                assert(after.active@[i] == self.active@[i - shift]);
                assert(self.pending(self.active@[i - shift] as int));
            }
            if j != place {
                assert(after.active@[j] == self.active@[j - shift]);
                assert(self.pending(self.active@[j - shift] as int));
            }
        }
        assert forall|t: int| #[trigger] after.pending(t) implies after.ready@.contains(t)
            || after.in_active(t) by {
            assert(self.pending(t));
        }
        assert forall|t: int|
            0 <= t < after.lanes@.len() && (#[trigger] after.lanes@[t]) is Some implies {
            &&& after.lanes@[t]->Some_0.wf(t, after.capacity as nat)
            &&& after.lanes@[t]->Some_0.ring.consumer_closed == !after.receiver_alive
            &&& after.lanes@[t]->Some_0.ring.coordinated == after.coordinated
            &&& (after.lanes@[t]->Some_0.ring@.len() > 0
                || after.lanes@[t]->Some_0.ring.producer_closed)
                ==> after.lanes@[t]->Some_0.signal.pending
        } by {
            if t != slot {
                assert(after.lanes@[t] == self.lanes@[t]);
            }
        }
        assert forall|i: int| 0 <= i < after.free@.len() implies (
        #[trigger] after.free@[i]).slot < after.lanes@.len()
            && after.lanes@[after.free@[i].slot as int] is None by {
            let t = self.free@[i].slot as int;
            assert(self.lanes@[t] is None);
        }
    }

    /// When nothing is pending, the channel is empty, and no lane is left once
    /// the last sender is gone.
    proof fn lemma_nothing_pending(&self)
        requires
            self.inv(None),
            self.receiver_alive,
            self.active@.len() == 0,
            self.ready@ == Set::<int>::empty(),
        ensures
            self.is_empty(),
            forall|slot: int| !#[trigger] self.pending(slot),
            self.live_senders == 0 ==> self.registered_lanes == 0,
    {
        assert forall|slot: int| !#[trigger] self.pending(slot) by {
            if self.pending(slot) {
                assert(self.ready@.contains(slot) || self.in_active(slot));
            }
        }
        assert forall|slot: int| !#[trigger] self.has_data(slot) by {
            if self.has_data(slot) {
                assert(self.lanes@[slot] is Some);
                assert(self.pending(slot));
            }
        }
        if self.live_senders == 0 {
            lemma_count_zero(connected(self.lanes@));
            assert forall|i: int| 0 <= i < occupied(self.lanes@).len() implies !#[trigger] occupied(
                self.lanes@,
            )[i] by {
                if self.lanes@[i] is Some {
                    assert(!connected(self.lanes@)[i]);
                    assert(self.pending(i));
                }
            }
            lemma_count_zero(occupied(self.lanes@));
        }
    }

    /// Lanes that come to rest one after the other.
    proof fn lemma_moved_further(&self, mid: &Channel<T>, after: &Channel<T>, slot: int)
        requires
            mid.moved(self, None),
            mid.pending(slot),
            mid.unread(slot).len() == 0,
            mid.lane(slot).key.slot == slot,
            after.lanes@.len() == mid.lanes@.len(),
            after.live_senders == mid.live_senders,
            after.receiver_alive == mid.receiver_alive,
            after.data_waiter == mid.data_waiter,
            after.same_channel(mid),
            forall|t: int|
                0 <= t < mid.lanes@.len() && t != slot ==> #[trigger] after.lanes@[t]
                    == mid.lanes@[t],
            if mid.lane(slot).ring.producer_closed {
                &&& after.lanes@[slot] is None
                &&& after.free@ == mid.free@.push(mid.lane(slot).key.next())
            } else {
                &&& after.lanes@[slot] == Some(rested(mid.lane(slot)))
                &&& after.free == mid.free
            },
        ensures
            after.moved(self, None),
            self.pending(slot),
            !self.has_data(slot),
    {
        assert(settled(self.lanes@[slot], mid.lanes@[slot]));
        assert(mid.lanes@[slot] == self.lanes@[slot]);
        assert forall|t: int| 0 <= t < self.lanes@.len() implies settled(
            self.lanes@[t],
            #[trigger] after.lanes@[t],
        ) by {
            assert(settled(self.lanes@[t], mid.lanes@[t]));
            if t != slot {
                assert(after.lanes@[t] == mid.lanes@[t]);
            }
        }
        assert forall|i: int| self.free@.len() <= i < after.free@.len() implies ({
            let slot = (#[trigger] after.free@[i]).slot as int;
            self.present(slot) && after.free@[i] == self.lane(slot).key.next()
        }) by {
            if i < mid.free@.len() {
                assert(after.free@[i] == mid.free@[i]);
            }
        }
        assert forall|i: int| 0 <= i < self.free@.len() implies #[trigger] after.free@[i]
            == self.free@[i] by {
            assert(after.free@[i] == mid.free@[i]);
        }
    }

    /// Receiving does not touch the values of lanes that it does not serve.
    pub proof fn lemma_moved_data(&self, after: &Channel<T>)
        requires
            after.moved(self, None),
            self.lanes_ok(),
        ensures
            forall|t: int| #[trigger] after.has_data(t) == self.has_data(t),
            forall|t: int| #[trigger] self.has_data(t) ==> after.lanes@[t] == self.lanes@[t],
    {
        assert forall|t: int| #[trigger] after.has_data(t) == self.has_data(t) by {
            if 0 <= t < self.lanes@.len() {
                assert(settled(self.lanes@[t], after.lanes@[t]));
                if self.lanes@[t] is Some && after.lanes@[t] != self.lanes@[t] {
                    assert(rested(self.lane(t)).ring@ =~= self.lane(t).ring@);
                }
            }
        }
        assert forall|t: int| #[trigger] self.has_data(t) implies after.lanes@[t]
            == self.lanes@[t] by {
            assert(settled(self.lanes@[t], after.lanes@[t]));
        }
    }

    /// The front lane comes first when it holds a value.
    proof fn lemma_first_front(&self, slot: int)
        requires
            self.active@.len() > 0,
            self.active@[0] == slot,
            self.has_data(slot),
        ensures
            self.first(slot),
    {
        assert(self.has_data(self.active@[0] as int));
        assert(self.active_has_data());
    }

    /// A look that was due empties the head group.
    proof fn lemma_looked(&self, head: &Channel<T>, after: &Channel<T>, begun: bool)
        requires
            !begun ==> *head == *self,
            begun ==> head.looked(self),
            after.looked(head),
        ensures
            after.looked(self),
    {
        assert forall|t: int| #[trigger] after.ready@.contains(t) implies self.ready@.contains(
            t,
        ) by {
            assert(head.ready@.contains(t));
        }
        if self.look_due() {
            assert forall|g: int, t: int|
                #![trigger self.head_group(g), after.ready@.contains(t)]
                self.head_group(g) && after.ready@.contains(t) implies t / 4096 != g by {
                assert(head.ready@.contains(t));
            }
        }
    }

    /// A received value is an answer.
    proof fn lemma_answers(&self, before: &Channel<T>, slot: int, value: T)
        requires
            self.received(before, slot, value),
            self.data_waiter == before.data_waiter,
        ensures
            self.answers(before, Ok(value)),
    {
        let result: Result<T, TryRecvError> = Ok(value);
        assert(self.received(before, slot, result->Ok_0));
    }

    /// The steps of a receive put together.
    proof fn lemma_received(&self, looked: &Channel<T>, after: &Channel<T>, slot: int, k: int)
        requires
            self.wf(),
            self.receiver_alive,
            self.first(slot),
            looked.moved(self, None),
            looked.looked(self),
            looked.trails(self, k),
            looked.active@.len() > 0,
            looked.active@[0] == slot,
            looked.has_data(slot),
            0 < looked.items_until_ready_poll == self.poll_credit(),
            after.items_until_ready_poll == looked.items_until_ready_poll - 1,
            after.lanes@.len() == looked.lanes@.len(),
            forall|t: int|
                0 <= t < looked.lanes@.len() && t != slot ==> #[trigger] after.lanes@[t]
                    == looked.lanes@[t],
            after.present(slot),
            served(looked.lane(slot), after.lane(slot)),
            after.free == looked.free,
            after.ready == looked.ready,
            after.live_senders == looked.live_senders,
            after.receiver_alive == looked.receiver_alive,
            after.data_waiter == looked.data_waiter,
            after.same_channel(looked),
            after.active@ == if rotates(looked.lane(slot)) {
                looked.active@.drop_first().push(slot as usize)
            } else {
                looked.active@
            },
            exists|turns: nat, from: Look, at: Look| #[trigger]
                after.came_to(self, slot, turns, from, at),
        ensures
            after.received(self, slot, self.unread(slot)[0]),
    {
        self.lemma_moved_data(looked);
        assert(self.lanes@[slot] == looked.lanes@[slot]);
        assert forall|t: int| 0 <= t < self.lanes@.len() && t != slot implies settled(
            self.lanes@[t],
            #[trigger] after.lanes@[t],
        ) by {
            assert(settled(self.lanes@[t], looked.lanes@[t]));
            assert(after.lanes@[t] == looked.lanes@[t]);
        }
        assert forall|i: int|
            #![trigger self.active@[i]]
            0 <= i < self.active@.len() && self.active@[i] == slot implies i == k by {
            if i < k {
                assert(!self.has_data(self.active@[i] as int));
            } else {
                assert(self.active@.skip(k)[0] == self.active@[k]);
                assert(looked.active@[0] == self.active@.skip(k)[0]);
                assert(self.active@[k] == slot);
            }
        }
        if k < self.active@.len() && self.active@[k] == slot {
            let rest = self.active@.skip(k + 1);
            assert forall|j: int| 0 <= j < rest.len() implies #[trigger] rest[j]
                == looked.active@[j + 1] by {
                assert(self.active@.skip(k)[j + 1] == looked.active@[j + 1]);
            }
        }
    }

    /// What the first part of a receive does: it takes ready lanes up when that
    /// is due.
    pub open spec fn topped_up(&self, before: &Channel<T>) -> bool {
        &&& self.same_lanes(before)
        &&& self.items_until_ready_poll == before.poll_credit()
        &&& self.ready.groups@.len() == before.ready.groups@.len()
        &&& self.look().topped(before.look(), before.ready.groups@.len() as int)
        &&& extends(self.active@, before.active@)
        &&& self.looked(before)
        &&& forall|slot: int| #[trigger] self.first(slot) ==> before.first(slot)
    }

    /// Take ready lanes up when that is due. Returns whether a lane is served.
    fn top_up(&mut self) -> (served: bool)
        requires
            old(self).wf(),
            old(self).receiver_alive,
        ensures
            final(self).inv(None),
            final(self).topped_up(old(self)),
            served == (final(self).active@.len() > 0),
            !served ==> final(self).ready@ == Set::<int>::empty(),
    {
        let ghost head = *self;
        if self.active.len() == 0 {
            self.collect_ready(true);
            proof {
                head.lemma_first_collected(self, true);
                head.lemma_collected_looked(self, true);
                if self.active@.len() == 0 {
                    assert(self.ready@ =~= Set::<int>::empty()) by {
                        assert forall|t: int| !self.ready@.contains(t) by {
                            assert(!head.ready@.contains(t));
                        }
                    }
                }
            }
        } else if self.items_until_ready_poll == 0 {
            self.collect_ready(false);
            let ghost mid = *self;
            self.items_until_ready_poll = READY_POLL_INTERVAL;
            proof {
                mid.lemma_frame(self, None);
                head.lemma_first_collected(&mid, false);
                head.lemma_collected_looked(&mid, false);
                mid.lemma_first_frame(self);
                assert((Look { credit: 0, ..self.look() }) == mid.look());
            }
        }
        self.active.len() > 0
    }

    /// What the steps of a receive have done so far: lanes before the next one
    /// to serve have come to rest.
    spec fn underway(&self, start: &Channel<T>, k: int) -> bool {
        &&& self.moved(start, None)
        &&& self.data_waiter == start.data_waiter
        &&& self.trails(start, k)
        &&& forall|slot: int| #[trigger] self.first(slot) ==> start.first(slot)
    }

    /// Taking ready lanes up is part of a receive.
    proof fn lemma_topped_up(&self, head: &Channel<T>, after: &Channel<T>, k: int)
        requires
            head.underway(self, k),
            after.topped_up(head),
        ensures
            after.underway(self, k),
    {
        assert forall|slot: int| #[trigger] after.first(slot) implies self.first(slot) by {
            assert(head.first(slot));
        }
        assert(extends(after.active@, self.active@.skip(k)));
    }

    /// Putting the empty front lane to rest is part of a receive.
    proof fn lemma_rested(
        &self,
        looked: &Channel<T>,
        hand: &Channel<T>,
        after: &Channel<T>,
        slot: int,
        k: int,
    ) -> (next: int)
        requires
            self.lanes_ok(),
            looked.underway(self, k),
            looked.active@.len() > 0,
            looked.active@[0] == slot,
            hand.same_lanes(looked),
            hand.ready == looked.ready,
            hand.active@ == looked.active@.drop_first(),
            hand.ready_group_cursor == looked.ready_group_cursor,
            hand.pending(slot),
            hand.unread(slot).len() == 0,
            hand.lane(slot).key.slot == slot,
            after.ready == hand.ready,
            after.active == hand.active,
            after.ready_group_cursor == hand.ready_group_cursor,
            after.lanes@.len() == hand.lanes@.len(),
            after.live_senders == hand.live_senders,
            after.receiver_alive == hand.receiver_alive,
            after.data_waiter == hand.data_waiter,
            after.same_channel(hand),
            forall|t: int|
                0 <= t < hand.lanes@.len() && t != slot ==> #[trigger] after.lanes@[t]
                    == hand.lanes@[t],
            if hand.lane(slot).ring.producer_closed {
                &&& after.lanes@[slot] is None
                &&& after.free@ == hand.free@.push(hand.lane(slot).key.next())
            } else {
                &&& after.lanes@[slot] == Some(rested(hand.lane(slot)))
                &&& after.free == hand.free
            },
        ensures
            after.underway(self, next),
    {
        assert(hand.moved(self, None));
        self.lemma_moved_further(hand, after, slot);
        self.lemma_moved_data(after);
        self.lemma_moved_data(looked);
        looked.lemma_first_popped(after, slot);
        assert forall|t: int| #[trigger] after.first(t) implies self.first(t) by {
            assert(looked.first(t));
        }
        if k < self.active@.len() {
            assert(self.active@.skip(k)[0] == self.active@[k]);
            let rest = self.active@.skip(k + 1);
            assert forall|i: int| 0 <= i < rest.len() implies after.active@[i]
                == #[trigger] rest[i] by {
                assert(looked.active@[i + 1] == self.active@.skip(k)[i + 1]);
            }
            k + 1
        } else {
            assert(self.active@.skip(k) =~= Seq::<usize>::empty());
            k
        }
    }

    /// Receive one value without blocking.
    pub(super) fn try_recv_inner(&mut self) -> (result: Result<T, TryRecvError>)
        requires
            old(self).wf(),
            old(self).receiver_alive,
        ensures
            final(self).wf(),
            final(self).answers(old(self), result),
    {
        let ghost start = *self;
        let ghost mut k: int = 0;
        let ghost mut begun: bool = false;
        let ghost mut turns: nat = 0;
        assert(self.active@ =~= start.active@.skip(0));
        loop
            invariant
                start == *old(self),
                start.wf(),
                start.receiver_alive,
                self.wf(),
                self.receiver_alive,
                !begun ==> *self == start,
                begun ==> self.looked(&start),
                self.underway(&start, k),
                self.poll_credit() == start.poll_credit(),
                self.ready.groups@.len() == start.ready.groups@.len(),
                start.goes_round(turns, self.look()),
            decreases count(waiting(self.lanes@)),
        {
            let ghost head = *self;
            let any: bool = self.top_up();
            let ghost looked = *self;
            proof {
                start.lemma_looked(&head, self, begun);
                start.lemma_topped_up(&head, self, k);
                begun = true;
            }
            if !any {
                proof {
                    assert(self.came_to_rest(&start, turns, head.look()));
                    self.lemma_nothing_pending();
                    start.lemma_moved_data(self);
                    assert forall|t: int| !#[trigger] start.has_data(t) by {
                        assert(!self.has_data(t));
                    }
                }
                return Err(
                    if self.is_drained() {
                        TryRecvError::Disconnected
                    } else {
                        TryRecvError::Empty
                    },
                );
            }
            let slot: usize = self.active.pop_front().unwrap();
            let ghost hand = *self;
            proof {
                assert(self.active@ =~= looked.active@.drop_first());
                looked.lemma_hand(self, slot as int);
                assert(self.lanes@[slot as int] is Some);
            }
            let key: LaneKey = self.lanes[slot].as_ref().unwrap().key;
            match self.poll_lane(key) {
                LanePoll::Stale => {},
                LanePoll::Item { value, rotate, .. } => {
                    if rotate {
                        self.active.push_back(slot);
                    } else {
                        self.active.push_front(slot);
                    }
                    self.items_until_ready_poll = self.items_until_ready_poll - 1;
                    proof {
                        if rotate {
                            assert(self.active@ == hand.active@.push(slot));
                        } else {
                            assert(self.active@ =~= seq![slot] + hand.active@);
                            assert(self.active@ =~= looked.active@);
                        }
                        start.lemma_moved_data(&looked);
                        assert(settled(start.lanes@[slot as int], looked.lanes@[slot as int]));
                        assert(self.came_to(
                            &start,
                            slot as int,
                            turns,
                            head.look(),
                            looked.look(),
                        ));
                        hand.lemma_put_back(self, slot as int);
                        looked.lemma_first_front(slot as int);
                        start.lemma_received(&looked, self, slot as int, k);
                        assert(self.received(old(self), slot as int, value));
                        self.lemma_answers(old(self), slot as int, value);
                    }
                    return Ok(value);
                },
                LanePoll::Keep { .. } => {
                    self.active.push_back(slot);
                },
                LanePoll::Idle { disconnected, .. } => {
                    if disconnected {
                        proof {
                            lemma_count_zero(occupied(hand.lanes@));
                            assert(occupied(hand.lanes@)[slot as int]);
                        }
                        self.retire_lane(slot);
                    }
                    proof {
                        hand.lemma_put_down(self, slot as int);
                        k = start.lemma_rested(&looked, &hand, self, slot as int, k);
                        start.lemma_moved_data(&looked);
                        assert(settled(start.lanes@[slot as int], looked.lanes@[slot as int]));
                        assert(start.dry_turn(head.look(), looked.look(), self.look()));
                        turns = turns + 1;
                    }
                },
            }
        }
    }
}

/// A lane whose taken slots were given back, and whose waiting sender was told.
pub open spec fn given_back<T>(lane: Lane<T>) -> Lane<T> {
    if lane.unreleased > 0 {
        told(Lane { ring: Ring { consumed: 0, ..lane.ring }, unreleased: 0, ..lane })
    } else {
        lane
    }
}

/// What dropping the receiver does to a lane. A lane whose sender is gone too
/// goes with it. Otherwise unread values stay with the sender, or are discarded
/// at once if the channel is coordinated, and a waiting sender is told.
pub open spec fn abandoned<T>(before: Option<Lane<T>>, after: Option<Lane<T>>) -> bool {
    match before {
        None => after is None,
        Some(lane) => if lane.ring.producer_closed {
            after is None
        } else {
            &&& after is Some
            &&& after->Some_0.key == lane.key
            &&& after->Some_0.signal == told(lane).signal
            &&& after->Some_0.ring.consumer_closed
            &&& !after->Some_0.ring.producer_closed
            &&& after->Some_0.ring@ == if lane.ring.coordinated {
                Seq::<T>::empty()
            } else {
                lane.ring@
            }
        },
    }
}

impl<T> Channel<T> {
    /// Everything but the lanes.
    pub open spec fn same_but_lanes(&self, before: &Channel<T>) -> bool {
        &&& self.lanes@.len() == before.lanes@.len()
        &&& self.free == before.free
        &&& self.ready == before.ready
        &&& self.active == before.active
        &&& self.ready_group_cursor == before.ready_group_cursor
        &&& self.items_until_ready_poll == before.items_until_ready_poll
        &&& self.registered_lanes == before.registered_lanes
        &&& self.live_senders == before.live_senders
        &&& self.same_channel(before)
    }

    /// Every lane has its taken slots back.
    pub open spec fn all_given_back(&self, before: &Channel<T>) -> bool {
        &&& self.same_but_lanes(before)
        &&& self.receiver_alive == before.receiver_alive
        &&& self.data_waiter == before.data_waiter
        &&& forall|t: int|
            0 <= t < before.lanes@.len() ==> #[trigger] self.lanes@[t] == match before.lanes@[t] {
                None => None,
                Some(lane) => Some(given_back(lane)),
            }
    }

    /// What dropping the receiver does.
    pub open spec fn receiver_dropped(&self, before: &Channel<T>) -> bool {
        &&& self.same_but_lanes(before)
        &&& !self.receiver_alive
        &&& self.data_waiter == (WaitCell { waker: false, ..before.data_waiter })
        &&& forall|t: int|
            0 <= t < before.lanes@.len() ==> abandoned(
                before.lanes@[t],
                #[trigger] self.lanes@[t],
            )
    }

    /// Giving slots back keeps the invariant.
    proof fn lemma_given_back(&self, after: &Channel<T>)
        requires
            self.wf(),
            self.receiver_alive,
            after.all_given_back(self),
        ensures
            after.wf(),
    {
        assert forall|t: int|
            0 <= t < self.lanes@.len() && (#[trigger] self.lanes@[t]) is Some implies ({
            let lane = self.lanes@[t]->Some_0;
            &&& after.lanes@[t] == Some(given_back(lane))
            &&& given_back(lane).ring@ == lane.ring@
            &&& given_back(lane).wf(t, self.capacity as nat)
        }) by {
            let lane = self.lanes@[t]->Some_0;
            assert(after.lanes@[t] == Some(given_back(lane)));
            assert(given_back(lane).ring@ =~= lane.ring@);
        }
        assert forall|t: int| 0 <= t < self.lanes@.len() implies ((#[trigger] after.lanes@[t])
            is Some <==> self.lanes@[t] is Some) by {}
        assert(connected(after.lanes@) =~= connected(self.lanes@));
        assert(occupied(after.lanes@) =~= occupied(self.lanes@));
        assert forall|i: int| 0 <= i < after.free@.len() implies (
        #[trigger] after.free@[i]).slot < after.lanes@.len()
            && after.lanes@[after.free@[i].slot as int] is None by {
            assert(self.lanes@[self.free@[i].slot as int] is None);
        }
        assert forall|t: int| #[trigger] after.pending(t) == self.pending(t) by {
            if 0 <= t < self.lanes@.len() && self.lanes@[t] is Some {
                assert(after.lanes@[t] is Some);
            }
        }
        assert forall|t: int| #[trigger] after.in_active(t) == self.in_active(t) by {}
        assert forall|t: int| #[trigger] after.ready@.contains(t) implies after.pending(t)
            && !after.in_active(t) by {
            assert(self.ready@.contains(t));
        }
        assert forall|i: int| 0 <= i < after.active@.len() implies after.pending(
            #[trigger] after.active@[i] as int,
        ) by {
            assert(self.pending(self.active@[i] as int));
        }
        assert forall|t: int| #[trigger] after.pending(t) implies after.ready@.contains(t)
            || after.in_active(t) by {
            assert(self.pending(t));
        }
        assert forall|t: int|
            0 <= t < after.lanes@.len() && (#[trigger] after.lanes@[t]) is Some implies {
            &&& after.lanes@[t]->Some_0.wf(t, after.capacity as nat)
            &&& after.lanes@[t]->Some_0.ring.consumer_closed == !after.receiver_alive
            &&& after.lanes@[t]->Some_0.ring.coordinated == after.coordinated
            &&& (after.lanes@[t]->Some_0.ring@.len() > 0
                || after.lanes@[t]->Some_0.ring.producer_closed)
                ==> after.lanes@[t]->Some_0.signal.pending
        } by {
            assert(self.lanes@[t] is Some);
        }
    }

    fn release_all(&mut self)
        requires
            old(self).wf(),
            old(self).receiver_alive,
        ensures
            final(self).wf(),
            final(self).all_given_back(old(self)),
    {
        let ghost before = *self;
        let count: usize = self.lanes.len();
        let mut i: usize = 0;
        while i < count
            invariant
                before.wf(),
                before.receiver_alive,
                i <= count,
                count == before.lanes@.len(),
                self.same_but_lanes(&before),
                self.receiver_alive == before.receiver_alive,
                self.data_waiter == before.data_waiter,
                forall|t: int|
                    i <= t < before.lanes@.len() ==> #[trigger] self.lanes@[t] == before.lanes@[t],
                forall|t: int|
                    0 <= t < i ==> #[trigger] self.lanes@[t] == match before.lanes@[t] {
                        None => None,
                        Some(lane) => Some(given_back(lane)),
                    },
            decreases count - i,
        {
            assert(self.lanes@[i as int] == before.lanes@[i as int]);
            match &mut self.lanes[i] {
                Some(lane) => {
                    if lane.release_pending() {
                        let _ = lane.signal.space_waiter.notify();
                    }
                },
                None => {},
            }
            i += 1;
        }
        proof {
            before.lemma_given_back(self);
        }
    }

    fn drop_receiver(&mut self)
        requires
            old(self).wf(),
            old(self).receiver_alive,
        ensures
            final(self).wf(),
            final(self).receiver_dropped(old(self)),
    {
        let ghost before = *self;
        self.receiver_alive = false;
        let count: usize = self.lanes.len();
        let mut i: usize = 0;
        while i < count
            invariant
                before.wf(),
                before.receiver_alive,
                !self.receiver_alive,
                i <= count,
                count == before.lanes@.len(),
                self.same_but_lanes(&before),
                self.data_waiter == before.data_waiter,
                forall|t: int|
                    i <= t < before.lanes@.len() ==> #[trigger] self.lanes@[t] == before.lanes@[t],
                forall|t: int|
                    0 <= t < i ==> abandoned(before.lanes@[t], #[trigger] self.lanes@[t]) && (
                    self.lanes@[t] is Some ==> self.lanes@[t]->Some_0.wf(t, self.capacity as nat)
                        && self.lanes@[t]->Some_0.ring.coordinated == self.coordinated),
            decreases count - i,
        {
            assert(self.lanes@[i as int] == before.lanes@[i as int]);
            assert(before.lanes@[i as int] is Some ==> before.lane(i as int).wf(
                i as int,
                before.capacity as nat,
            ));
            let gone: bool = match &self.lanes[i] {
                Some(lane) => lane.ring.is_disconnected(),
                None => true,
            };
            if gone {
                self.lanes.set(i, None);
            } else {
                let lane = self.lanes[i].as_mut().unwrap();
                lane.ring.close_consumer();
                let _ = lane.signal.space_waiter.notify();
                assert(before.lane(i as int).ring@.skip(before.lane(i as int).ring@.len() as int)
                    =~= Seq::<T>::empty());
            }
            i += 1;
        }
        self.data_waiter.cancel_async();
        proof {
            assert forall|t: int| 0 <= t < before.lanes@.len() implies abandoned(
                before.lanes@[t],
                #[trigger] self.lanes@[t],
            ) by {}
            assert forall|t: int| 0 <= t < before.lanes@.len() implies connected(self.lanes@)[t]
                == connected(before.lanes@)[t] by {
                assert(abandoned(before.lanes@[t], self.lanes@[t]));
            }
            assert(connected(self.lanes@) =~= connected(before.lanes@));
            assert forall|j: int| 0 <= j < self.free@.len() implies (
            #[trigger] self.free@[j]).slot < self.lanes@.len()
                && self.lanes@[self.free@[j].slot as int] is None by {
                let t = before.free@[j].slot as int;
                assert(before.lanes@[t] is None);
                assert(abandoned(before.lanes@[t], self.lanes@[t]));
            }
        }
    }
}

/// How a blocking receive goes on.
pub enum RecvProgress<T> {
    /// It is over.
    Done(Result<T, RecvError>),
    /// Try again soon.
    Spin,
    /// Sleep until data is announced, then try again.
    Park(WaitRegistration),
}

/// How a receive with a deadline goes on.
pub enum RecvDeadlineProgress<T> {
    /// It is over.
    Done(Result<T, RecvTimeoutError>),
    /// Sleep until data is announced or the deadline passes, then try again.
    Park(WaitRegistration),
}

impl<T> Channel<T> {
    /// The receiver has found nothing and registered for data.
    pub open spec fn awaits_data(&self, before: &Channel<T>, wait: WaitRegistration) -> bool {
        &&& self.exhausted(before)
        &&& before.live_senders > 0
        &&& self.data_waiter == (WaitCell {
            state: with_waiter(before.data_waiter.state),
            ..before.data_waiter
        })
        &&& wait.snapshot == self.data_waiter.state
    }

    /// What try number `attempt` of a blocking receive does.
    pub open spec fn recv_went(
        &self,
        before: &Channel<T>,
        attempt: usize,
        r: RecvProgress<T>,
    ) -> bool {
        match r {
            RecvProgress::Done(Ok(value)) => self.answers(before, Ok(value)),
            RecvProgress::Done(Err(_)) => self.answers(before, Err(TryRecvError::Disconnected)),
            RecvProgress::Spin => attempt <= PARK_SPINS && self.answers(
                before,
                Err(TryRecvError::Empty),
            ),
            RecvProgress::Park(wait) => attempt > PARK_SPINS && self.awaits_data(before, wait),
        }
    }

    /// Who waits for data does not matter to the invariant.
    pub proof fn lemma_data_waiter(&self, after: &Channel<T>)
        requires
            self.wf(),
            after.unchanged(&(Channel { data_waiter: after.data_waiter, ..*self })),
        ensures
            after.wf(),
    {
        let same = Channel { data_waiter: after.data_waiter, ..*self };
        if self.receiver_alive {
            assert forall|slot: int| #[trigger] same.pending(slot) == self.pending(slot) by {}
            assert forall|slot: int| #[trigger] same.in_active(slot) == self.in_active(slot) by {}
            assert forall|slot: int| #[trigger] same.ready@.contains(slot) implies same.pending(
                slot,
            ) && !same.in_active(slot) by {
                assert(self.ready@.contains(slot));
            }
            assert forall|i: int| 0 <= i < same.active@.len() implies same.pending(
                #[trigger] same.active@[i] as int,
            ) by {
                assert(self.pending(self.active@[i] as int));
            }
            assert forall|slot: int| #[trigger] same.pending(slot) implies same.ready@.contains(
                slot,
            ) || same.in_active(slot) by {
                assert(self.pending(slot));
            }
        }
        same.lemma_unchanged(after);
    }
}

impl<T> Channel<T> {
    /// Register the receiver for data.
    fn await_data(&mut self) -> (wait: WaitRegistration)
        requires
            old(self).wf(),
            !is_waiting(old(self).data_waiter.state),
        ensures
            final(self).wf(),
            *final(self) == (Channel {
                data_waiter: WaitCell {
                    state: with_waiter(old(self).data_waiter.state),
                    ..old(self).data_waiter
                },
                ..*old(self)
            }),
            wait.snapshot == final(self).data_waiter.state,
            forall|earlier: Channel<T>| #[trigger]
                old(self).exhausted(&earlier) ==> final(self).exhausted(&earlier),
    {
        let ghost before = *self;
        let wait = self.data_waiter.prepare();
        proof {
            before.lemma_data_waiter(self);
            assert forall|earlier: Channel<T>| #[trigger]
                before.exhausted(&earlier) implies self.exhausted(&earlier) by {
                let (turns, from) = choose|turns: nat, from: Look| #[trigger]
                    before.came_to_rest(&earlier, turns, from);
                assert(self.look() == before.look());
                assert(self.came_to_rest(&earlier, turns, from));
                assert forall|slot: int| !#[trigger] self.pending(slot) by {
                    assert(!before.pending(slot));
                }
            }
        }
        wait
    }
}

impl Receiver {
    /// Try to receive one value.
    pub fn try_recv<T>(&mut self, ch: &mut Channel<T>) -> (result: Result<T, TryRecvError>)
        requires
            old(ch).wf(),
            old(ch).receiver_alive,
        ensures
            *final(self) == *old(self),
            final(ch).wf(),
            final(ch).answers(old(ch), result),
    {
        ch.try_recv_inner()
    }

    /// Receive one value, blocking while the channel is empty. `attempt` counts
    /// the earlier tries.
    ///
    /// The last look at the lanes and the registration for data are one step,
    /// so that no publication can come between them.
    pub fn recv<T>(&mut self, ch: &mut Channel<T>, attempt: usize) -> (r: RecvProgress<T>)
        requires
            old(ch).wf(),
            old(ch).receiver_alive,
            !is_waiting(old(ch).data_waiter.state),
        ensures
            *final(self) == *old(self),
            final(ch).wf(),
            final(ch).recv_went(old(ch), attempt, r),
    {
        match self.try_recv(ch) {
            Ok(value) => RecvProgress::Done(Ok(value)),
            Err(TryRecvError::Disconnected) => RecvProgress::Done(Err(RecvError)),
            Err(TryRecvError::Empty) => {
                if attempt <= PARK_SPINS {
                    RecvProgress::Spin
                } else {
                    RecvProgress::Park(ch.await_data())
                }
            },
        }
    }
}

/// How a blocking batch receive goes on.
pub enum BatchProgress {
    /// It is over.
    Done(Result<usize, RecvError>),
    /// Try again soon.
    Spin,
    /// Sleep until data is announced, then try again.
    Park(WaitRegistration),
}

/// Receiving `values` one after the other leads from one state to the other.
pub open spec fn receives<T>(before: Channel<T>, after: Channel<T>, values: Seq<T>) -> bool
    decreases values.len(),
{
    if values.len() == 0 {
        after == before
    } else {
        exists|mid: Channel<T>|
            receives(before, mid, values.drop_last()) && #[trigger] mid.wf() && after.answers(
                &mid,
                Ok(values.last()),
            )
    }
}

/// One value more.
proof fn lemma_receives_more<T>(
    before: Channel<T>,
    mid: Channel<T>,
    after: Channel<T>,
    values: Seq<T>,
    value: T,
)
    requires
        receives(before, mid, values),
        mid.wf(),
        after.answers(&mid, Ok(value)),
    ensures
        receives(before, after, values.push(value)),
{
    let longer = values.push(value);
    assert(longer.drop_last() =~= values);
    assert(longer.last() == value);
    assert(receives(before, mid, longer.drop_last()));
}

/// What receiving without blocking does: it receives until the limit or until
/// no value is left, and then gives all taken slots back.
pub open spec fn batched<T>(
    before: Channel<T>,
    after: Channel<T>,
    values: Seq<T>,
    limit: int,
) -> bool {
    &&& values.len() <= limit
    &&& exists|mid: Channel<T>| #[trigger]
        receives(before, mid, values) && mid.wf() && if values.len() == limit {
            after.all_given_back(&mid)
        } else {
            exists|end: Channel<T>| #[trigger]
                end.exhausted(&mid) && end.wf() && end.data_waiter == mid.data_waiter && after.all_given_back(
                    &end,
                )
        }
}

/// What a batch receive with a limit above zero does: it receives one value and
/// then those that come without blocking.
pub open spec fn batch_received<T>(
    before: Channel<T>,
    after: Channel<T>,
    values: Seq<T>,
    limit: int,
) -> bool {
    &&& values.len() > 0
    &&& exists|mid: Channel<T>|
        mid.wf() && mid.answers(&before, Ok(values[0])) && #[trigger] batched(
            mid,
            after,
            values.skip(1),
            limit - 1,
        )
}

impl Receiver {
    /// Receive one value, blocking until the deadline while the channel is
    /// empty. `expired` tells whether the deadline has passed.
    pub fn recv_deadline<T>(&mut self, ch: &mut Channel<T>, expired: bool) -> (r:
        RecvDeadlineProgress<T>)
        requires
            old(ch).wf(),
            old(ch).receiver_alive,
            !is_waiting(old(ch).data_waiter.state),
        ensures
            *final(self) == *old(self),
            final(ch).wf(),
            match r {
                RecvDeadlineProgress::Done(Ok(value)) => final(ch).answers(old(ch), Ok(value)),
                RecvDeadlineProgress::Done(Err(RecvTimeoutError::Disconnected)) => final(
                    ch).answers(old(ch), Err(TryRecvError::Disconnected)),
                RecvDeadlineProgress::Done(Err(RecvTimeoutError::Timeout)) => expired && final(
                    ch).answers(old(ch), Err(TryRecvError::Empty)),
                RecvDeadlineProgress::Park(wait) => !expired && final(ch).awaits_data(
                    old(ch),
                    wait,
                ),
            },
    {
        match self.try_recv(ch) {
            Ok(value) => RecvDeadlineProgress::Done(Ok(value)),
            Err(TryRecvError::Disconnected) => RecvDeadlineProgress::Done(
                Err(RecvTimeoutError::Disconnected),
            ),
            Err(TryRecvError::Empty) => {
                if expired {
                    RecvDeadlineProgress::Done(Err(RecvTimeoutError::Timeout))
                } else {
                    RecvDeadlineProgress::Park(ch.await_data())
                }
            },
        }
    }

    /// Append at most `limit` values to `output`, blocking only for the first.
    /// `attempt` counts the earlier tries. A limit of zero receives nothing and
    /// succeeds even after the last sender is gone.
    pub fn recv_batch_into<T>(
        &mut self,
        ch: &mut Channel<T>,
        output: &mut Vec<T>,
        limit: usize,
        attempt: usize,
    ) -> (r: BatchProgress)
        requires
            old(ch).wf(),
            old(ch).receiver_alive,
            !is_waiting(old(ch).data_waiter.state),
        ensures
            *final(self) == *old(self),
            final(ch).wf(),
            match r {
                BatchProgress::Done(Ok(received)) => {
                    let values = final(output)@.skip(old(output)@.len() as int);
                    &&& received == values.len()
                    &&& final(output)@ == old(output)@ + values
                    &&& limit == 0 ==> received == 0 && final(ch).all_given_back(old(ch))
                    &&& limit > 0 ==> batch_received(
                        *old(ch),
                        *final(ch),
                        values,
                        limit as int,
                    )
                },
                BatchProgress::Done(Err(_)) => limit > 0 && *final(output) == *old(output)
                    && final(ch).answers(old(ch), Err(TryRecvError::Disconnected)),
                BatchProgress::Spin => limit > 0 && attempt <= PARK_SPINS && *final(output) == *old(
                    output) && final(ch).answers(old(ch), Err(TryRecvError::Empty)),
                BatchProgress::Park(wait) => limit > 0 && attempt > PARK_SPINS && *final(output)
                    == *old(output) && final(ch).awaits_data(old(ch), wait),
            },
    {
        let ghost base = output@.len() as int;
        if limit == 0 {
            self.release_consumed(ch);
            assert(output@.skip(base) =~= Seq::<T>::empty());
            assert(output@ =~= old(output)@ + output@.skip(base));
            return BatchProgress::Done(Ok(0));
        }
        match self.try_recv(ch) {
            Ok(value) => {
                let ghost mid = *ch;
                output.push(value);
                let ghost first = output@;
                let rest: usize = self.fill_batch(ch, output, limit - 1);
                proof {
                    let values = output@.skip(base);
                    assert(output@ =~= old(output)@ + values);
                    assert(values.skip(1) =~= output@.skip(first.len() as int));
                    assert(values[0] == value);
                    let answer: Result<T, TryRecvError> = Ok(values[0]);
                    assert(mid.answers(old(ch), answer));
                    assert(batched(mid, *ch, values.skip(1), limit - 1));
                }
                BatchProgress::Done(Ok(rest + 1))
            },
            Err(TryRecvError::Disconnected) => BatchProgress::Done(Err(RecvError)),
            Err(TryRecvError::Empty) => {
                if attempt <= PARK_SPINS {
                    BatchProgress::Spin
                } else {
                    BatchProgress::Park(ch.await_data())
                }
            },
        }
    }

    /// Append at most `limit` values without blocking, and give all taken slots
    /// back.
    pub(super) fn fill_batch<T>(
        &mut self,
        ch: &mut Channel<T>,
        output: &mut Vec<T>,
        limit: usize,
    ) -> (received: usize)
        requires
            old(ch).wf(),
            old(ch).receiver_alive,
        ensures
            *final(self) == *old(self),
            final(ch).wf(),
            final(output)@ == old(output)@ + final(output)@.skip(old(output)@.len() as int),
            received == final(output)@.len() - old(output)@.len(),
            received <= limit,
            batched(
                *old(ch),
                *final(ch),
                final(output)@.skip(old(output)@.len() as int),
                limit as int,
            ),
    {
        let ghost base = output@.len() as int;
        let ghost start = *ch;
        let mut received: usize = 0;
        let mut open: bool = true;
        let ghost mut mid = *ch;
        assert(output@.skip(base) =~= Seq::<T>::empty());
        assert(output@ =~= old(output)@ + output@.skip(base));
        while open && received < limit
            invariant
                start == *old(ch),
                ch.wf(),
                ch.receiver_alive,
                *self == *old(self),
                base == old(output)@.len(),
                received <= limit,
                received == output@.len() - base,
                output@ == old(output)@ + output@.skip(base),
                receives(start, mid, output@.skip(base)),
                mid.wf(),
                open ==> mid == *ch,
                !open ==> received < limit && ch.exhausted(&mid) && ch.data_waiter
                    == mid.data_waiter,
            decreases limit - received + if open {
                1int
            } else {
                0int
            },
        {
            let ghost before = *ch;
            let ghost values = output@.skip(base);
            match self.try_recv(ch) {
                Ok(value) => {
                    output.push(value);
                    received = received + 1;
                    proof {
                        assert(output@.skip(base) =~= values.push(value));
                        assert(output@ =~= old(output)@ + output@.skip(base));
                        lemma_receives_more(start, before, *ch, values, value);
                        mid = *ch;
                    }
                },
                Err(_) => {
                    open = false;
                },
            }
        }
        self.release_consumed(ch);
        received
    }

    /// Give every lane its taken slots back. Unread values stay, and so does
    /// the order in which lanes are served.
    pub fn release_consumed<T>(&mut self, ch: &mut Channel<T>)
        requires
            old(ch).wf(),
            old(ch).receiver_alive,
        ensures
            *final(self) == *old(self),
            final(ch).wf(),
            final(ch).all_given_back(old(ch)),
    {
        ch.release_all();
    }

    /// Decide whether a parked receiver goes on sleeping. Otherwise its
    /// registration ends.
    pub fn park<T>(&mut self, ch: &mut Channel<T>, wait: &WaitRegistration) -> (sleep: bool)
        requires
            old(ch).wf(),
        ensures
            *final(self) == *old(self),
            final(ch).wf(),
            sleep == (old(ch).data_waiter.state == wait.snapshot),
            *final(ch) == (Channel {
                data_waiter: if sleep {
                    old(ch).data_waiter
                } else {
                    WaitCell {
                        state: without_waiter(old(ch).data_waiter.state),
                        ..old(ch).data_waiter
                    }
                },
                ..*old(ch)
            }),
    {
        let ghost before = *ch;
        let sleep: bool = wait.wait(&mut ch.data_waiter);
        proof {
            before.lemma_data_waiter(ch);
        }
        sleep
    }

    /// End the registration of a receiver that slept until its deadline.
    pub fn unpark<T>(&mut self, ch: &mut Channel<T>, wait: &WaitRegistration)
        requires
            old(ch).wf(),
        ensures
            *final(self) == *old(self),
            final(ch).wf(),
            *final(ch) == (Channel {
                data_waiter: WaitCell {
                    state: without_waiter(old(ch).data_waiter.state),
                    ..old(ch).data_waiter
                },
                ..*old(ch)
            }),
    {
        let ghost before = *ch;
        wait.wake_up(&mut ch.data_waiter);
        proof {
            before.lemma_data_waiter(ch);
        }
    }

    /// Drop the receiver.
    pub fn close<T>(self, ch: &mut Channel<T>)
        requires
            old(ch).wf(),
            old(ch).receiver_alive,
        ensures
            final(ch).wf(),
            final(ch).receiver_dropped(old(ch)),
    {
        ch.drop_receiver();
    }

    /// Whether all senders have been dropped.
    pub fn is_disconnected<T>(&self, ch: &Channel<T>) -> (closed: bool)
        ensures
            closed == (ch.live_senders == 0),
    {
        ch.live_senders == 0
    }

    /// Per-sender capacity after rounding.
    pub fn capacity_per_sender(&self) -> (capacity: usize)
        ensures
            capacity == self.capacity,
    {
        self.capacity
    }

    /// How many senders are alive.
    pub fn sender_count<T>(&self, ch: &Channel<T>) -> (senders: usize)
        ensures
            senders == ch.live_senders,
    {
        ch.live_senders
    }

    /// How many receivers are alive.
    pub fn receiver_count<T>(&self, ch: &Channel<T>) -> (receivers: usize)
        ensures
            receivers == if ch.receiver_alive {
                1usize
            } else {
                0usize
            },
    {
        if ch.receiver_alive {
            1
        } else {
            0
        }
    }
}

} // verus!
