//! The sending side: one lane per sender.
use vstd::prelude::*;

use crate::count::{lemma_count_update, lemma_count_zero};
use crate::error::{
    SendError, SendTimeoutError, TryRegisterBoundedError, TryRegisterError, TrySendError,
};
use crate::ready::LaneSignal;
use crate::ring::Ring;
use crate::wait::{is_waiting, with_waiter, without_waiter, WaitCell, WaitRegistration};

use super::{connected, occupied, Channel, Lane, Sender, LANES_PER_PAGE, PARK_SPINS};

verus! {

/// What publishing a value does to its lane.
pub open spec fn filled<T>(before: Lane<T>, after: Lane<T>, value: T) -> bool {
    &&& after.key == before.key
    &&& after.ring@ == before.ring@.push(value)
    &&& after.ring.same_ends(&before.ring)
    &&& after.ring.consumed == before.ring.consumed
    &&& after.signal == (LaneSignal { pending: true, ..before.signal })
    &&& after.cached_available == before.cached_available
    &&& after.unreleased == before.unreleased
    &&& after.release_batch == before.release_batch
    &&& after.burst == before.burst
}

impl<T> Channel<T> {
    /// Everything but one lane, the ready index and who waits for data.
    pub open spec fn same_but_lane(&self, before: &Channel<T>, slot: int) -> bool {
        &&& self.lanes@.len() == before.lanes@.len()
        &&& forall|t: int|
            0 <= t < before.lanes@.len() && t != slot ==> #[trigger] self.lanes@[t]
                == before.lanes@[t]
        &&& self.free == before.free
        &&& self.active == before.active
        &&& self.ready_group_cursor == before.ready_group_cursor
        &&& self.items_until_ready_poll == before.items_until_ready_poll
        &&& self.registered_lanes == before.registered_lanes
        &&& self.receiver_alive == before.receiver_alive
        &&& self.same_channel(before)
    }

    /// The lane in `slot` becomes pending: an idle one is queued.
    pub open spec fn queues(&self, before: &Channel<T>, slot: int) -> bool {
        self.ready@ == if before.lane(slot).signal.pending {
            before.ready@
        } else {
            before.ready@.insert(slot)
        }
    }

    /// What a successful send does. The receiver is told when the lane was
    /// idle.
    pub open spec fn sent(&self, before: &Channel<T>, slot: int, value: T) -> bool {
        &&& self.same_but_lane(before, slot)
        &&& self.live_senders == before.live_senders
        &&& self.present(slot)
        &&& filled(before.lane(slot), self.lane(slot), value)
        &&& self.queues(before, slot)
        &&& self.data_waiter == if before.lane(slot).signal.pending {
            before.data_waiter
        } else {
            before.data_waiter.after_notify()
        }
    }

    /// What a send that does not block returns and does.
    pub open spec fn accepts(
        &self,
        before: &Channel<T>,
        slot: int,
        value: T,
        result: Result<(), TrySendError<T>>,
    ) -> bool {
        match result {
            Ok(()) => before.receiver_alive && !before.lane(slot).ring.full() && self.sent(
                before,
                slot,
                value,
            ),
            Err(TrySendError::Full(back)) => before.receiver_alive && before.lane(slot).ring.full()
                && back == value && self.unchanged(before),
            Err(TrySendError::Disconnected(back)) => !before.receiver_alive && back == value
                && self.unchanged(before),
        }
    }

    /// A lane that becomes pending is found again.
    proof fn lemma_queued(&self, after: &Channel<T>, slot: int)
        requires
            self.inv(None),
            self.receiver_alive,
            self.present(slot),
            after.same_but_lane(self, slot),
            after.present(slot),
            after.lane(slot).signal == (LaneSignal {
                pending: true,
                space_waiter: after.lane(slot).signal.space_waiter,
                ..self.lane(slot).signal
            }),
            after.queues(self, slot),
        ensures
            after.found(None),
    {
        assert forall|t: int| #[trigger] after.pending(t) <==> self.pending(t) || t == slot by {
            if 0 <= t < self.lanes@.len() && t != slot {
                assert(after.lanes@[t] == self.lanes@[t]);
            }
        }
        assert forall|t: int| #[trigger] after.in_active(t) == self.in_active(t) by {}
        assert forall|t: int| #[trigger] self.in_active(t) implies self.pending(t) by {
            let i = choose|i: int| 0 <= i < self.active@.len() && self.active@[i] == t;
            assert(self.pending(self.active@[i] as int));
        }
        assert forall|t: int| #[trigger] after.ready@.contains(t) implies after.pending(t)
            && !after.in_active(t) by {
            if t != slot || self.pending(slot) {
                assert(self.ready@.contains(t));
            }
        }
        assert forall|i: int| 0 <= i < after.active@.len() implies after.pending(
            #[trigger] after.active@[i] as int,
        ) by {
            assert(self.pending(self.active@[i] as int));
        }
        assert forall|t: int| #[trigger] after.pending(t) implies after.ready@.contains(t)
            || after.in_active(t) by {
            if self.pending(t) {
                assert(self.ready@.contains(t) || self.in_active(t));
            }
        }
        assert forall|t: int|
            0 <= t < after.lanes@.len() && (#[trigger] after.lanes@[t]) is Some && (
            after.lanes@[t]->Some_0.ring@.len() > 0
                || after.lanes@[t]->Some_0.ring.producer_closed) implies
            after.lanes@[t]->Some_0.signal.pending by {
            if t != slot {
                assert(after.lanes@[t] == self.lanes@[t]);
            }
        }
    }

    /// Make the lane in `slot` pending. Returns whether it was idle.
    fn mark_ready(&mut self, slot: usize) -> (queued: bool)
        requires
            old(self).covered(),
            old(self).present(slot as int),
            old(self).lane(slot as int).signal.wf(slot as int),
        ensures
            queued == !old(self).lane(slot as int).signal.pending,
            final(self).lanes@ == old(self).lanes@.update(
                slot as int,
                Some(
                    Lane {
                        signal: LaneSignal {
                            pending: true,
                            ..old(self).lane(slot as int).signal
                        },
                        ..old(self).lane(slot as int)
                    },
                ),
            ),
            final(self).queues(old(self), slot as int),
            final(self).covered(),
            final(self).free == old(self).free,
            final(self).active == old(self).active,
            final(self).ready_group_cursor == old(self).ready_group_cursor,
            final(self).items_until_ready_poll == old(self).items_until_ready_poll,
            final(self).registered_lanes == old(self).registered_lanes,
            final(self).live_senders == old(self).live_senders,
            final(self).receiver_alive == old(self).receiver_alive,
            final(self).data_waiter == old(self).data_waiter,
            final(self).same_channel(old(self)),
    {
        let lane = self.lanes[slot].as_mut().unwrap();
        lane.signal.mark(&mut self.ready)
    }

    /// Push a value into the lane in `slot` and publish it.
    fn try_send_inner(&mut self, slot: usize, value: T) -> (result: Result<(), TrySendError<T>>)
        requires
            old(self).wf(),
            old(self).present(slot as int),
        ensures
            final(self).wf(),
            final(self).accepts(old(self), slot as int, value, result),
    {
        if !self.receiver_alive {
            return Err(TrySendError::Disconnected(value));
        }
        let ghost before = *self;
        assert(self.lanes@[slot as int] is Some);
        let lane = self.lanes[slot].as_mut().unwrap();
        match lane.ring.push_and_flush(value) {
            Ok(()) => {
                let ghost pushed = *self;
                let queued: bool = self.mark_ready(slot);
                if queued {
                    let _ = self.data_waiter.notify();
                }
                proof {
                    assert(connected(self.lanes@) =~= connected(before.lanes@));
                    assert(occupied(self.lanes@) =~= occupied(before.lanes@));
                    assert(self.sent(&before, slot as int, value));
                    before.lemma_queued(self, slot as int);
                }
                Ok(())
            },
            Err(value) => {
                proof {
                    assert(self.lanes@ =~= before.lanes@);
                    before.lemma_unchanged(self);
                }
                Err(TrySendError::Full(value))
            },
        }
    }
}

impl Sender {
    /// Try to send one value.
    pub fn try_send<T>(&mut self, ch: &mut Channel<T>, value: T) -> (result: Result<
        (),
        TrySendError<T>,
    >)
        requires
            old(ch).wf(),
            old(ch).owns(old(self)),
        ensures
            *final(self) == *old(self),
            final(ch).wf(),
            final(ch).owns(final(self)),
            final(ch).accepts(old(ch), old(self).key.slot as int, value, result),
    {
        ch.try_send_inner(self.key.slot, value)
    }
}

impl<T> Channel<T> {
    /// What dropping the sender of the lane in `slot` does. While the receiver
    /// is alive the lane stays until it is drained, and the receiver is told.
    /// Otherwise the lane and its values go with the sender.
    pub open spec fn sender_dropped(&self, before: &Channel<T>, slot: int) -> bool {
        &&& self.same_but_lane(before, slot)
        &&& self.live_senders == before.live_senders - 1
        &&& self.data_waiter == before.data_waiter.after_notify()
        &&& before.receiver_alive ==> {
            &&& self.present(slot)
            &&& self.lane(slot) == (Lane {
                ring: Ring { producer_closed: true, ..before.lane(slot).ring },
                signal: LaneSignal {
                    pending: true,
                    space_waiter: WaitCell {
                        waker: false,
                        ..before.lane(slot).signal.space_waiter
                    },
                    ..before.lane(slot).signal
                },
                ..before.lane(slot)
            })
            &&& self.queues(before, slot)
        }
        &&& !before.receiver_alive ==> self.lanes@[slot] is None && self.ready == before.ready
    }

    fn drop_sender(&mut self, slot: usize)
        requires
            old(self).wf(),
            old(self).present(slot as int),
            !old(self).lane(slot as int).ring.producer_closed,
        ensures
            final(self).wf(),
            final(self).sender_dropped(old(self), slot as int),
    {
        let ghost before = *self;
        proof {
            lemma_count_zero(connected(before.lanes@));
            assert(connected(before.lanes@)[slot as int]);
            lemma_count_update(connected(before.lanes@), slot as int, false);
        }
        assert(self.lanes@[slot as int] is Some);
        if self.receiver_alive {
            let lane = self.lanes[slot].as_mut().unwrap();
            lane.ring.close_producer();
            lane.signal.space_waiter.cancel_async();
            let _ = self.mark_ready(slot);
        } else {
            self.lanes.set(slot, None);
        }
        self.live_senders = self.live_senders - 1;
        let _ = self.data_waiter.notify();
        proof {
            assert(connected(self.lanes@) =~= connected(before.lanes@).update(slot as int, false));
            if before.receiver_alive {
                assert(occupied(self.lanes@) =~= occupied(before.lanes@));
                assert(self.lane(slot as int).ring@ =~= before.lane(slot as int).ring@);
                before.lemma_queued(self, slot as int);
            }
        }
    }
}

/// How a blocking send goes on.
pub enum SendProgress<T> {
    /// It is over.
    Done(Result<(), SendError<T>>),
    /// Try again soon.
    Spin(T),
    /// Sleep until the lane is told, then try again.
    Park(T, WaitRegistration),
}

/// How a send with a deadline goes on.
pub enum SendDeadlineProgress<T> {
    /// It is over.
    Done(Result<(), SendTimeoutError<T>>),
    /// Sleep until the lane is told or the deadline passes, then try again.
    Park(T, WaitRegistration),
}

impl<T> Channel<T> {
    /// The sender of the lane in `slot` has registered for space.
    pub open spec fn awaits_space(
        &self,
        before: &Channel<T>,
        slot: int,
        wait: WaitRegistration,
    ) -> bool {
        let cell = before.lane(slot).signal.space_waiter;
        &&& self.lane_replaced(
            before,
            slot,
            Lane {
                signal: LaneSignal {
                    space_waiter: WaitCell { state: with_waiter(cell.state), ..cell },
                    ..before.lane(slot).signal
                },
                ..before.lane(slot)
            },
        )
        &&& wait.snapshot == with_waiter(cell.state)
    }

    /// Only the lane in `slot` differs.
    pub open spec fn lane_replaced(&self, before: &Channel<T>, slot: int, lane: Lane<T>) -> bool {
        &&& self.lanes@ == before.lanes@.update(slot, Some(lane))
        &&& self.free == before.free
        &&& self.ready == before.ready
        &&& self.active == before.active
        &&& self.ready_group_cursor == before.ready_group_cursor
        &&& self.items_until_ready_poll == before.items_until_ready_poll
        &&& self.registered_lanes == before.registered_lanes
        &&& self.live_senders == before.live_senders
        &&& self.receiver_alive == before.receiver_alive
        &&& self.data_waiter == before.data_waiter
        &&& self.capacity == before.capacity
        &&& self.coordinated == before.coordinated
    }

    /// Only who waits for space in the lane in `slot` differs.
    pub open spec fn only_space_waiter(&self, before: &Channel<T>, slot: int) -> bool {
        &&& before.present(slot)
        &&& self.lane_replaced(
            before,
            slot,
            Lane {
                signal: LaneSignal {
                    space_waiter: self.lane(slot).signal.space_waiter,
                    ..before.lane(slot).signal
                },
                ..before.lane(slot)
            },
        )
    }

    /// Only who waits for data differs.
    pub open spec fn only_data_waiter(&self, before: &Channel<T>) -> bool {
        *self == (Channel { data_waiter: self.data_waiter, ..*before })
    }

    /// Who waits for space does not matter to the invariant.
    pub proof fn lemma_space_waiter(&self, after: &Channel<T>, slot: int, cell: WaitCell)
        requires
            self.wf(),
            self.present(slot),
            after.lane_replaced(
                self,
                slot,
                Lane {
                    signal: LaneSignal { space_waiter: cell, ..self.lane(slot).signal },
                    ..self.lane(slot)
                },
            ),
        ensures
            after.wf(),
    {
        assert(self.lanes@[slot] is Some);
        assert(connected(after.lanes@) =~= connected(self.lanes@));
        assert(occupied(after.lanes@) =~= occupied(self.lanes@));
        assert forall|i: int| 0 <= i < after.free@.len() implies (
        #[trigger] after.free@[i]).slot < after.lanes@.len()
            && after.lanes@[after.free@[i].slot as int] is None by {
            assert(self.lanes@[self.free@[i].slot as int] is None);
        }
        if self.receiver_alive {
            assert forall|t: int| #[trigger] after.pending(t) == self.pending(t) by {}
            assert forall|t: int| #[trigger] after.in_active(t) == self.in_active(t) by {}
            assert forall|t: int| #[trigger] after.ready@.contains(t) implies after.pending(t)
                && !after.in_active(t) by {
                assert(self.ready@.contains(t));
            }
            assert forall|i: int| 0 <= i < after.active@.len() implies after.pending(
                #[trigger] after.active@[i] as int,
            ) by {
                assert(self.pending(self.active@[i] as int));
            }
            assert forall|t: int| #[trigger] after.pending(t) implies after.ready@.contains(t)
                || after.in_active(t) by {
                assert(self.pending(t));
            }
        }
    }

    /// Register the sender of the lane in `slot` for space.
    fn await_space(&mut self, slot: usize) -> (wait: WaitRegistration)
        requires
            old(self).wf(),
            old(self).present(slot as int),
            !is_waiting(old(self).lane(slot as int).signal.space_waiter.state),
        ensures
            final(self).wf(),
            final(self).awaits_space(old(self), slot as int, wait),
    {
        let ghost before = *self;
        let lane = self.lanes[slot].as_mut().unwrap();
        let wait = lane.signal.space_waiter.prepare();
        proof {
            let cell = self.lane(slot as int).signal.space_waiter;
            assert(self.lanes@ =~= before.lanes@.update(slot as int, Some(self.lane(slot as int))));
            before.lemma_space_waiter(self, slot as int, cell);
        }
        wait
    }
}

impl Sender {
    /// Try to register another sender.
    ///
    /// Returns `None` when the receiver is gone.
    pub fn try_clone<T>(&self, ch: &mut Channel<T>) -> (r: Option<Sender>)
        requires
            old(ch).wf(),
            old(ch).owns(self),
            old(ch).lanes@.len() + LANES_PER_PAGE <= usize::MAX,
        ensures
            final(ch).wf(),
            final(ch).owns(self),
            match r {
                Some(tx) => old(ch).receiver_alive && final(ch).registered(old(ch), tx.key)
                    && final(ch).owns(&tx),
                None => !old(ch).receiver_alive && *final(ch) == *old(ch),
            },
    {
        match self.try_register(ch) {
            Ok(tx) => Some(tx),
            Err(_) => None,
        }
    }

    /// Try to register another sender and report why registration failed.
    pub fn try_register<T>(&self, ch: &mut Channel<T>) -> (r: Result<Sender, TryRegisterError>)
        requires
            old(ch).wf(),
            old(ch).owns(self),
            old(ch).lanes@.len() + LANES_PER_PAGE <= usize::MAX,
        ensures
            final(ch).wf(),
            final(ch).owns(self),
            match r {
                Ok(tx) => old(ch).receiver_alive && final(ch).registered(old(ch), tx.key) && final(ch).owns(&tx),
                Err(_) => !old(ch).receiver_alive && *final(ch) == *old(ch),
            },
    {
        assert(ch.lanes@[self.key.slot as int] is Some);
        match ch.register_sender() {
            Ok(key) => Ok(Sender { key }),
            Err(error) => Err(error),
        }
    }

    /// Try to register another sender unless `max_lanes` lanes are registered.
    /// The lane of a dropped sender counts until it is drained.
    pub fn try_register_bounded<T>(&self, ch: &mut Channel<T>, max_lanes: usize) -> (r: Result<
        Sender,
        TryRegisterBoundedError,
    >)
        requires
            old(ch).wf(),
            old(ch).owns(self),
            old(ch).lanes@.len() + LANES_PER_PAGE <= usize::MAX,
        ensures
            final(ch).wf(),
            final(ch).owns(self),
            match r {
                Ok(tx) => old(ch).receiver_alive && old(ch).registered_lanes < max_lanes && final(ch).registered(old(ch), tx.key) && final(ch).owns(&tx),
                Err(TryRegisterBoundedError::AtCapacity) => old(ch).receiver_alive && old(ch).registered_lanes >= max_lanes && *final(ch) == *old(ch),
                Err(TryRegisterBoundedError::Disconnected) => !old(ch).receiver_alive && *final(ch)
                    == *old(ch),
            },
    {
        if ch.receiver_alive && ch.registered_lanes >= max_lanes {
            return Err(TryRegisterBoundedError::AtCapacity);
        }
        match self.try_register(ch) {
            Ok(tx) => Ok(tx),
            Err(TryRegisterError::Disconnected) => Err(TryRegisterBoundedError::Disconnected),
        }
    }

    /// Send one value, blocking while this sender's ring is full. `attempt`
    /// counts the earlier tries.
    ///
    /// The last look at the ring and the registration for space are one step,
    /// so that no release can come between them.
    pub fn send<T>(&mut self, ch: &mut Channel<T>, value: T, attempt: usize) -> (r: SendProgress<T>)
        requires
            old(ch).wf(),
            old(ch).owns(old(self)),
            !is_waiting(old(ch).lane(old(self).key.slot as int).signal.space_waiter.state),
        ensures
            *final(self) == *old(self),
            final(ch).wf(),
            final(ch).owns(final(self)),
            ({
                let slot = old(self).key.slot as int;
                let room = !old(ch).lane(slot).ring.full();
                match r {
                    SendProgress::Done(Ok(())) => old(ch).receiver_alive && room && final(ch).sent(
                        old(ch),
                        slot,
                        value,
                    ),
                    SendProgress::Done(Err(SendError(back))) => !old(ch).receiver_alive && back
                        == value && final(ch).unchanged(old(ch)),
                    SendProgress::Spin(back) => old(ch).receiver_alive && !room && attempt
                        <= PARK_SPINS && back == value && final(ch).unchanged(old(ch)),
                    SendProgress::Park(back, wait) => old(ch).receiver_alive && !room && attempt
                        > PARK_SPINS && back == value && final(ch).awaits_space(
                        old(ch),
                        slot,
                        wait,
                    ),
                }
            }),
    {
        match self.try_send(ch, value) {
            Ok(()) => SendProgress::Done(Ok(())),
            Err(TrySendError::Disconnected(value)) => SendProgress::Done(Err(SendError(value))),
            Err(TrySendError::Full(value)) => {
                if attempt <= PARK_SPINS {
                    SendProgress::Spin(value)
                } else {
                    let wait = ch.await_space(self.key.slot);
                    SendProgress::Park(value, wait)
                }
            },
        }
    }

    /// Send one value, blocking until the deadline while this sender's ring is
    /// full. `expired` tells whether the deadline has passed.
    pub fn send_deadline<T>(&mut self, ch: &mut Channel<T>, value: T, expired: bool) -> (r:
        SendDeadlineProgress<T>)
        requires
            old(ch).wf(),
            old(ch).owns(old(self)),
            !is_waiting(old(ch).lane(old(self).key.slot as int).signal.space_waiter.state),
        ensures
            *final(self) == *old(self),
            final(ch).wf(),
            final(ch).owns(final(self)),
            ({
                let slot = old(self).key.slot as int;
                let room = !old(ch).lane(slot).ring.full();
                match r {
                    SendDeadlineProgress::Done(Ok(())) => old(ch).receiver_alive && room && final(ch).sent(old(ch), slot, value),
                    SendDeadlineProgress::Done(Err(SendTimeoutError::Disconnected(back))) => !old(ch).receiver_alive && back == value && final(ch).unchanged(old(ch)),
                    SendDeadlineProgress::Done(Err(SendTimeoutError::Timeout(back))) => old(ch).receiver_alive && !room && expired && back == value && final(ch).unchanged(
                        old(ch),
                    ),
                    SendDeadlineProgress::Park(back, wait) => old(ch).receiver_alive && !room
                        && !expired && back == value && final(ch).awaits_space(old(ch), slot, wait),
                }
            }),
    {
        match self.try_send(ch, value) {
            Ok(()) => SendDeadlineProgress::Done(Ok(())),
            Err(TrySendError::Disconnected(value)) => SendDeadlineProgress::Done(
                Err(SendTimeoutError::Disconnected(value)),
            ),
            Err(TrySendError::Full(value)) => {
                if expired {
                    SendDeadlineProgress::Done(Err(SendTimeoutError::Timeout(value)))
                } else {
                    let wait = ch.await_space(self.key.slot);
                    SendDeadlineProgress::Park(value, wait)
                }
            },
        }
    }

    /// Decide whether a parked sender goes on sleeping. Otherwise its
    /// registration ends.
    pub fn park<T>(&mut self, ch: &mut Channel<T>, wait: &WaitRegistration) -> (sleep: bool)
        requires
            old(ch).wf(),
            old(ch).owns(old(self)),
        ensures
            *final(self) == *old(self),
            final(ch).wf(),
            final(ch).owns(final(self)),
            ({
                let slot = old(self).key.slot as int;
                let cell = old(ch).lane(slot).signal.space_waiter;
                &&& sleep == (cell.state == wait.snapshot)
                &&& final(ch).lane_replaced(
                    old(ch),
                    slot,
                    Lane {
                        signal: LaneSignal {
                            space_waiter: if sleep {
                                cell
                            } else {
                                WaitCell { state: without_waiter(cell.state), ..cell }
                            },
                            ..old(ch).lane(slot).signal
                        },
                        ..old(ch).lane(slot)
                    },
                )
            }),
    {
        let ghost before = *ch;
        let slot: usize = self.key.slot;
        let lane = ch.lanes[slot].as_mut().unwrap();
        let sleep: bool = wait.wait(&mut lane.signal.space_waiter);
        proof {
            let cell = ch.lane(slot as int).signal.space_waiter;
            assert(ch.lanes@ =~= before.lanes@.update(slot as int, Some(ch.lane(slot as int))));
            before.lemma_space_waiter(ch, slot as int, cell);
        }
        sleep
    }

    /// End the registration of a sender that slept until its deadline.
    pub fn unpark<T>(&mut self, ch: &mut Channel<T>, wait: &WaitRegistration)
        requires
            old(ch).wf(),
            old(ch).owns(old(self)),
        ensures
            *final(self) == *old(self),
            final(ch).wf(),
            final(ch).owns(final(self)),
            ({
                let slot = old(self).key.slot as int;
                let cell = old(ch).lane(slot).signal.space_waiter;
                final(ch).lane_replaced(
                    old(ch),
                    slot,
                    Lane {
                        signal: LaneSignal {
                            space_waiter: WaitCell { state: without_waiter(cell.state), ..cell },
                            ..old(ch).lane(slot).signal
                        },
                        ..old(ch).lane(slot)
                    },
                )
            }),
    {
        let ghost before = *ch;
        let slot: usize = self.key.slot;
        let lane = ch.lanes[slot].as_mut().unwrap();
        wait.wake_up(&mut lane.signal.space_waiter);
        proof {
            let cell = ch.lane(slot as int).signal.space_waiter;
            assert(ch.lanes@ =~= before.lanes@.update(slot as int, Some(ch.lane(slot as int))));
            before.lemma_space_waiter(ch, slot as int, cell);
        }
    }

    /// Drop the sender.
    pub fn close<T>(self, ch: &mut Channel<T>)
        requires
            old(ch).wf(),
            old(ch).owns(&self),
        ensures
            final(ch).wf(),
            final(ch).sender_dropped(old(ch), self.key.slot as int),
    {
        ch.drop_sender(self.key.slot);
    }

    /// This sender's lane slot.
    pub fn lane_id(&self) -> (slot: usize)
        ensures
            slot == self.key.slot,
    {
        self.key.slot
    }

    /// This sender's lane capacity after rounding.
    pub fn capacity<T>(&self, ch: &Channel<T>) -> (capacity: usize)
        requires
            ch.wf(),
            ch.owns(self),
        ensures
            capacity == ch.capacity,
    {
        ch.lanes[self.key.slot].as_ref().unwrap().ring.capacity()
    }

    /// Whether the receiver has been dropped.
    pub fn is_disconnected<T>(&self, ch: &Channel<T>) -> (closed: bool)
        ensures
            closed == !ch.receiver_alive,
    {
        !ch.receiver_alive
    }

    /// Lanes that were registered and not retired.
    pub fn registered_lanes<T>(&self, ch: &Channel<T>) -> (lanes: usize)
        ensures
            lanes == ch.registered_lanes,
    {
        ch.registered_lanes
    }

    /// How many senders are alive.
    pub fn sender_count<T>(&self, ch: &Channel<T>) -> (senders: usize)
        ensures
            senders == ch.live_senders,
    {
        ch.live_senders
    }

    /// How many receivers are alive.
    pub fn receiver_count<T>(&self, ch: &Channel<T>) -> (receivers: usize)
        ensures
            receivers == if ch.receiver_alive {
                1usize
            } else {
                0usize
            },
    {
        if ch.receiver_alive {
            1
        } else {
            0
        }
    }
}

} // verus!
