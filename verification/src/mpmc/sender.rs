//! The sending side: one lane per sender.
use vstd::prelude::*;

use crate::bags::{lemma_bag_push, total};
use crate::count::{count, lemma_count_update, lemma_count_zero};
use crate::error::{SendError, SendTimeoutError, TryRegisterError, TrySendError};
use crate::ready::LaneSignal;
use crate::ring::Ring;
use crate::wait::{is_waiting, with_waiter, without_waiter, WaitCell, WaitRegistration};

use super::{
    connected, dry, lane_bag, lane_bags, taken_places, Channel, Lane, Sender, LANES_PER_PAGE, PARK_SPINS,
};

verus! {

/// What publishing a value does to its lane.
pub open spec fn filled<T>(before: Lane<T>, after: Lane<T>, value: T) -> bool {
    &&& after.key == before.key
    &&& after.ring@ == before.ring@.push(value)
    &&& after.ring.same_ends(&before.ring)
    &&& after.ring.consumed == before.ring.consumed
    &&& after.signal == (LaneSignal { pending: true, ..before.signal })
    &&& after.cached_available == before.cached_available
    &&& after.unreleased == before.unreleased
    &&& after.release_batch == before.release_batch
}

impl<T> Channel<T> {
    /// Everything but one lane, the routing and who waits for data.
    pub open spec fn same_but_lane(&self, before: &Channel<T>, slot: int) -> bool {
        &&& self.lanes@.len() == before.lanes@.len()
        &&& forall|t: int|
            0 <= t < before.lanes@.len() && t != slot ==> #[trigger] self.lanes@[t]
                == before.lanes@[t]
        &&& self.free == before.free
        &&& self.registered_lanes == before.registered_lanes
        &&& self.same_receiving(before)
    }

    /// The lane in `slot` becomes pending: an idle one is marked.
    pub open spec fn queues(&self, before: &Channel<T>, slot: int) -> bool {
        self.routing.slots() == if before.lane(slot).signal.pending {
            before.routing.slots()
        } else {
            before.routing.slots().insert(slot)
        }
    }

    /// What a successful send does. One receiver is told when the lane was
    /// idle.
    pub open spec fn sent(&self, before: &Channel<T>, slot: int, value: T) -> bool {
        &&& self.same_but_lane(before, slot)
        &&& self.live_senders == before.live_senders
        &&& self.present(slot)
        &&& filled(before.lane(slot), self.lane(slot), value)
        &&& self.queues(before, slot)
        &&& self.contents() == before.contents().insert(value)
        &&& self.dry_lanes() <= before.dry_lanes()
        &&& self.routing.stale() == before.routing.stale()
        &&& self.data_waiters == if before.lane(slot).signal.pending {
            before.data_waiters
        } else {
            before.data_waiters.after_notify_one()
        }
    }

    /// Whether two states hold the same.
    pub open spec fn unchanged(&self, other: &Channel<T>) -> bool {
        &&& self.lanes@ == other.lanes@
        &&& self.free == other.free
        &&& self.routing == other.routing
        &&& self.registered_lanes == other.registered_lanes
        &&& self.live_senders == other.live_senders
        &&& self.data_waiters == other.data_waiters
        &&& self.same_receiving(other)
    }

    /// What a send that does not block returns and does.
    pub open spec fn accepts(
        &self,
        before: &Channel<T>,
        slot: int,
        value: T,
        result: Result<(), TrySendError<T>>,
    ) -> bool {
        match result {
            Ok(()) => before.receiver_alive && !before.lane(slot).ring.full() && self.sent(
                before,
                slot,
                value,
            ),
            Err(TrySendError::Full(back)) => before.receiver_alive && before.lane(slot).ring.full()
                && back == value && self.unchanged(before),
            Err(TrySendError::Disconnected(back)) => !before.receiver_alive && back == value
                && self.unchanged(before),
        }
    }

    /// Only the lane in `slot` differs.
    pub open spec fn lane_replaced(&self, before: &Channel<T>, slot: int, lane: Lane<T>) -> bool {
        &&& self.lanes@ == before.lanes@.update(slot, Some(lane))
        &&& self.free == before.free
        &&& self.routing == before.routing
        &&& self.registered_lanes == before.registered_lanes
        &&& self.live_senders == before.live_senders
        &&& self.data_waiters == before.data_waiters
        &&& self.same_receiving(before)
    }

    /// Only who waits for space in the lane in `slot` differs.
    pub open spec fn only_space_waiter(&self, before: &Channel<T>, slot: int) -> bool {
        &&& before.present(slot)
        &&& self.lane_replaced(
            before,
            slot,
            Lane {
                signal: LaneSignal {
                    space_waiter: self.lane(slot).signal.space_waiter,
                    ..before.lane(slot).signal
                },
                ..before.lane(slot)
            },
        )
    }

    /// Only who waits for data differs.
    pub open spec fn only_data_waiters(&self, before: &Channel<T>) -> bool {
        *self == (Channel { data_waiters: self.data_waiters, ..*before })
    }

    /// Who waits has no bearing on what the channel holds.
    pub proof fn lemma_waiting(&self, after: &Channel<T>, slot: int)
        requires
            after.only_space_waiter(self, slot) || after.only_data_waiters(self)
                || after.unchanged(self),
        ensures
            after.contents() == self.contents(),
            after.upkeep() == self.upkeep(),
            after.registered_lanes == self.registered_lanes,
            after.live_senders == self.live_senders,
            after.live_receivers == self.live_receivers,
            after.receiver_alive == self.receiver_alive,
    {
        assert(lane_bags(after.lanes@) =~= lane_bags(self.lanes@));
        assert(dry(after.lanes@) =~= dry(self.lanes@));
    }

    /// The tickets do not depend on the lanes.
    proof fn lemma_tickets_kept(&self, after: &Channel<T>)
        requires
            self.staging_ok(),
            self.receivers_ok(),
            after.same_receiving(self),
        ensures
            after.staging_ok(),
            after.receivers_ok(),
    {
        assert(after.tickets() == self.tickets());
        assert forall|t: u64| #[trigger] after.tickets().count(t) == if after.staging.holds(t) {
            1nat
        } else {
            0nat
        } by {
            assert(self.tickets().count(t) == if self.staging.holds(t) {
                1nat
            } else {
                0nat
            });
        }
    }

    /// A lane that becomes pending is found again.
    proof fn lemma_queued(&self, after: &Channel<T>, slot: int)
        requires
            self.inv(None),
            self.receiver_alive,
            self.present(slot),
            after.same_but_lane(self, slot),
            after.present(slot),
            after.lane(slot).signal.pending,
            after.queues(self, slot),
        ensures
            after.found(None),
    {
        assert forall|t: int| #[trigger] after.pending(t) <==> self.pending(t) || t == slot by {
            if 0 <= t < self.lanes@.len() && t != slot {
                assert(after.lanes@[t] == self.lanes@[t]);
            }
        }
        assert forall|t: int| #[trigger] after.routing.slots().contains(t) implies after.pending(
            t,
        ) by {
            if t != slot {
                assert(self.routing.slots().contains(t));
            }
        }
        assert forall|t: int| #[trigger] after.pending(t) implies after.routing.slots().contains(
            t,
        ) by {
            if self.pending(t) {
                assert(self.routing.slots().contains(t));
            }
        }
        assert forall|t: int|
            0 <= t < after.lanes@.len() && (#[trigger] after.lanes@[t]) is Some && (
            after.lanes@[t]->Some_0.ring@.len() > 0
                || after.lanes@[t]->Some_0.ring.producer_closed) implies
            after.lanes@[t]->Some_0.signal.pending by {
            if t != slot {
                assert(after.lanes@[t] == self.lanes@[t]);
            }
        }
    }

    /// Make the lane in `slot` pending. Returns whether it was idle.
    fn mark_ready(&mut self, slot: usize) -> (queued: bool)
        requires
            old(self).covered(),
            old(self).present(slot as int),
            old(self).lane(slot as int).signal.wf(slot as int),
            !old(self).lane(slot as int).signal.pending ==> !old(self).routing.slots().contains(
                slot as int,
            ),
        ensures
            queued == !old(self).lane(slot as int).signal.pending,
            final(self).lanes@ == old(self).lanes@.update(
                slot as int,
                Some(
                    Lane {
                        signal: LaneSignal {
                            pending: true,
                            ..old(self).lane(slot as int).signal
                        },
                        ..old(self).lane(slot as int)
                    },
                ),
            ),
            final(self).queues(old(self), slot as int),
            final(self).covered(),
            final(self).routing.stale() == old(self).routing.stale(),
            final(self).free == old(self).free,
            final(self).registered_lanes == old(self).registered_lanes,
            final(self).live_senders == old(self).live_senders,
            final(self).data_waiters == old(self).data_waiters,
            final(self).same_receiving(old(self)),
    {
        let lane = self.lanes[slot].as_mut().unwrap();
        self.routing.mark(&mut lane.signal, Ghost(slot as int))
    }

    /// Push a value into the lane in `slot` and publish it.
    fn try_send_inner(&mut self, slot: usize, value: T) -> (result: Result<(), TrySendError<T>>)
        requires
            old(self).wf(),
            old(self).present(slot as int),
        ensures
            final(self).wf(),
            final(self).accepts(old(self), slot as int, value, result),
    {
        if !self.receiver_alive {
            return Err(TrySendError::Disconnected(value));
        }
        let ghost before = *self;
        let ghost s = slot as int;
        proof {
            assert(self.lanes@[s] is Some);
            if self.routing.slots().contains(s) {
                assert(self.pending(s));
            }
        }
        let lane = self.lanes[slot].as_mut().unwrap();
        match lane.ring.push_and_flush(value) {
            Ok(()) => {
                let queued: bool = self.mark_ready(slot);
                if queued {
                    let _ = self.data_waiters.notify_one();
                }
                proof {
                    assert(connected(self.lanes@) =~= connected(before.lanes@));
                    assert(taken_places(self.lanes@) =~= taken_places(before.lanes@));
                    assert(self.lanes@ =~= before.lanes@.update(s, Some(self.lane(s))));
                    before.lemma_lane_replaced(self, s, Some(self.lane(s)));
                    lemma_bag_push(before.lane(s).ring@, value);
                    assert(self.contents() =~= before.contents().insert(value)) by {
                        assert forall|v: T| self.contents().count(v) == before.contents().insert(
                            value,
                        ).count(v) by {
                            assert(total(lane_bags(self.lanes@)).count(v) + lane_bag(
                                before.lanes@[s],
                            ).count(v) == total(lane_bags(before.lanes@)).count(v) + lane_bag(
                                Some(self.lane(s)),
                            ).count(v));
                            assert(before.lane(s).ring@.push(value).to_multiset().count(v)
                                == before.lane(s).ring@.to_multiset().count(v) + if v == value {
                                1nat
                            } else {
                                0nat
                            });
                        }
                    }
                    before.lemma_tickets_kept(self);
                    before.lemma_queued(self, s);
                    lemma_count_update(dry(before.lanes@), s, false);
                    assert(dry(self.lanes@) =~= dry(before.lanes@).update(s, false));
                }
                Ok(())
            },
            Err(value) => {
                proof {
                    assert(self.lanes@ =~= before.lanes@);
                    before.lemma_unchanged(self);
                }
                Err(TrySendError::Full(value))
            },
        }
    }

    /// The invariant depends only on what the state holds.
    pub proof fn lemma_unchanged(&self, after: &Channel<T>)
        requires
            self.wf(),
            after.unchanged(self),
        ensures
            after.wf(),
            after.contents() == self.contents(),
            after.upkeep() == self.upkeep(),
    {
        self.lemma_tickets_kept(after);
        if self.receiver_alive {
            assert forall|slot: int| #[trigger] after.pending(slot) == self.pending(slot) by {}
            assert forall|slot: int| #[trigger] after.routing.slots().contains(slot) implies
                after.pending(slot) by {
                assert(self.routing.slots().contains(slot));
            }
            assert forall|slot: int| #[trigger] after.pending(slot) implies
                after.routing.slots().contains(slot) by {
                assert(self.pending(slot));
            }
        }
    }

    /// What dropping the sender of the lane in `slot` does. While a receiver is
    /// alive the lane stays until it is drained; the last sender wakes every
    /// receiver, an earlier one wakes one. Otherwise the lane and its values go
    /// with the sender.
    pub open spec fn sender_dropped(&self, before: &Channel<T>, slot: int) -> bool {
        &&& self.same_but_lane(before, slot)
        &&& self.live_senders == before.live_senders - 1
        &&& self.data_waiters == if before.live_senders == 1 {
            before.data_waiters.after_notify_all()
        } else {
            before.data_waiters.after_notify_one()
        }
        &&& before.receiver_alive ==> {
            &&& self.present(slot)
            &&& self.lane(slot) == (Lane {
                ring: Ring { producer_closed: true, ..before.lane(slot).ring },
                signal: LaneSignal {
                    pending: true,
                    space_waiter: WaitCell {
                        waker: false,
                        ..before.lane(slot).signal.space_waiter
                    },
                    ..before.lane(slot).signal
                },
                ..before.lane(slot)
            })
            &&& self.queues(before, slot)
            &&& self.contents() == before.contents()
            &&& self.dry_lanes() <= before.dry_lanes() + 1
            &&& self.routing.stale() == before.routing.stale()
        }
        &&& !before.receiver_alive ==> self.lanes@[slot] is None && self.routing == before.routing
    }

    fn drop_sender(&mut self, slot: usize)
        requires
            old(self).wf(),
            old(self).present(slot as int),
            !old(self).lane(slot as int).ring.producer_closed,
        ensures
            final(self).wf(),
            final(self).sender_dropped(old(self), slot as int),
    {
        let ghost before = *self;
        let ghost s = slot as int;
        proof {
            lemma_count_zero(connected(before.lanes@));
            assert(connected(before.lanes@)[s]);
            lemma_count_update(connected(before.lanes@), s, false);
            assert(self.lanes@[s] is Some);
            if self.receiver_alive && self.routing.slots().contains(s) {
                assert(self.pending(s));
            }
        }
        if self.receiver_alive {
            let lane = self.lanes[slot].as_mut().unwrap();
            lane.ring.close_producer();
            lane.signal.space_waiter.cancel_async();
            let _ = self.mark_ready(slot);
        } else {
            self.lanes.set(slot, None);
        }
        self.live_senders = self.live_senders - 1;
        if self.live_senders == 0 {
            let _ = self.data_waiters.notify_all();
        } else {
            let _ = self.data_waiters.notify_one();
        }
        proof {
            assert(connected(self.lanes@) =~= connected(before.lanes@).update(s, false));
            before.lemma_tickets_kept(self);
            if before.receiver_alive {
                assert(taken_places(self.lanes@) =~= taken_places(before.lanes@));
                assert(self.lane(s).ring@ =~= before.lane(s).ring@);
                assert(lane_bags(self.lanes@) =~= lane_bags(before.lanes@));
                before.lemma_queued(self, s);
                let empty = self.lane(s).ring@.len() == 0;
                lemma_count_update(dry(before.lanes@), s, empty);
                assert(dry(self.lanes@) =~= dry(before.lanes@).update(s, empty));
            }
        }
    }

    /// The sender of the lane in `slot` has registered for space.
    pub open spec fn awaits_space(
        &self,
        before: &Channel<T>,
        slot: int,
        wait: WaitRegistration,
    ) -> bool {
        let cell = before.lane(slot).signal.space_waiter;
        &&& self.lane_replaced(
            before,
            slot,
            Lane {
                signal: LaneSignal {
                    space_waiter: WaitCell { state: with_waiter(cell.state), ..cell },
                    ..before.lane(slot).signal
                },
                ..before.lane(slot)
            },
        )
        &&& wait.snapshot == with_waiter(cell.state)
    }

    /// Register the sender of the lane in `slot` for space.
    fn await_space(&mut self, slot: usize) -> (wait: WaitRegistration)
        requires
            old(self).wf(),
            old(self).present(slot as int),
            !is_waiting(old(self).lane(slot as int).signal.space_waiter.state),
        ensures
            final(self).wf(),
            final(self).awaits_space(old(self), slot as int, wait),
    {
        let ghost before = *self;
        let ghost s = slot as int;
        let lane = self.lanes[slot].as_mut().unwrap();
        let wait = lane.signal.space_waiter.prepare();
        proof {
            let signal = self.lane(s).signal;
            assert(self.lanes@ =~= before.lanes@.update(
                s,
                Some(Lane { signal, ..before.lane(s) }),
            ));
            before.lemma_signal_changed(self, s, signal);
        }
        wait
    }
}

/// How a blocking send goes on.
pub enum SendProgress<T> {
    /// It is over.
    Done(Result<(), SendError<T>>),
    /// Try again soon.
    Spin(T),
    /// Sleep until the lane is told, then try again.
    Park(T, WaitRegistration),
}

/// How a send with a deadline goes on.
pub enum SendDeadlineProgress<T> {
    /// It is over.
    Done(Result<(), SendTimeoutError<T>>),
    /// Sleep until the lane is told or the deadline passes, then try again.
    Park(T, WaitRegistration),
}

impl Sender {
    /// Try to register another sender.
    ///
    /// Returns `None` when all receivers are gone.
    pub fn try_clone<T>(&self, ch: &mut Channel<T>) -> (r: Option<Sender>)
        requires
            old(ch).wf(),
            old(ch).owns(self),
            old(ch).lanes@.len() + LANES_PER_PAGE <= usize::MAX,
        ensures
            final(ch).wf(),
            final(ch).owns(self),
            match r {
                Some(tx) => old(ch).receiver_alive && final(ch).registered(old(ch), tx.key)
                    && final(ch).owns(&tx),
                None => !old(ch).receiver_alive && *final(ch) == *old(ch),
            },
    {
        match self.try_register(ch) {
            Ok(tx) => Some(tx),
            Err(_) => None,
        }
    }

    /// Try to register another sender and report why registration failed.
    pub fn try_register<T>(&self, ch: &mut Channel<T>) -> (r: Result<Sender, TryRegisterError>)
        requires
            old(ch).wf(),
            old(ch).owns(self),
            old(ch).lanes@.len() + LANES_PER_PAGE <= usize::MAX,
        ensures
            final(ch).wf(),
            final(ch).owns(self),
            match r {
                Ok(tx) => old(ch).receiver_alive && final(ch).registered(old(ch), tx.key) && final(
                    ch).owns(&tx),
                Err(_) => !old(ch).receiver_alive && *final(ch) == *old(ch),
            },
    {
        assert(ch.lanes@[self.key.slot as int] is Some);
        match ch.register_sender() {
            Ok(key) => Ok(Sender { key }),
            Err(error) => Err(error),
        }
    }

    /// Try to send one value.
    pub fn try_send<T>(&mut self, ch: &mut Channel<T>, value: T) -> (result: Result<
        (),
        TrySendError<T>,
    >)
        requires
            old(ch).wf(),
            old(ch).owns(old(self)),
        ensures
            *final(self) == *old(self),
            final(ch).wf(),
            final(ch).owns(final(self)),
            final(ch).accepts(old(ch), old(self).key.slot as int, value, result),
    {
        ch.try_send_inner(self.key.slot, value)
    }

    /// Send one value, blocking while this sender's ring is full. `attempt`
    /// counts the earlier tries.
    ///
    /// The last look at the ring and the registration for space are one step,
    /// so that no release can come between them.
    pub fn send<T>(&mut self, ch: &mut Channel<T>, value: T, attempt: usize) -> (r: SendProgress<T>)
        requires
            old(ch).wf(),
            old(ch).owns(old(self)),
            !is_waiting(old(ch).lane(old(self).key.slot as int).signal.space_waiter.state),
        ensures
            *final(self) == *old(self),
            final(ch).wf(),
            final(ch).owns(final(self)),
            ({
                let slot = old(self).key.slot as int;
                let room = !old(ch).lane(slot).ring.full();
                match r {
                    SendProgress::Done(Ok(())) => old(ch).receiver_alive && room && final(ch).sent(
                        old(ch),
                        slot,
                        value,
                    ),
                    SendProgress::Done(Err(SendError(back))) => !old(ch).receiver_alive && back
                        == value && final(ch).unchanged(old(ch)),
                    SendProgress::Spin(back) => old(ch).receiver_alive && !room && attempt
                        <= PARK_SPINS && back == value && final(ch).unchanged(old(ch)),
                    SendProgress::Park(back, wait) => old(ch).receiver_alive && !room && attempt
                        > PARK_SPINS && back == value && final(ch).awaits_space(
                        old(ch),
                        slot,
                        wait,
                    ),
                }
            }),
    {
        match self.try_send(ch, value) {
            Ok(()) => SendProgress::Done(Ok(())),
            Err(TrySendError::Disconnected(value)) => SendProgress::Done(Err(SendError(value))),
            Err(TrySendError::Full(value)) => {
                if attempt <= PARK_SPINS {
                    SendProgress::Spin(value)
                } else {
                    let wait = ch.await_space(self.key.slot);
                    SendProgress::Park(value, wait)
                }
            },
        }
    }

    /// Send one value, blocking until the deadline while this sender's ring is
    /// full. `expired` tells whether the deadline has passed.
    pub fn send_deadline<T>(&mut self, ch: &mut Channel<T>, value: T, expired: bool) -> (r:
        SendDeadlineProgress<T>)
        requires
            old(ch).wf(),
            old(ch).owns(old(self)),
            !is_waiting(old(ch).lane(old(self).key.slot as int).signal.space_waiter.state),
        ensures
            *final(self) == *old(self),
            final(ch).wf(),
            final(ch).owns(final(self)),
            ({
                let slot = old(self).key.slot as int;
                let room = !old(ch).lane(slot).ring.full();
                match r {
                    SendDeadlineProgress::Done(Ok(())) => old(ch).receiver_alive && room && final(
                        ch).sent(old(ch), slot, value),
                    SendDeadlineProgress::Done(Err(SendTimeoutError::Disconnected(back))) => !old(
                        ch).receiver_alive && back == value && final(ch).unchanged(old(ch)),
                    SendDeadlineProgress::Done(Err(SendTimeoutError::Timeout(back))) => old(
                        ch).receiver_alive && !room && expired && back == value && final(
                        ch).unchanged(old(ch)),
                    SendDeadlineProgress::Park(back, wait) => old(ch).receiver_alive && !room
                        && !expired && back == value && final(ch).awaits_space(old(ch), slot, wait),
                }
            }),
    {
        match self.try_send(ch, value) {
            Ok(()) => SendDeadlineProgress::Done(Ok(())),
            Err(TrySendError::Disconnected(value)) => SendDeadlineProgress::Done(
                Err(SendTimeoutError::Disconnected(value)),
            ),
            Err(TrySendError::Full(value)) => {
                if expired {
                    SendDeadlineProgress::Done(Err(SendTimeoutError::Timeout(value)))
                } else {
                    let wait = ch.await_space(self.key.slot);
                    SendDeadlineProgress::Park(value, wait)
                }
            },
        }
    }

    /// Decide whether a parked sender goes on sleeping. Otherwise its
    /// registration ends.
    pub fn park<T>(&mut self, ch: &mut Channel<T>, wait: &WaitRegistration) -> (sleep: bool)
        requires
            old(ch).wf(),
            old(ch).owns(old(self)),
        ensures
            *final(self) == *old(self),
            final(ch).wf(),
            final(ch).owns(final(self)),
            ({
                let slot = old(self).key.slot as int;
                let cell = old(ch).lane(slot).signal.space_waiter;
                &&& sleep == (cell.state == wait.snapshot)
                &&& final(ch).lane_replaced(
                    old(ch),
                    slot,
                    Lane {
                        signal: LaneSignal {
                            space_waiter: if sleep {
                                cell
                            } else {
                                WaitCell { state: without_waiter(cell.state), ..cell }
                            },
                            ..old(ch).lane(slot).signal
                        },
                        ..old(ch).lane(slot)
                    },
                )
            }),
    {
        let ghost before = *ch;
        let slot: usize = self.key.slot;
        let lane = ch.lanes[slot].as_mut().unwrap();
        let sleep: bool = wait.wait(&mut lane.signal.space_waiter);
        proof {
            let s = slot as int;
            let signal = ch.lane(s).signal;
            assert(ch.lanes@ =~= before.lanes@.update(s, Some(Lane { signal, ..before.lane(s) })));
            before.lemma_signal_changed(ch, s, signal);
        }
        sleep
    }

    /// End the registration of a sender that slept until its deadline.
    pub fn unpark<T>(&mut self, ch: &mut Channel<T>, wait: &WaitRegistration)
        requires
            old(ch).wf(),
            old(ch).owns(old(self)),
        ensures
            *final(self) == *old(self),
            final(ch).wf(),
            final(ch).owns(final(self)),
            ({
                let slot = old(self).key.slot as int;
                let cell = old(ch).lane(slot).signal.space_waiter;
                final(ch).lane_replaced(
                    old(ch),
                    slot,
                    Lane {
                        signal: LaneSignal {
                            space_waiter: WaitCell { state: without_waiter(cell.state), ..cell },
                            ..old(ch).lane(slot).signal
                        },
                        ..old(ch).lane(slot)
                    },
                )
            }),
    {
        let ghost before = *ch;
        let slot: usize = self.key.slot;
        let lane = ch.lanes[slot].as_mut().unwrap();
        wait.wake_up(&mut lane.signal.space_waiter);
        proof {
            let s = slot as int;
            let signal = ch.lane(s).signal;
            assert(ch.lanes@ =~= before.lanes@.update(s, Some(Lane { signal, ..before.lane(s) })));
            before.lemma_signal_changed(ch, s, signal);
        }
    }

    /// Drop the sender.
    pub fn close<T>(self, ch: &mut Channel<T>)
        requires
            old(ch).wf(),
            old(ch).owns(&self),
        ensures
            final(ch).wf(),
            final(ch).sender_dropped(old(ch), self.key.slot as int),
    {
        ch.drop_sender(self.key.slot);
    }

    /// This sender's lane slot.
    pub fn lane_id(&self) -> (slot: usize)
        ensures
            slot == self.key.slot,
    {
        self.key.slot
    }

    /// This sender's lane capacity after rounding.
    pub fn capacity<T>(&self, ch: &Channel<T>) -> (capacity: usize)
        requires
            ch.wf(),
            ch.owns(self),
        ensures
            capacity == ch.capacity,
    {
        assert(ch.lanes@[self.key.slot as int] is Some);
        ch.lanes[self.key.slot].as_ref().unwrap().ring.capacity()
    }

    /// Whether all receivers have been dropped.
    pub fn is_disconnected<T>(&self, ch: &Channel<T>) -> (closed: bool)
        ensures
            closed == !ch.receiver_alive,
    {
        !ch.receiver_alive
    }

    /// How many senders are alive.
    pub fn sender_count<T>(&self, ch: &Channel<T>) -> (senders: usize)
        ensures
            senders == ch.live_senders,
    {
        ch.live_senders
    }

    /// How many receivers are alive.
    pub fn receiver_count<T>(&self, ch: &Channel<T>) -> (receivers: usize)
        ensures
            receivers == ch.live_receivers,
    {
        ch.live_receivers
    }
}

} // verus!
