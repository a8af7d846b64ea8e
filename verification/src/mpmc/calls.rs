//! What each call of an endpoint does, in plain terms: which values it moves,
//! whose slots it frees, and whom it tells.
//!
//! The statements speak of the values in the lanes, of what each receiver has
//! staged, of the free slots of the rings, and of what a sleeper hears: the number
//! that it compares with its snapshot, and how many sleepers are to be signalled.
use vstd::arithmetic::power2::pow2;
use vstd::multiset::Multiset;
use vstd::prelude::*;
use vstd::seq_lib::lemma_multiset_commutative;

use crate::count::{lemma_count_bound, lemma_count_within, lemma_count_zero};
use crate::error::{
    ChannelError, RecvTimeoutError, SendError, SendTimeoutError, TryRecvError, TryRegisterError,
    TrySendError,
};
use crate::mpsc::calls::woken;
use crate::teardown::{Coordinated, Deferred};
use crate::wait::{with_waiter, MultiWaitCell, MultiWaitRegistration, WaitRegistration};

use super::drain::held;
use super::membership::abandoned;
use super::receiver::{lane_told, RecvDeadlineProgress, RecvProgress};
use super::sender::{SendDeadlineProgress, SendProgress};
use super::work::WorkQueue;
use super::{
    channel, channel_with_policy, connected, is_new, taken_places, try_channel, Channel, Receiver,
    Sender,
};

verus! {

/// The values in the lane of `slot`, oldest first; none where no lane is.
pub open spec fn values_in<T>(ch: &Channel<T>, slot: int) -> Seq<T> {
    if 0 <= slot < ch.lanes@.len() && ch.lanes@[slot] is Some {
        ch.lanes@[slot]->Some_0.ring@
    } else {
        Seq::empty()
    }
}

/// Slots of the ring in `slot` that a send can fill.
pub open spec fn room_in<T>(ch: &Channel<T>, slot: int) -> int {
    ch.capacity - ch.lanes@[slot]->Some_0.ring@.len() - ch.lanes@[slot]->Some_0.ring.consumed
}

/// Whether there is a lane in `slot`.
pub open spec fn has_lane<T>(ch: &Channel<T>, slot: int) -> bool {
    0 <= slot < ch.lanes@.len() && ch.lanes@[slot] is Some
}

/// Whether the values in the lanes are the same.
pub open spec fn same_values<T>(before: &Channel<T>, after: &Channel<T>) -> bool {
    forall|t: int| #[trigger] values_in(after, t) == values_in(before, t)
}

/// The values that receiver `id` has staged, those it keeps to itself first.
pub open spec fn staged_at<T>(ch: &Channel<T>, id: int) -> Seq<T> {
    ch.staged_by(id)
}

/// Whether the staged values of all receivers but two are the same.
pub open spec fn same_staged_values<T>(
    before: &Channel<T>,
    after: &Channel<T>,
    a: int,
    b: int,
) -> bool {
    forall|k: int| k != a && k != b ==> #[trigger] staged_at(after, k) == staged_at(before, k)
}

/// Whether the sleepers of a cell heard of something once, and one more of them is
/// to be signalled.
pub open spec fn one_told(before: MultiWaitCell, after: MultiWaitCell) -> bool {
    &&& after.state != before.state
    &&& after.state == before.state + 2 || after.state == before.state + 2 - usize::MAX - 1
    &&& after.waiters == before.waiters
    &&& before.signals < before.waiters ==> after.signals == before.signals + 1
    &&& before.signals == before.waiters ==> after.signals == before.waiters
}

/// Whether the sleepers of a cell heard of something once, and all of them are to be
/// signalled.
pub open spec fn all_told(before: MultiWaitCell, after: MultiWaitCell) -> bool {
    &&& after.state != before.state
    &&& after.state == before.state + 2 || after.state == before.state + 2 - usize::MAX - 1
    &&& after.waiters == before.waiters
    &&& after.signals == before.waiters
}

/// Whether nothing that a value or an endpoint depends on differs but in `slot`.
pub open spec fn same_elsewhere<T>(before: &Channel<T>, after: &Channel<T>, slot: int) -> bool {
    &&& after.lanes@.len() == before.lanes@.len()
    &&& forall|t: int| t != slot ==> #[trigger] values_in(after, t) == values_in(before, t)
    &&& forall|t: int|
        0 <= t < before.lanes@.len() && t != slot ==> #[trigger] after.lanes@[t] == before.lanes@[t]
    &&& forall|k: int| #[trigger] staged_at(after, k) == staged_at(before, k)
    &&& after.left_behind() == before.left_behind()
    &&& after.receivers == before.receivers
    &&& after.live_receivers == before.live_receivers
    &&& after.receiver_alive == before.receiver_alive
    &&& after.capacity == before.capacity
}

/// Whether every lane that was full and has room now has told its sender.
pub open spec fn room_is_told<T>(before: &Channel<T>, after: &Channel<T>) -> bool {
    forall|slot: int| #[trigger]
        has_lane(before, slot) && has_lane(after, slot) && room_in(before, slot) == 0 && room_in(
            after,
            slot,
        ) > 0 ==> woken(
            before.lanes@[slot]->Some_0.signal.space_waiter,
            after.lanes@[slot]->Some_0.signal.space_waiter,
        )
}

/// A lane never keeps 64 or more taken slots reserved, nor as many as its ring
/// has: a lane without values has room.
pub proof fn law_lanes_keep_few_slots_reserved<T>(ch: Channel<T>, slot: int)
    requires
        ch.wf(),
        ch.receiver_alive,
        has_lane(&ch, slot),
    ensures
        ch.lanes@[slot]->Some_0.ring.consumed < 64,
        ch.lanes@[slot]->Some_0.ring.consumed < ch.capacity,
        0 <= room_in(&ch, slot) <= ch.capacity,
        values_in(&ch, slot).len() == 0 ==> room_in(&ch, slot) > 0,
{
    assert(ch.lanes@[slot] is Some);
}

/// Where a received value came from: the front of what the receiver had staged, or
/// else of what dropped receivers left behind, or else of a lane, or else of what a
/// competitor had staged. Up to 64 values come out of a lane at once, and up to
/// eight from a competitor; the receiver returns the first and stages the others in
/// their order.
pub open spec fn value_taken<T>(
    before: &Channel<T>,
    after: &Channel<T>,
    id: int,
    value: T,
) -> bool {
    if staged_at(before, id).len() > 0 {
        &&& seq![value] + staged_at(after, id) == staged_at(before, id)
        &&& same_staged_values(before, after, id, id)
        &&& after.left_behind() == before.left_behind()
        &&& same_values(before, after)
        &&& after.data_waiters == before.data_waiters
    } else if before.left_behind().len() > 0 {
        &&& seq![value] + after.left_behind() == before.left_behind()
        &&& same_staged_values(before, after, -1, -1)
        &&& same_values(before, after)
        &&& after.data_waiters == before.data_waiters
    } else {
        &&& after.left_behind() == before.left_behind()
        &&& {
            ||| exists|slot: int| #[trigger] lane_drained(before, after, id, slot, value)
            ||| (forall|t: int| (#[trigger] values_in(before, t)).len() == 0) && exists|
                victim: int,
            | #[trigger] work_stolen(before, after, id, victim, value)
        }
    }
}

/// Whether receiver `id` took a batch from the lane in `slot`.
pub open spec fn lane_drained<T>(
    before: &Channel<T>,
    after: &Channel<T>,
    id: int,
    slot: int,
    value: T,
) -> bool {
    &&& seq![value] + staged_at(after, id) + values_in(after, slot) == values_in(before, slot)
    &&& staged_at(after, id).len() < 64
    &&& before.lanes@[slot]->Some_0.cached_available == 0 && values_in(after, slot).len() > 0
        ==> staged_at(after, id).len() == 63
    &&& forall|t: int| t != slot ==> #[trigger] values_in(after, t) == values_in(before, t)
    &&& same_staged_values(before, after, id, id)
    &&& staged_at(after, id).len() > 0 ==> all_told(before.data_waiters, after.data_waiters)
    &&& staged_at(after, id).len() == 0 && values_in(after, slot).len() > 0 ==> one_told(
        before.data_waiters,
        after.data_waiters,
    ) || all_told(before.data_waiters, after.data_waiters)
}

/// Whether receiver `id` took a batch from what receiver `victim` had staged.
pub open spec fn work_stolen<T>(
    before: &Channel<T>,
    after: &Channel<T>,
    id: int,
    victim: int,
    value: T,
) -> bool {
    &&& victim != id
    &&& seq![value] + staged_at(after, id) + staged_at(after, victim) == staged_at(before, victim)
    &&& staged_at(after, id).len() <= 7
    &&& 2 * staged_at(after, id).len() <= staged_at(before, victim).len()
    &&& same_staged_values(before, after, id, victim)
    &&& same_values(before, after)
}

/// One receive, in plain terms.
proof fn lemma_answers<T>(
    before: &Channel<T>,
    after: &Channel<T>,
    id: int,
    result: Result<T, TryRecvError>,
)
    requires
        before.wf(),
        before.receiver_alive,
        after.wf(),
        after.answers(before, id, result),
    ensures
        receive_done(before, after, id, result),
{
    assert forall|t: int| #[trigger] values_in(after, t) == after.unread_in(t) by {}
    assert forall|t: int| #[trigger] values_in(before, t) == before.unread_in(t) by {}
    assert forall|slot: int| #[trigger]
        has_lane(before, slot) && has_lane(after, slot) && room_in(before, slot) == 0 && room_in(
            after,
            slot,
        ) > 0 implies woken(
        before.lanes@[slot]->Some_0.signal.space_waiter,
        after.lanes@[slot]->Some_0.signal.space_waiter,
    ) by {
        assert(before.lanes@[slot] is Some);
        assert(after.lanes@[slot] is Some);
        assert(lane_told(before.lane(slot), after.lane(slot)));
        assert(held(before.lane(slot)) == before.capacity);
        assert(held(after.lane(slot)) < before.capacity);
    }
    match result {
        Ok(value) => {
            assert(after.contents().insert(value) =~= before.contents());
            lemma_took(before, after, id, value);
        },
        Err(_) => {
            assert forall|t: int| #[trigger] values_in(after, t) == values_in(before, t) by {
                assert(after.unread_in(t) == before.unread_in(t));
            }
            assert forall|k: int| #[trigger] staged_at(after, k) == staged_at(before, k) by {
                assert(after.staged_by(k) == before.staged_by(k));
            }
        },
    }
}

/// What a receive that does not block did. Where nothing hinders, which is where
/// little upkeep is due, it gets a value just when there is one, and otherwise
/// reports disconnection just when no sender is left.
pub open spec fn receive_done<T>(
    before: &Channel<T>,
    after: &Channel<T>,
    id: int,
    result: Result<T, TryRecvError>,
) -> bool {
    &&& result matches Ok(value) ==> after.contents().insert(value) == before.contents()
        && value_taken(before, after, id, value)
    &&& result is Err ==> after.contents() == before.contents() && same_values(before, after)
        && same_staged_values(before, after, -1, -1) && after.left_behind() == before.left_behind()
    &&& result == Err::<T, TryRecvError>(TryRecvError::Disconnected) ==> before.contents()
        == Multiset::<T>::empty() && before.live_senders == 0
    &&& before.contents() == Multiset::<T>::empty() ==> result is Err
    &&& before.contents() == Multiset::<T>::empty() && before.live_senders > 0 ==> result == Err::<
        T,
        TryRecvError,
    >(TryRecvError::Empty)
    &&& before.upkeep() < 2 && before.contents() != Multiset::<T>::empty() ==> result is Ok
    &&& before.upkeep() < 2 && before.contents() == Multiset::<T>::empty() && before.live_senders
        == 0 ==> result == Err::<T, TryRecvError>(TryRecvError::Disconnected)
    &&& result == Err::<T, TryRecvError>(TryRecvError::Empty) && !(before.contents() == Multiset::<
        T,
    >::empty() && before.live_senders > 0) ==> after.upkeep() + 2 <= before.upkeep()
    &&& room_is_told(before, after)
    &&& after.live_senders == before.live_senders
    &&& after.live_receivers == before.live_receivers
    &&& after.receiver_alive
    &&& after.capacity == before.capacity
    &&& after.lanes@.len() == before.lanes@.len()
    &&& after.data_waiters.waiters == before.data_waiters.waiters
}

/// A value taken, in plain terms.
proof fn lemma_took<T>(before: &Channel<T>, after: &Channel<T>, id: int, value: T)
    requires
        before.wf(),
        before.receiver_alive,
        after.wf(),
        after.answers(before, id, Ok(value)),
    ensures
        value_taken(before, after, id, value),
{
    assert forall|t: int| #[trigger] values_in(after, t) == after.unread_in(t) by {}
    assert forall|t: int| #[trigger] values_in(before, t) == before.unread_in(t) by {}
    if !before.nothing_own(id) {
        assert forall|t: int| #[trigger] values_in(after, t) == values_in(before, t) by {
            assert(after.unread_in(t) == before.unread_in(t));
        }
        assert forall|k: int| k != id || staged_at(before, id).len() == 0 implies
            #[trigger] staged_at(after, k) == staged_at(before, k) by {
            assert(after.staged_by(k) == before.staged_by(k));
        }
        if staged_at(before, id).len() > 0 {
            assert(seq![value] + staged_at(after, id) =~= staged_at(before, id));
        } else {
            assert(seq![value] + after.left_behind() =~= before.left_behind());
        }
        assert(after.wake_due(before) is Nobody) by {
            assert forall|t: int| !#[trigger] after.gave_many(before, t) by {
                assert(after.unread_in(t) == before.unread_in(t));
            }
            assert forall|t: int| !#[trigger] after.gave_some(before, t) by {
                assert(after.unread_in(t) == before.unread_in(t));
            }
            assert(taken_places(after.lanes@) == taken_places(before.lanes@));
        }
    } else if exists|slot: int| #[trigger]
        after.drained(before, id, slot, value) && after.served(before, id, slot) && after.settled(
            before,
            Some(slot),
        ) {
        let slot = choose|slot: int| #[trigger]
            after.drained(before, id, slot, value) && after.served(before, id, slot)
                && after.settled(before, Some(slot));
        let values = values_in(before, slot);
        assert(seq![value] + staged_at(after, id) + values_in(after, slot) =~= values);
        assert forall|t: int| t != slot implies #[trigger] values_in(after, t) == values_in(
            before,
            t,
        ) by {
            assert(after.unread_in(t) == before.unread_in(t));
        }
        assert forall|k: int| k != id implies #[trigger] staged_at(after, k) == staged_at(
            before,
            k,
        ) by {
            assert(after.staged_by(k) == before.staged_by(k));
        }
        assert(before.lanes@[slot] is Some);
        if staged_at(after, id).len() > 0 {
            assert(after.gave_many(before, slot));
        } else if values_in(after, slot).len() > 0 {
            assert(after.gave_some(before, slot));
        }
        lemma_told(before, after);
        assert(lane_drained(before, after, id, slot, value));
    } else {
        assert(after.took_staged(before, id, value));
        let p = choose|p: int| #[trigger] after.stole_from(before, id, p, value);
        let victim = before.alive()[p];
        assert(after.stole(before, id, victim, value));
        assert(seq![value] + staged_at(after, id) + staged_at(after, victim) =~= staged_at(
            before,
            victim,
        ));
        assert forall|t: int| #[trigger] values_in(after, t) == values_in(before, t) by {
            assert(after.unread_in(t) == before.unread_in(t));
        }
        assert forall|t: int| (#[trigger] values_in(before, t)).len() == 0 by {
            assert(before.unread_in(t).len() == 0);
        }
        assert forall|k: int| k != id && k != victim implies #[trigger] staged_at(after, k)
            == staged_at(before, k) by {
            assert(after.staged_by(k) == before.staged_by(k));
        }
        assert(work_stolen(before, after, id, victim, value));
    }
}

/// Whom a receive tells, in plain terms.
proof fn lemma_told<T>(before: &Channel<T>, after: &Channel<T>)
    requires
        before.wf(),
        after.announced(before),
    ensures
        after.wake_due(before) is One ==> one_told(before.data_waiters, after.data_waiters),
        after.wake_due(before) is All ==> all_told(before.data_waiters, after.data_waiters),
        after.wake_due(before) is Nobody ==> after.data_waiters == before.data_waiters,
{
}

/// A receive that does not block takes one value out of the channel, if any, from
/// the front of where it stands, and tells whom it should.
pub proof fn law_try_recv<T>(
    rx: &mut Receiver,
    ch: &mut Channel<T>,
    result: Result<T, TryRecvError>,
)
    requires
        call_ensures(Receiver::try_recv::<T>, (rx, ch), result),
        old(ch).wf(),
        old(ch).receiver_alive,
        old(ch).knows(old(rx).id as int),
    ensures
        receive_done(old(ch), final(ch), old(rx).id as int, result),
{
    lemma_answers(old(ch), final(ch), old(rx).id as int, result);
}

/// A send that does not block succeeds just when a receiver is there and the ring
/// has room. Then the value stands behind the others of its lane, no other lane
/// differs, and an idle lane has one receiver signalled. Otherwise the value comes
/// back and nothing differs.
pub proof fn law_try_send<T>(
    tx: &mut Sender,
    ch: &mut Channel<T>,
    value: T,
    result: Result<(), TrySendError<T>>,
)
    requires
        call_ensures(Sender::try_send::<T>, (tx, ch, value), result),
        old(ch).wf(),
        old(ch).owns(old(tx)),
    ensures
        ({
            let slot = old(tx).key.slot as int;
            &&& result is Ok <==> old(ch).receiver_alive && room_in(old(ch), slot) > 0
            &&& result == Err::<(), TrySendError<T>>(TrySendError::Full(value)) <==> old(ch).receiver_alive && room_in(old(ch), slot) == 0
            &&& result == Err::<(), TrySendError<T>>(TrySendError::Disconnected(value)) <==> !old(ch).receiver_alive
            &&& result is Ok ==> send_done(old(ch), final(ch), slot, value)
            &&& result is Err ==> nothing_done(old(ch), final(ch))
        }),
{
    let slot = old(tx).key.slot as int;
    assert(old(ch).lanes@[slot] is Some);
    if result is Ok {
        lemma_sent(old(ch), final(ch), slot, value);
    } else {
        lemma_unchanged(old(ch), final(ch));
    }
}

/// What a send through `slot` did.
pub open spec fn send_done<T>(
    before: &Channel<T>,
    after: &Channel<T>,
    slot: int,
    value: T,
) -> bool {
    &&& values_in(after, slot) == values_in(before, slot).push(value)
    &&& room_in(after, slot) == room_in(before, slot) - 1
    &&& same_elsewhere(before, after, slot)
    &&& after.lanes@[slot]->Some_0.signal.pending
    &&& after.lanes@[slot]->Some_0.signal.space_waiter
        == before.lanes@[slot]->Some_0.signal.space_waiter
    &&& !before.lanes@[slot]->Some_0.signal.pending ==> one_told(before.data_waiters, after.data_waiters)
    &&& before.lanes@[slot]->Some_0.signal.pending ==> after.data_waiters == before.data_waiters
    &&& after.contents() == before.contents().insert(value)
    &&& after.live_senders == before.live_senders
    &&& after.registered_lanes == before.registered_lanes
}

/// Whether a step left values, free slots and waiters as they were.
pub open spec fn nothing_done<T>(before: &Channel<T>, after: &Channel<T>) -> bool {
    &&& after.lanes@ == before.lanes@
    &&& forall|t: int| #[trigger] values_in(after, t) == values_in(before, t)
    &&& forall|k: int| #[trigger] staged_at(after, k) == staged_at(before, k)
    &&& after.left_behind() == before.left_behind()
    &&& after.data_waiters == before.data_waiters
    &&& after.live_senders == before.live_senders
    &&& after.registered_lanes == before.registered_lanes
    &&& after.receiver_alive == before.receiver_alive
    &&& after.capacity == before.capacity
}

/// A send, in plain terms.
proof fn lemma_sent<T>(before: &Channel<T>, after: &Channel<T>, slot: int, value: T)
    requires
        before.wf(),
        before.receiver_alive,
        before.present(slot),
        after.sent(before, slot, value),
    ensures
        send_done(before, after, slot, value),
{
    assert(before.lanes@[slot] is Some);
    assert forall|t: int| t != slot implies #[trigger] values_in(after, t) == values_in(
        before,
        t,
    ) by {
        if 0 <= t < before.lanes@.len() {
            assert(after.lanes@[t] == before.lanes@[t]);
        }
    }
    assert forall|k: int| #[trigger] staged_at(after, k) == staged_at(before, k) by {}
}

/// Nothing, in plain terms.
proof fn lemma_unchanged<T>(before: &Channel<T>, after: &Channel<T>)
    requires
        after.unchanged(before),
    ensures
        nothing_done(before, after),
{
    assert(after.lanes@ =~= before.lanes@);
}

/// A blocking send goes as one that does not block does, tries again up to 128 times
/// after the first while the ring is full, and then registers for space.
pub proof fn law_send<T>(
    tx: &mut Sender,
    ch: &mut Channel<T>,
    value: T,
    attempt: usize,
    r: SendProgress<T>,
)
    requires
        call_ensures(Sender::send::<T>, (tx, ch, value, attempt), r),
        old(ch).wf(),
        old(ch).owns(old(tx)),
    ensures
        ({
            let slot = old(tx).key.slot as int;
            let room = room_in(old(ch), slot) > 0;
            let alive = old(ch).receiver_alive;
            &&& (r matches SendProgress::Done(Ok(_))) <==> alive && room
            &&& r == SendProgress::<T>::Done(Err(SendError(value))) <==> !alive
            &&& r == SendProgress::<T>::Spin(value) <==> alive && !room && attempt <= 128
            &&& r is Park <==> alive && !room && attempt > 128
            &&& alive && room ==> send_done(old(ch), final(ch), slot, value)
            &&& !alive || (!room && attempt <= 128) ==> nothing_done(old(ch), final(ch))
            &&& r matches SendProgress::Park(back, wait) ==> back == value && waits_for_room(
                old(ch),
                final(ch),
                slot,
                wait,
            )
        }),
{
    let slot = old(tx).key.slot as int;
    assert(old(ch).lanes@[slot] is Some);
    match r {
        SendProgress::Done(Ok(_)) => {
            lemma_sent(old(ch), final(ch), slot, value);
        },
        SendProgress::Park(_, wait) => {
            lemma_awaits_space(old(ch), final(ch), slot, wait);
        },
        _ => {
            lemma_unchanged(old(ch), final(ch));
        },
    }
}

/// Whether the sender of `slot` has registered for space, and nothing else happened.
pub open spec fn waits_for_room<T>(
    before: &Channel<T>,
    after: &Channel<T>,
    slot: int,
    wait: WaitRegistration,
) -> bool {
    let cell = before.lanes@[slot]->Some_0.signal.space_waiter;
    let now = after.lanes@[slot]->Some_0.signal.space_waiter;
    &&& has_lane(after, slot)
    &&& wait.snapshot == now.state
    &&& now.state % 2 == 1
    &&& now.state / 2 == cell.state / 2
    &&& now.waker == cell.waker
    &&& values_in(after, slot) == values_in(before, slot)
    &&& room_in(after, slot) == room_in(before, slot)
    &&& same_elsewhere(before, after, slot)
    &&& after.data_waiters == before.data_waiters
    &&& after.live_senders == before.live_senders
}

/// Registering for space, in plain terms.
proof fn lemma_awaits_space<T>(
    before: &Channel<T>,
    after: &Channel<T>,
    slot: int,
    wait: WaitRegistration,
)
    requires
        before.wf(),
        before.present(slot),
        after.awaits_space(before, slot, wait),
    ensures
        waits_for_room(before, after, slot, wait),
{
    assert forall|t: int| t != slot implies #[trigger] values_in(after, t) == values_in(
        before,
        t,
    ) by {}
    let state = before.lanes@[slot]->Some_0.signal.space_waiter.state;
    assert(with_waiter(state) % 2 == 1 && with_waiter(state) / 2 == state / 2);
}

/// A send with a deadline goes as one that does not block does, and while the ring
/// is full it sleeps until the deadline and times out then.
pub proof fn law_send_deadline<T>(
    tx: &mut Sender,
    ch: &mut Channel<T>,
    value: T,
    expired: bool,
    r: SendDeadlineProgress<T>,
)
    requires
        call_ensures(Sender::send_deadline::<T>, (tx, ch, value, expired), r),
        old(ch).wf(),
        old(ch).owns(old(tx)),
    ensures
        ({
            let slot = old(tx).key.slot as int;
            let room = room_in(old(ch), slot) > 0;
            let alive = old(ch).receiver_alive;
            &&& (r matches SendDeadlineProgress::Done(Ok(_))) <==> alive && room
            &&& r == SendDeadlineProgress::<T>::Done(Err(SendTimeoutError::Disconnected(value)))
                <==> !alive
            &&& r == SendDeadlineProgress::<T>::Done(Err(SendTimeoutError::Timeout(value)))
                <==> alive && !room && expired
            &&& r is Park <==> alive && !room && !expired
            &&& alive && room ==> send_done(old(ch), final(ch), slot, value)
            &&& !alive || (!room && expired) ==> nothing_done(old(ch), final(ch))
            &&& r matches SendDeadlineProgress::Park(back, wait) ==> back == value
                && waits_for_room(old(ch), final(ch), slot, wait)
        }),
{
    let slot = old(tx).key.slot as int;
    assert(old(ch).lanes@[slot] is Some);
    match r {
        SendDeadlineProgress::Done(Ok(_)) => {
            lemma_sent(old(ch), final(ch), slot, value);
        },
        SendDeadlineProgress::Park(_, wait) => {
            lemma_awaits_space(old(ch), final(ch), slot, wait);
        },
        _ => {
            lemma_unchanged(old(ch), final(ch));
        },
    }
}

/// What a blocking receive that is over did, or one that goes on.
pub open spec fn blocking_receive_done<T>(
    before: &Channel<T>,
    after: &Channel<T>,
    id: int,
    r: RecvProgress<T>,
) -> bool {
    match r {
        RecvProgress::Done(Ok(value)) => receive_done(before, after, id, Ok(value)),
        RecvProgress::Done(Err(_)) => receive_done(
            before,
            after,
            id,
            Err(TryRecvError::Disconnected),
        ),
        RecvProgress::Spin => receive_done(before, after, id, Err(TryRecvError::Empty)),
        RecvProgress::Park(wait) => asleep(before, after, wait),
    }
}

/// Whether a receiver went to sleep: the channel is empty, a sender is there, no lane
/// waits to be looked at, and there is one more sleeper.
pub open spec fn asleep<T>(
    before: &Channel<T>,
    after: &Channel<T>,
    wait: MultiWaitRegistration,
) -> bool {
    &&& before.contents() == Multiset::<T>::empty()
    &&& after.contents() == Multiset::<T>::empty()
    &&& before.live_senders > 0
    &&& after.live_senders == before.live_senders
    &&& forall|t: int| #[trigger]
        has_lane(after, t) ==> !after.lanes@[t]->Some_0.signal.pending
    &&& wait.snapshot == after.data_waiters.state
    &&& wait.snapshot % 2 == 1
    &&& after.data_waiters.waiters == before.data_waiters.waiters + 1
}

/// Falling asleep, in plain terms.
proof fn lemma_asleep<T>(
    before: &Channel<T>,
    after: &Channel<T>,
    id: int,
    wait: MultiWaitRegistration,
)
    requires
        before.wf(),
        before.receiver_alive,
        after.wf(),
        after.awaits_data(before, id, wait),
    ensures
        asleep(before, after, wait),
{
    let looked = choose|looked: Channel<T>| #[trigger]
        looked.answers(before, id, Err(TryRecvError::Empty)) && *after == (Channel {
            data_waiters: MultiWaitCell {
                state: with_waiter(looked.data_waiters.state),
                waiters: after.data_waiters.waiters,
                signals: looked.data_waiters.signals,
            },
            ..looked
        });
    looked.lemma_waiting(after, 0);
    assert forall|t: int| #[trigger] has_lane(after, t) implies
        !after.lanes@[t]->Some_0.signal.pending by {
        assert(!after.pending(t));
    }
    assert(looked.kept(before));
}

/// A blocking receive ends as one that does not block does, tries again while lanes
/// are in sight and up to 128 times after the first, and goes to sleep only on an
/// empty channel with senders.
pub proof fn law_recv<T>(
    rx: &mut Receiver,
    ch: &mut Channel<T>,
    attempt: usize,
    r: RecvProgress<T>,
)
    requires
        call_ensures(Receiver::recv::<T>, (rx, ch, attempt), r),
        old(ch).wf(),
        old(ch).receiver_alive,
        old(ch).knows(old(rx).id as int),
    ensures
        blocking_receive_done(old(ch), final(ch), old(rx).id as int, r),
        r is Park ==> attempt > 128,
        r is Spin && !old(ch).lane_in_sight() ==> attempt <= 128,
{
    let id = old(rx).id as int;
    match r {
        RecvProgress::Done(Ok(value)) => lemma_answers(old(ch), final(ch), id, Ok(value)),
        RecvProgress::Done(Err(_)) => lemma_answers(
            old(ch),
            final(ch),
            id,
            Err(TryRecvError::Disconnected),
        ),
        RecvProgress::Spin => lemma_answers(old(ch), final(ch), id, Err(TryRecvError::Empty)),
        RecvProgress::Park(wait) => lemma_asleep(old(ch), final(ch), id, wait),
    }
}

/// A receive with a deadline ends as one that does not block does. On an empty
/// channel with senders it sleeps until the deadline and times out then.
pub proof fn law_recv_deadline<T>(
    rx: &mut Receiver,
    ch: &mut Channel<T>,
    expired: bool,
    r: RecvDeadlineProgress<T>,
)
    requires
        call_ensures(Receiver::recv_deadline::<T>, (rx, ch, expired), r),
        old(ch).wf(),
        old(ch).receiver_alive,
        old(ch).knows(old(rx).id as int),
    ensures
        ({
            let id = old(rx).id as int;
            match r {
                RecvDeadlineProgress::Done(Ok(value)) => receive_done(
                    old(ch),
                    final(ch),
                    id,
                    Ok(value),
                ),
                RecvDeadlineProgress::Done(Err(RecvTimeoutError::Disconnected)) => receive_done(
                    old(ch),
                    final(ch),
                    id,
                    Err(TryRecvError::Disconnected),
                ),
                RecvDeadlineProgress::Done(Err(RecvTimeoutError::Timeout)) => expired
                    && receive_done(old(ch), final(ch), id, Err(TryRecvError::Empty)) && old(
                    ch).contents() == Multiset::<T>::empty() && old(ch).live_senders > 0,
                RecvDeadlineProgress::Again => receive_done(
                    old(ch),
                    final(ch),
                    id,
                    Err(TryRecvError::Empty),
                ) && old(ch).lane_in_sight(),
                RecvDeadlineProgress::Park(wait) => !expired && asleep(old(ch), final(ch), wait),
            }
        }),
{
    let id = old(rx).id as int;
    match r {
        RecvDeadlineProgress::Done(Ok(value)) => lemma_answers(old(ch), final(ch), id, Ok(value)),
        RecvDeadlineProgress::Done(Err(RecvTimeoutError::Disconnected)) => lemma_answers(
            old(ch),
            final(ch),
            id,
            Err(TryRecvError::Disconnected),
        ),
        RecvDeadlineProgress::Park(wait) => lemma_asleep(old(ch), final(ch), id, wait),
        _ => lemma_answers(old(ch), final(ch), id, Err(TryRecvError::Empty)),
    }
}

/// A parked sender sleeps on just while the number in its cell is its snapshot.
pub proof fn law_sender_park<T>(
    tx: &mut Sender,
    ch: &mut Channel<T>,
    wait: &WaitRegistration,
    sleep: bool,
)
    requires
        call_ensures(Sender::park::<T>, (tx, ch, wait), sleep),
        old(ch).wf(),
        old(ch).owns(old(tx)),
    ensures
        ({
            let slot = old(tx).key.slot as int;
            let cell = old(ch).lanes@[slot]->Some_0.signal.space_waiter;
            let now = final(ch).lanes@[slot]->Some_0.signal.space_waiter;
            &&& sleep == (cell.state == wait.snapshot)
            &&& sleep ==> final(ch).lanes@ == old(ch).lanes@
            &&& !sleep ==> now.state % 2 == 0 && now.state / 2 == cell.state / 2
            &&& now.waker == cell.waker
            &&& forall|t: int| #[trigger] values_in(final(ch), t) == values_in(old(ch), t)
            &&& room_in(final(ch), slot) == room_in(old(ch), slot)
            &&& final(ch).data_waiters == old(ch).data_waiters
        }),
{
    let slot = old(tx).key.slot as int;
    assert(old(ch).lanes@[slot] is Some);
    if sleep {
        assert(final(ch).lanes@ =~= old(ch).lanes@);
    }
}

/// A parked receiver sleeps on just while the number in the cell is its snapshot. One
/// that leaves is counted no more, and takes the waiter bit along if it was the last.
pub proof fn law_receiver_park<T>(
    rx: &mut Receiver,
    ch: &mut Channel<T>,
    wait: &MultiWaitRegistration,
    sleep: bool,
)
    requires
        call_ensures(Receiver::park::<T>, (rx, ch, wait), sleep),
        old(ch).wf(),
        old(ch).data_waiters.waiters > 0,
    ensures
        sleep == (old(ch).data_waiters.state == wait.snapshot),
        sleep ==> *final(ch) == *old(ch),
        !sleep ==> waiter_left(old(ch).data_waiters, final(ch).data_waiters),
        final(ch).lanes == old(ch).lanes,
        final(ch).receivers == old(ch).receivers,
        final(ch).live_senders == old(ch).live_senders,
{
}

/// Whether one waiter less is counted: the waiter bit goes with the last, the
/// notifications stay counted, and no more are to be signalled than there are.
pub open spec fn waiter_left(before: MultiWaitCell, after: MultiWaitCell) -> bool {
    &&& after.waiters == before.waiters - 1
    &&& after.state / 2 == before.state / 2
    &&& after.state % 2 == 1 <==> after.waiters > 0
    &&& after.signals <= after.waiters
    &&& before.signals < before.waiters ==> after.signals == before.signals
}

/// The end of a wait takes the waiter out of the count, and does nothing else.
pub proof fn law_unpark<T>(
    tx: &mut Sender,
    tx_ch: &mut Channel<T>,
    space: &WaitRegistration,
    rx: &mut Receiver,
    rx_ch: &mut Channel<T>,
    data: &MultiWaitRegistration,
)
    requires
        call_ensures(Sender::unpark::<T>, (tx, tx_ch, space), ()),
        call_ensures(Receiver::unpark::<T>, (rx, rx_ch, data), ()),
        old(tx_ch).wf(),
        old(tx_ch).owns(old(tx)),
        old(rx_ch).wf(),
        old(rx_ch).data_waiters.waiters > 0,
    ensures
        ({
            let slot = old(tx).key.slot as int;
            let cell = old(tx_ch).lanes@[slot]->Some_0.signal.space_waiter;
            let now = final(tx_ch).lanes@[slot]->Some_0.signal.space_waiter;
            &&& now.state % 2 == 0 && now.state / 2 == cell.state / 2 && now.waker == cell.waker
            &&& forall|t: int| #[trigger] values_in(final(tx_ch), t) == values_in(old(tx_ch), t)
            &&& room_in(final(tx_ch), slot) == room_in(old(tx_ch), slot)
        }),
        waiter_left(old(rx_ch).data_waiters, final(rx_ch).data_waiters),
        final(rx_ch).lanes == old(rx_ch).lanes,
        final(rx_ch).receivers == old(rx_ch).receivers,
{
    assert(old(tx_ch).lanes@[old(tx).key.slot as int] is Some);
}

/// What is to be signalled is handed out once.
pub proof fn law_take_signals<T>(ch: &mut Channel<T>, n: usize)
    requires
        call_ensures(Channel::<T>::take_signals, (ch,), n),
    ensures
        n == old(ch).data_waiters.signals,
        final(ch).data_waiters.signals == 0,
        final(ch).data_waiters.state == old(ch).data_waiters.state,
        final(ch).data_waiters.waiters == old(ch).data_waiters.waiters,
        final(ch).lanes == old(ch).lanes,
        final(ch).receivers == old(ch).receivers,
{
}

/// Dropping a sender tells receivers: one of them, or all if it was the last sender.
/// While a receiver is there the unread values stay to be received; otherwise the
/// lane goes with its sender.
pub proof fn law_sender_close<T>(tx: Sender, ch: &mut Channel<T>)
    requires
        call_ensures(Sender::close::<T>, (tx, ch), ()),
        old(ch).wf(),
        old(ch).owns(&tx),
    ensures
        ({
            let slot = tx.key.slot as int;
            &&& final(ch).live_senders == old(ch).live_senders - 1
            &&& final(ch).live_senders > 0 ==> one_told(
                old(ch).data_waiters,
                final(ch).data_waiters,
            )
            &&& final(ch).live_senders == 0 ==> all_told(
                old(ch).data_waiters,
                final(ch).data_waiters,
            )
            &&& same_elsewhere(old(ch), final(ch), slot)
            &&& old(ch).receiver_alive ==> {
                &&& has_lane(final(ch), slot)
                &&& values_in(final(ch), slot) == values_in(old(ch), slot)
                &&& final(ch).lanes@[slot]->Some_0.ring.producer_closed
                &&& final(ch).lanes@[slot]->Some_0.signal.pending
                &&& final(ch).contents() == old(ch).contents()
            }
            &&& !old(ch).receiver_alive ==> !has_lane(final(ch), slot)
            &&& final(ch).registered_lanes == old(ch).registered_lanes
        }),
{
    let slot = tx.key.slot as int;
    assert(old(ch).lanes@[slot] is Some);
    assert forall|t: int| t != slot implies #[trigger] values_in(final(ch), t) == values_in(
        old(ch),
        t,
    ) by {
        if 0 <= t < old(ch).lanes@.len() {
            assert(final(ch).lanes@[t] == old(ch).lanes@[t]);
        }
    }
    assert forall|k: int| #[trigger] staged_at(final(ch), k) == staged_at(old(ch), k) by {}
    if old(ch).receiver_alive {
        assert(final(ch).lanes@[slot]->Some_0.ring@ =~= old(ch).lanes@[slot]->Some_0.ring@);
    }
}

/// A clone of a receiver has nothing staged. What the first one kept to itself stands
/// behind what others could steal from it before, and no value moves otherwise.
pub proof fn law_clone<T>(rx: &Receiver, ch: &mut Channel<T>, more: Receiver)
    requires
        call_ensures(Receiver::clone::<T>, (rx, ch), more),
        old(ch).wf(),
        old(ch).receiver_alive,
        old(ch).knows(rx.id as int),
    ensures
        more.id != rx.id,
        more.capacity == rx.capacity,
        !old(ch).knows(more.id as int),
        final(ch).knows(more.id as int),
        final(ch).knows(rx.id as int),
        final(ch).live_receivers == old(ch).live_receivers + 1,
        staged_at(final(ch), more.id as int).len() == 0,
        final(ch).receivers@[rx.id as int]->Some_0.private@.len() == 0,
        final(ch).receivers@[more.id as int]->Some_0.private@.len() == 0,
        staged_at(final(ch), rx.id as int).to_multiset() == staged_at(
            old(ch),
            rx.id as int,
        ).to_multiset(),
        same_staged_values(old(ch), final(ch), rx.id as int, more.id as int),
        final(ch).left_behind() == old(ch).left_behind(),
        same_values(old(ch), final(ch)),
        final(ch).lanes == old(ch).lanes,
        final(ch).contents() == old(ch).contents(),
        final(ch).data_waiters == old(ch).data_waiters,
        final(ch).live_senders == old(ch).live_senders,
{
    let from = rx.id as int;
    let kept = old(ch).receiver(from).private@;
    let shared = old(ch).stealable(from);
    lemma_multiset_commutative(kept, shared);
    lemma_multiset_commutative(shared, kept);
    assert(staged_at(final(ch), from).to_multiset() =~= staged_at(old(ch), from).to_multiset());
    assert forall|k: int| k != from && k != more.id implies #[trigger] staged_at(final(ch), k)
        == staged_at(old(ch), k) by {
        assert(final(ch).staged_by(k) == old(ch).staged_by(k));
    }
}

/// Dropping a receiver loses nothing while another is there: what it had staged
/// stands behind what was left behind before, and all sleepers are signalled if there
/// was anything. The last receiver tells every live sender, and drops what was
/// staged; a coordinated channel then holds no value, and any other keeps a live
/// sender's values.
pub proof fn law_receiver_close<T>(rx: Receiver, ch: &mut Channel<T>)
    requires
        call_ensures(Receiver::close::<T>, (rx, ch), ()),
        old(ch).wf(),
        old(ch).receiver_alive,
        old(ch).knows(rx.id as int),
    ensures
        ({
            let id = rx.id as int;
            &&& final(ch).live_receivers == old(ch).live_receivers - 1
            &&& !final(ch).knows(id)
            &&& final(ch).receiver_alive == (final(ch).live_receivers > 0)
            &&& final(ch).live_senders == old(ch).live_senders
            &&& final(ch).live_receivers > 0 ==> {
                &&& final(ch).left_behind() == old(ch).left_behind() + staged_at(old(ch), id)
                &&& same_staged_values(old(ch), final(ch), id, id)
                &&& same_values(old(ch), final(ch))
                &&& final(ch).contents() == old(ch).contents()
                &&& staged_at(old(ch), id).len() > 0 || old(ch).live_senders == 0 ==> all_told(
                    old(ch).data_waiters,
                    final(ch).data_waiters,
                )
                &&& staged_at(old(ch), id).len() == 0 && old(ch).live_senders > 0 ==> final(
                    ch).data_waiters == old(ch).data_waiters
            }
            &&& final(ch).live_receivers == 0 ==> {
                &&& final(ch).left_behind().len() == 0
                &&& all_told(old(ch).data_waiters, final(ch).data_waiters)
                &&& forall|t: int| #[trigger]
                    has_lane(final(ch), t) <==> has_lane(old(ch), t) && !old(
                        ch).lanes@[t]->Some_0.ring.producer_closed
                &&& forall|t: int| #[trigger]
                    has_lane(final(ch), t) ==> woken(
                        old(ch).lanes@[t]->Some_0.signal.space_waiter,
                        final(ch).lanes@[t]->Some_0.signal.space_waiter,
                    )
                &&& old(ch).coordinated ==> forall|t: int|
                    (#[trigger] values_in(final(ch), t)).len() == 0
                &&& !old(ch).coordinated ==> forall|t: int| #[trigger]
                    has_lane(final(ch), t) ==> values_in(final(ch), t) == values_in(old(ch), t)
            }
        }),
{
    let id = rx.id as int;
    if old(ch).live_receivers > 1 {
        assert forall|t: int| #[trigger] values_in(final(ch), t) == values_in(old(ch), t) by {}
        assert forall|k: int| k != id implies #[trigger] staged_at(final(ch), k) == staged_at(
            old(ch),
            k,
        ) by {
            assert(final(ch).staged_by(k) == old(ch).staged_by(k));
        }
    } else {
        lemma_count_zero(taken_places(old(ch).receivers@));
        assert(taken_places(old(ch).receivers@)[id]);
        assert(old(ch).live_receivers == 1);
        assert forall|t: int|
            0 <= t < old(ch).lanes@.len() implies abandoned(
            old(ch).lanes@[t],
            #[trigger] final(ch).lanes@[t],
        ) && (old(ch).lanes@[t] is Some ==> old(ch).lanes@[t]->Some_0.ring.coordinated == old(
            ch).coordinated) by {}
        assert forall|t: int| #[trigger]
            has_lane(final(ch), t) <==> has_lane(old(ch), t) && !old(
                ch).lanes@[t]->Some_0.ring.producer_closed by {
            if 0 <= t < old(ch).lanes@.len() {
                assert(abandoned(old(ch).lanes@[t], final(ch).lanes@[t]));
            }
        }
        assert forall|t: int| #[trigger] has_lane(final(ch), t) implies woken(
            old(ch).lanes@[t]->Some_0.signal.space_waiter,
            final(ch).lanes@[t]->Some_0.signal.space_waiter,
        ) && (!old(ch).coordinated ==> values_in(final(ch), t) == values_in(old(ch), t)) && (old(
            ch).coordinated ==> values_in(final(ch), t).len() == 0) by {
            assert(abandoned(old(ch).lanes@[t], final(ch).lanes@[t]));
        }
        if old(ch).coordinated {
            assert forall|t: int| (#[trigger] values_in(final(ch), t)).len() == 0 by {
                if has_lane(final(ch), t) {
                    assert(abandoned(old(ch).lanes@[t], final(ch).lanes@[t]));
                }
            }
        }
    }
}

/// What a registration did: there is one more sender, with an empty lane of its own
/// that has all its room, and nothing else differs.
pub open spec fn lane_added<T>(before: &Channel<T>, after: &Channel<T>, tx: Sender) -> bool {
    let slot = tx.key.slot as int;
    &&& !has_lane(before, slot)
    &&& has_lane(after, slot)
    &&& after.lanes@[slot]->Some_0.key == tx.key
    &&& values_in(after, slot).len() == 0
    &&& room_in(after, slot) == after.capacity
    &&& !after.lanes@[slot]->Some_0.signal.space_waiter.waker
    &&& forall|t: int| t != slot ==> #[trigger] has_lane(after, t) == has_lane(before, t)
    &&& forall|t: int| #[trigger] has_lane(before, t) ==> after.lanes@[t] == before.lanes@[t]
    &&& after.lanes@.len() <= before.lanes@.len() + 1
    &&& after.live_senders == before.live_senders + 1
    &&& after.registered_lanes == before.registered_lanes + 1
    &&& forall|k: int| #[trigger] staged_at(after, k) == staged_at(before, k)
    &&& after.left_behind() == before.left_behind()
    &&& after.contents() == before.contents()
    &&& after.data_waiters == before.data_waiters
    &&& after.receiver_alive
    &&& after.capacity == before.capacity
}

/// A registration, in plain terms.
proof fn lemma_registered<T>(before: &Channel<T>, after: &Channel<T>, tx: Sender)
    requires
        before.wf(),
        before.receiver_alive,
        before.lanes@.len() < usize::MAX,
        after.wf(),
        after.registered(before, tx.key),
    ensures
        lane_added(before, after, tx),
{
    let slot = tx.key.slot as int;
    assert(after.lanes@[slot] is Some);
    assert(after.lanes@[slot]->Some_0.ring@ =~= Seq::<T>::empty());
    assert forall|t: int| t != slot implies #[trigger] has_lane(after, t) == has_lane(before, t) by {
        if 0 <= t < before.lanes@.len() {
            assert(after.lanes@[t] == before.lanes@[t]);
        }
    }
    assert forall|t: int| #[trigger] has_lane(before, t) implies after.lanes@[t]
        == before.lanes@[t] by {
        assert(t != slot) by {
            assert(!before.present(slot));
        }
    }
}

/// A sender registers another one just while a receiver is there. A refusal changes
/// nothing.
pub proof fn law_registrations<T>(
    tx: &Sender,
    cloned: &mut Channel<T>,
    some: Option<Sender>,
    registered: &mut Channel<T>,
    ok: Result<Sender, TryRegisterError>,
)
    requires
        call_ensures(Sender::try_clone::<T>, (tx, cloned), some),
        old(cloned).wf(),
        old(cloned).lanes@.len() < usize::MAX,
        call_ensures(Sender::try_register::<T>, (tx, registered), ok),
        old(registered).wf(),
        old(registered).lanes@.len() < usize::MAX,
    ensures
        some is Some <==> old(cloned).receiver_alive,
        some matches Some(more) ==> lane_added(old(cloned), final(cloned), more),
        some is None ==> *final(cloned) == *old(cloned),
        ok is Ok <==> old(registered).receiver_alive,
        ok matches Ok(more) ==> lane_added(old(registered), final(registered), more),
        ok is Err ==> *final(registered) == *old(registered),
{
    if let Some(more) = some {
        lemma_registered(old(cloned), final(cloned), more);
    }
    if let Ok(more) = ok {
        lemma_registered(old(registered), final(registered), more);
    }
}

/// The number of registered lanes is the number of slots that hold one, and the
/// number of live senders the number of those whose sender is there.
pub proof fn law_lanes_are_counted<T>(ch: Channel<T>)
    requires
        ch.wf(),
        ch.receiver_alive,
    ensures
        ch.live_senders <= ch.registered_lanes <= ch.lanes@.len(),
        ch.registered_lanes == 0 <==> forall|t: int| !#[trigger] has_lane(&ch, t),
        ch.live_senders == 0 <==> forall|t: int| #[trigger]
            has_lane(&ch, t) ==> ch.lanes@[t]->Some_0.ring.producer_closed,
{
    lemma_count_bound(taken_places(ch.lanes@));
    lemma_count_within(connected(ch.lanes@), taken_places(ch.lanes@));
    lemma_count_zero(taken_places(ch.lanes@));
    lemma_count_zero(connected(ch.lanes@));
    if forall|t: int| !#[trigger] has_lane(&ch, t) {
        assert forall|i: int| 0 <= i < taken_places(ch.lanes@).len() implies !#[trigger] taken_places(
            ch.lanes@,
        )[i] by {
            assert(!has_lane(&ch, i));
        }
    }
    if ch.registered_lanes == 0 {
        assert forall|t: int| !#[trigger] has_lane(&ch, t) by {
            if has_lane(&ch, t) {
                assert(taken_places(ch.lanes@)[t]);
            }
        }
    }
    if forall|t: int| #[trigger]
        has_lane(&ch, t) ==> ch.lanes@[t]->Some_0.ring.producer_closed {
        assert forall|i: int| 0 <= i < connected(ch.lanes@).len() implies !#[trigger] connected(
            ch.lanes@,
        )[i] by {
            assert(has_lane(&ch, i) ==> ch.lanes@[i]->Some_0.ring.producer_closed);
        }
    }
    if ch.live_senders == 0 {
        assert forall|t: int| #[trigger] has_lane(&ch, t) implies
            ch.lanes@[t]->Some_0.ring.producer_closed by {
            assert(!connected(ch.lanes@)[t]);
        }
    }
}

/// Whether the three make up a new channel for `requested` values per sender: the
/// capacity is the least power of two that is enough, and there are one sender with
/// an empty lane and one receiver.
pub open spec fn just_made<T>(
    ch: &Channel<T>,
    tx: &Sender,
    rx: &Receiver,
    requested: usize,
    coordinated: bool,
) -> bool {
    &&& ch.wf()
    &&& requested <= ch.capacity < 2 * requested
    &&& exists|k: nat| ch.capacity == #[trigger] pow2(k)
    &&& rx.capacity == ch.capacity
    &&& ch.coordinated == coordinated
    &&& ch.receiver_alive
    &&& ch.live_senders == 1
    &&& ch.registered_lanes == 1
    &&& ch.lanes@.len() == 1
    &&& tx.key.slot == 0
    &&& has_lane(ch, 0)
    &&& ch.owns(tx)
    &&& room_in(ch, 0) == ch.capacity
    &&& values_in(ch, 0).len() == 0
    &&& ch.contents() == Multiset::<T>::empty()
    &&& ch.upkeep() == 0
    &&& ch.live_receivers == 1
    &&& ch.knows(rx.id as int)
    &&& staged_at(ch, rx.id as int).len() == 0
    &&& ch.left_behind().len() == 0
    &&& ch.data_waiters.waiters == 0
    &&& ch.data_waiters.signals == 0
    &&& !ch.lanes@[0]->Some_0.signal.space_waiter.waker
    &&& !ch.lanes@[0]->Some_0.ring.producer_closed
}

/// Each way to make a channel makes a new one. It is coordinated just if that was
/// asked for, and the checked way refuses a capacity of zero and one beyond a
/// quarter of the range of `usize`, and no other.
pub proof fn law_channels_are_new<T>(
    requested: usize,
    plain: (Channel<T>, Sender, Receiver),
    deferred: (Channel<T>, Sender, Receiver),
    coordinated: (Channel<T>, Sender, Receiver),
    checked: usize,
    tried: Result<(Channel<T>, Sender, Receiver), ChannelError>,
)
    requires
        0 < requested <= usize::MAX / 4 + 1,
        call_ensures(channel::<T>, (requested,), plain),
        call_ensures(channel_with_policy::<T, Deferred>, (requested,), deferred),
        call_ensures(channel_with_policy::<T, Coordinated>, (requested,), coordinated),
        call_ensures(try_channel::<T>, (checked,), tried),
    ensures
        just_made(&plain.0, &plain.1, &plain.2, requested, false),
        just_made(&deferred.0, &deferred.1, &deferred.2, requested, false),
        just_made(&coordinated.0, &coordinated.1, &coordinated.2, requested, true),
        tried is Ok <==> 0 < checked <= usize::MAX / 4 + 1,
        tried matches Ok(r) ==> just_made(&r.0, &r.1, &r.2, checked, false),
        tried matches Err(error) ==> error == if checked == 0 {
            ChannelError::ZeroCapacity
        } else {
            ChannelError::CapacityTooLarge {
                requested: checked,
                max: (usize::MAX / 4 + 1) as usize,
            }
        },
{
    lemma_just_made(&plain.0, &plain.1, &plain.2, requested, false);
    lemma_just_made(&deferred.0, &deferred.1, &deferred.2, requested, false);
    lemma_just_made(&coordinated.0, &coordinated.1, &coordinated.2, requested, true);
    if let Ok(r) = tried {
        lemma_just_made(&r.0, &r.1, &r.2, checked, false);
    }
}

/// A new channel, in plain terms.
proof fn lemma_just_made<T>(
    ch: &Channel<T>,
    tx: &Sender,
    rx: &Receiver,
    requested: usize,
    coordinated: bool,
)
    requires
        is_new(ch, tx, rx, requested, coordinated),
    ensures
        just_made(ch, tx, rx, requested, coordinated),
{
    assert(ch.lanes@[0] is Some);
    assert(ch.lanes@[0]->Some_0.ring@ =~= Seq::<T>::empty());
    assert(staged_at(ch, 0).len() == 0);
}

/// What an endpoint tells of its channel.
pub proof fn law_endpoints_tell<T>(
    tx: &Sender,
    rx: &Receiver,
    ch: &Channel<T>,
    lane: usize,
    capacity: usize,
    senders: (usize, usize),
    receivers: (usize, usize),
    no_receiver: bool,
    no_sender: bool,
    per_sender: usize,
)
    requires
        call_ensures(Sender::lane_id, (tx,), lane),
        call_ensures(Sender::capacity::<T>, (tx, ch), capacity),
        call_ensures(Sender::sender_count::<T>, (tx, ch), senders.0),
        call_ensures(Receiver::sender_count::<T>, (rx, ch), senders.1),
        call_ensures(Sender::receiver_count::<T>, (tx, ch), receivers.0),
        call_ensures(Receiver::receiver_count::<T>, (rx, ch), receivers.1),
        call_ensures(Sender::is_disconnected::<T>, (tx, ch), no_receiver),
        call_ensures(Receiver::is_disconnected::<T>, (rx, ch), no_sender),
        call_ensures(Receiver::capacity_per_sender, (rx,), per_sender),
    ensures
        lane == tx.key.slot,
        capacity == ch.capacity,
        senders == (ch.live_senders, ch.live_senders),
        receivers == (ch.live_receivers, ch.live_receivers),
        no_receiver == !ch.receiver_alive,
        no_sender == (ch.live_senders == 0),
        per_sender == rx.capacity,
{
}

/// What goes into an empty channel without upkeep comes out of it, whoever asks.
pub proof fn law_sent_value_comes_back<T>(
    tx: &mut Sender,
    sending: &mut Channel<T>,
    value: T,
    rx: &mut Receiver,
    receiving: &mut Channel<T>,
    result: Result<T, TryRecvError>,
)
    requires
        old(sending).wf(),
        old(sending).owns(old(tx)),
        old(sending).contents() == Multiset::<T>::empty(),
        old(sending).upkeep() == 0,
        call_ensures(Sender::try_send::<T>, (tx, sending, value), Ok(())),
        *old(receiving) == *final(sending),
        old(receiving).knows(old(rx).id as int),
        call_ensures(Receiver::try_recv::<T>, (rx, receiving), result),
    ensures
        result == Ok::<T, TryRecvError>(value),
        final(receiving).contents() == Multiset::<T>::empty(),
{
    law_try_send(tx, sending, value, Ok(()));
    law_try_recv(rx, receiving, result);
    let alone = Multiset::<T>::empty().insert(value);
    assert(old(receiving).contents() == alone);
    assert(alone.count(value) == 1);
    assert(old(receiving).contents() != Multiset::<T>::empty());
    let got = result->Ok_0;
    assert(final(receiving).contents().insert(got).count(got) > 0);
    assert(got == value);
    assert(final(receiving).contents() =~= Multiset::<T>::empty()) by {
        assert forall|v: T| final(receiving).contents().count(v) == 0 by {
            assert(final(receiving).contents().insert(got).count(v) == alone.count(v));
        }
    }
}

/// A receiver that went to sleep does not sleep on once a value was sent, and a
/// sleeper is to be signalled then.
pub proof fn law_sleeping_receiver_is_woken<T>(
    rx: &mut Receiver,
    falling_asleep: &mut Channel<T>,
    attempt: usize,
    wait: MultiWaitRegistration,
    tx: &mut Sender,
    sending: &mut Channel<T>,
    value: T,
    waking: &mut Channel<T>,
    sleeper: &mut Receiver,
    sleep: bool,
)
    requires
        old(falling_asleep).wf(),
        old(falling_asleep).receiver_alive,
        old(falling_asleep).knows(old(rx).id as int),
        call_ensures(Receiver::recv::<T>, (rx, falling_asleep, attempt), RecvProgress::Park(wait)),
        *old(sending) == *final(falling_asleep),
        old(sending).owns(old(tx)),
        call_ensures(Sender::try_send::<T>, (tx, sending, value), Ok(())),
        *old(waking) == *final(sending),
        call_ensures(Receiver::park::<T>, (sleeper, waking, &wait), sleep),
    ensures
        final(sending).data_waiters.signals > 0,
        !sleep,
{
    law_recv(rx, falling_asleep, attempt, RecvProgress::Park(wait));
    law_try_send(tx, sending, value, Ok(()));
    law_receiver_park(sleeper, waking, &wait, sleep);
    let slot = old(tx).key.slot as int;
    assert(old(sending).lanes@[slot] is Some);
    assert(has_lane(final(falling_asleep), slot));
}

/// A sender that went to sleep does not sleep on once a receive has made room in
/// its lane.
pub proof fn law_sleeping_sender_is_woken<T>(
    tx: &mut Sender,
    falling_asleep: &mut Channel<T>,
    value: T,
    attempt: usize,
    back: T,
    wait: WaitRegistration,
    rx: &mut Receiver,
    receiving: &mut Channel<T>,
    result: Result<T, TryRecvError>,
    sleeper: &mut Sender,
    waking: &mut Channel<T>,
    sleep: bool,
)
    requires
        old(falling_asleep).wf(),
        old(falling_asleep).owns(old(tx)),
        call_ensures(
            Sender::send::<T>,
            (tx, falling_asleep, value, attempt),
            SendProgress::Park(back, wait),
        ),
        *old(receiving) == *final(falling_asleep),
        old(receiving).knows(old(rx).id as int),
        call_ensures(Receiver::try_recv::<T>, (rx, receiving), result),
        has_lane(final(receiving), old(tx).key.slot as int),
        room_in(final(receiving), old(tx).key.slot as int) > 0,
        *old(waking) == *final(receiving),
        *old(sleeper) == *old(tx),
        old(waking).owns(old(sleeper)),
        call_ensures(Sender::park::<T>, (sleeper, waking, &wait), sleep),
    ensures
        back == value,
        !sleep,
{
    law_send(tx, falling_asleep, value, attempt, SendProgress::Park(back, wait));
    law_try_recv(rx, receiving, result);
    law_sender_park(sleeper, waking, &wait, sleep);
    let slot = old(tx).key.slot as int;
    assert(has_lane(old(receiving), slot));
    assert(old(falling_asleep).lanes@[slot] is Some);
}

/// A thief takes the oldest ticket for itself and half of what there was, seven
/// at most, to its own queue, in order; the rest stays where it is.
pub proof fn law_steal_batch(
    source: &mut WorkQueue,
    destination: &mut WorkQueue,
    ticket: Option<u64>,
)
    requires
        call_ensures(WorkQueue::steal_batch_into, (source, destination), ticket),
    ensures
        ticket is Some <==> old(source)@.len() > 0,
        ticket is None ==> final(destination)@ == old(destination)@,
        ticket is Some ==> {
            let n = old(source)@.len() as int;
            let moved = if n / 2 < 7 {
                n / 2
            } else {
                7
            };
            &&& ticket->Some_0 == old(source)@[0]
            &&& final(destination)@ == old(destination)@ + old(source)@.subrange(1, 1 + moved)
            &&& final(source)@ == old(source)@.subrange(1 + moved, n)
        },
{
}

} // verus!
