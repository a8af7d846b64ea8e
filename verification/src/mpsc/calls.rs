//! What each call of an endpoint does, in plain terms: which values it moves,
//! whose slots it frees, and whom it tells.
//!
//! The statements speak of the values in the lanes, of the free slots of their
//! rings, and of the two ways in which a waiter hears something: the number that a
//! sleeper compares with its snapshot, and the waker of an unfinished poll.
use vstd::arithmetic::power2::pow2;
use vstd::prelude::*;

use crate::count::{lemma_count_bound, lemma_count_within, lemma_count_zero};
use crate::error::{
    ChannelError, RecvError, RecvTimeoutError, SendError, SendTimeoutError, TryRecvError,
    TryRegisterBoundedError, TryRegisterError, TrySendError,
};
use crate::key::LaneKey;
use crate::teardown::{Coordinated, Deferred};
use crate::wait::{notified_times, with_waiter, WaitCell, WaitRegistration};

use super::asynchronous::Poll;
use super::receiver::{
    abandoned, batched, given_back, receives, rested, settled, BatchProgress, LanePoll,
    RecvDeadlineProgress, RecvProgress,
};
use super::sender::{SendDeadlineProgress, SendProgress};
use super::{
    channel, channel_with_policy, connected, is_new, occupied, try_channel, Channel, Receiver,
    Sender,
};

verus! {

/// The values in the lane of `slot`, oldest first; none where no lane is.
pub open spec fn values_in<T>(ch: &Channel<T>, slot: int) -> Seq<T> {
    if 0 <= slot < ch.lanes@.len() && ch.lanes@[slot] is Some {
        ch.lanes@[slot]->Some_0.ring@
    } else {
        Seq::empty()
    }
}

/// Slots of the ring in `slot` that a send can fill.
pub open spec fn room_in<T>(ch: &Channel<T>, slot: int) -> int {
    ch.capacity - ch.lanes@[slot]->Some_0.ring@.len() - ch.lanes@[slot]->Some_0.ring.consumed
}

/// Whether there is a lane in `slot`.
pub open spec fn has_lane<T>(ch: &Channel<T>, slot: int) -> bool {
    0 <= slot < ch.lanes@.len() && ch.lanes@[slot] is Some
}

/// Whether no lane holds a value.
pub open spec fn nothing_unread<T>(ch: &Channel<T>) -> bool {
    forall|slot: int| #[trigger] values_in(ch, slot).len() == 0
}

/// Whether the waiter of a cell heard of something once: the number that a sleeper
/// compares with is another one, and no waker is left that was not called.
pub open spec fn woken(before: WaitCell, after: WaitCell) -> bool {
    &&& after.state != before.state
    &&& after.state == before.state + 2 || after.state == before.state + 2 - usize::MAX - 1
    &&& !after.waker
}

/// Whether nothing that a value or a sender depends on differs but in `slot`.
pub open spec fn same_elsewhere<T>(before: &Channel<T>, after: &Channel<T>, slot: int) -> bool {
    &&& after.lanes@.len() == before.lanes@.len()
    &&& forall|t: int| t != slot ==> #[trigger] values_in(after, t) == values_in(before, t)
    &&& forall|t: int|
        0 <= t < before.lanes@.len() && t != slot ==> #[trigger] after.lanes@[t] == before.lanes@[t]
    &&& after.receiver_alive == before.receiver_alive
    &&& after.capacity == before.capacity
}

/// Whether every lane that was full and has room now has told its sender.
pub open spec fn room_is_told<T>(before: &Channel<T>, after: &Channel<T>) -> bool {
    forall|slot: int| #[trigger]
        has_lane(before, slot) && has_lane(after, slot) && room_in(before, slot) == 0 && room_in(
            after,
            slot,
        ) > 0 ==> woken(
            before.lanes@[slot]->Some_0.signal.space_waiter,
            after.lanes@[slot]->Some_0.signal.space_waiter,
        )
}

/// Whether no slot of any ring is kept reserved for a value that was taken.
pub open spec fn nothing_reserved<T>(ch: &Channel<T>) -> bool {
    forall|slot: int| #[trigger]
        has_lane(ch, slot) ==> ch.lanes@[slot]->Some_0.ring.consumed == 0
}

/// What a lane's sender hears of a step: once of free slots, if all of them were
/// given back, or nothing, and then a full lane stays full.
spec fn heard<T>(before: &Channel<T>, after: &Channel<T>, slot: int) -> bool {
    let cell = before.lanes@[slot]->Some_0.signal.space_waiter;
    let now = after.lanes@[slot]->Some_0.signal.space_waiter;
    ||| now == cell && (room_in(before, slot) == 0 ==> room_in(after, slot) == 0)
    ||| woken(cell, now) && after.lanes@[slot]->Some_0.ring.consumed == 0
}

/// A lane that is not served keeps its values, and its sender hears of room.
proof fn lemma_settled<T>(before: &Channel<T>, after: &Channel<T>, t: int)
    requires
        before.wf(),
        before.receiver_alive,
        after.lanes@.len() == before.lanes@.len(),
        after.capacity == before.capacity,
        0 <= t < before.lanes@.len(),
        settled(before.lanes@[t], after.lanes@[t]),
    ensures
        values_in(after, t) == values_in(before, t),
        has_lane(before, t) && has_lane(after, t) ==> heard(before, after, t),
{
    if after.lanes@[t] != before.lanes@[t] {
        let lane = before.lanes@[t]->Some_0;
        assert(before.lanes@[t] is Some);
        assert(lane.ring@ =~= Seq::<T>::empty());
        if after.lanes@[t] is Some {
            assert(rested(lane).ring@ =~= lane.ring@);
        }
    }
}

/// One receive, in plain terms.
proof fn lemma_answers<T>(before: &Channel<T>, after: &Channel<T>, result: Result<T, TryRecvError>)
    requires
        before.wf(),
        before.receiver_alive,
        after.wf(),
        after.answers(before, result),
    ensures
        result is Ok <==> !nothing_unread(before),
        result == Err::<T, TryRecvError>(TryRecvError::Disconnected) <==> nothing_unread(before)
            && before.live_senders == 0,
        result matches Ok(value) ==> exists|slot: int| #[trigger]
            values_in(before, slot).len() > 0 && value == values_in(before, slot)[0] && values_in(
                after,
                slot,
            ) == values_in(before, slot).drop_first() && forall|t: int|
                t != slot ==> #[trigger] values_in(after, t) == values_in(before, t),
        result is Err ==> forall|t: int| #[trigger] values_in(after, t) == values_in(before, t),
        room_is_told(before, after),
        forall|t: int| #[trigger]
            has_lane(after, t) ==> has_lane(before, t) && heard(before, after, t),
        after.lanes@.len() == before.lanes@.len(),
        after.live_senders == before.live_senders,
        after.receiver_alive,
        after.capacity == before.capacity,
        after.data_waiter == before.data_waiter,
{
    match result {
        Ok(value) => {
            let slot = choose|slot: int| #[trigger] after.received(before, slot, value);
            assert(before.present(slot));
            assert(values_in(before, slot).len() > 0);
            assert(before.lanes@[slot] is Some);
            assert(after.lanes@[slot] is Some);
            assert forall|t: int| t != slot implies #[trigger] values_in(after, t) == values_in(
                before,
                t,
            ) by {
                if 0 <= t < before.lanes@.len() {
                    assert(settled(before.lanes@[t], after.lanes@[t]));
                    lemma_settled(before, after, t);
                }
            }
            assert forall|t: int| #[trigger] has_lane(after, t) implies has_lane(before, t)
                && heard(before, after, t) by {
                if t != slot {
                    assert(settled(before.lanes@[t], after.lanes@[t]));
                    lemma_settled(before, after, t);
                }
            }
        },
        Err(_) => {
            assert forall|t: int| #[trigger] values_in(before, t).len() == 0 by {
                assert(!before.has_data(t));
            }
            assert forall|t: int| #[trigger] values_in(after, t) == values_in(before, t) by {
                if 0 <= t < before.lanes@.len() {
                    assert(settled(before.lanes@[t], after.lanes@[t]));
                    lemma_settled(before, after, t);
                }
            }
            assert forall|t: int| #[trigger] has_lane(after, t) implies has_lane(before, t)
                && heard(before, after, t) by {
                assert(settled(before.lanes@[t], after.lanes@[t]));
                lemma_settled(before, after, t);
            }
        },
    }
}

/// A receive that does not block takes the oldest value of some lane, and only
/// that; it fails just when no lane holds a value, and reports disconnection just
/// when no sender is left then either. A full lane that gets room tells its
/// sender.
pub proof fn law_try_recv<T>(
    rx: &mut Receiver,
    ch: &mut Channel<T>,
    result: Result<T, TryRecvError>,
)
    requires
        call_ensures(Receiver::try_recv::<T>, (rx, ch), result),
        old(ch).wf(),
        old(ch).receiver_alive,
    ensures
        result is Ok <==> !nothing_unread(old(ch)),
        result == Err::<T, TryRecvError>(TryRecvError::Empty) <==> nothing_unread(old(ch)) && old(ch).live_senders > 0,
        result == Err::<T, TryRecvError>(TryRecvError::Disconnected) <==> nothing_unread(old(ch))
            && old(ch).live_senders == 0,
        result matches Ok(value) ==> exists|slot: int| #[trigger]
            values_in(old(ch), slot).len() > 0 && value == values_in(old(ch), slot)[0]
                && values_in(final(ch), slot) == values_in(old(ch), slot).drop_first() && forall|
                t: int,
            |
                t != slot ==> #[trigger] values_in(final(ch), t) == values_in(old(ch), t),
        result is Err ==> forall|t: int| #[trigger]
            values_in(final(ch), t) == values_in(old(ch), t),
        room_is_told(old(ch), final(ch)),
        final(ch).live_senders == old(ch).live_senders,
        final(ch).data_waiter == old(ch).data_waiter,
{
    lemma_answers(old(ch), final(ch), result);
}


/// A lane never keeps 64 or more taken slots reserved, nor as many as its ring
/// has: a lane without values has room.
pub proof fn law_lanes_keep_few_slots_reserved<T>(ch: Channel<T>, slot: int)
    requires
        ch.wf(),
        ch.receiver_alive,
        has_lane(&ch, slot),
    ensures
        ch.lanes@[slot]->Some_0.ring.consumed < 64,
        ch.lanes@[slot]->Some_0.ring.consumed < ch.capacity,
        0 <= room_in(&ch, slot) <= ch.capacity,
        values_in(&ch, slot).len() == 0 ==> room_in(&ch, slot) > 0,
{
    assert(ch.lanes@[slot] is Some);
}

/// A blocking receive ends as one that does not block does, tries again up to 128
/// times after the first, and goes to sleep only on an empty channel with senders.
pub proof fn law_recv<T>(
    rx: &mut Receiver,
    ch: &mut Channel<T>,
    attempt: usize,
    r: RecvProgress<T>,
)
    requires
        call_ensures(Receiver::recv::<T>, (rx, ch, attempt), r),
        old(ch).wf(),
        old(ch).receiver_alive,
    ensures
        r is Done <==> !nothing_unread(old(ch)) || old(ch).live_senders == 0,
        r matches RecvProgress::Done(Ok(value)) ==> exists|slot: int| #[trigger]
            values_in(old(ch), slot).len() > 0 && value == values_in(old(ch), slot)[0]
                && values_in(final(ch), slot) == values_in(old(ch), slot).drop_first() && forall|
                t: int,
            |
                t != slot ==> #[trigger] values_in(final(ch), t) == values_in(old(ch), t),
        r matches RecvProgress::Done(result) ==> (result is Ok <==> !nothing_unread(old(ch))),
        !(r is Done) ==> (r is Spin <==> attempt <= 128),
        !(r is Done) ==> nothing_unread(final(ch)),
        r matches RecvProgress::Park(wait) ==> {
            &&& wait.snapshot == final(ch).data_waiter.state
            &&& wait.snapshot % 2 == 1
            &&& wait.snapshot / 2 == old(ch).data_waiter.state / 2
            &&& forall|t: int| #[trigger]
                has_lane(final(ch), t) ==> !final(ch).lanes@[t]->Some_0.signal.pending
        },
        !(r is Park) ==> final(ch).data_waiter == old(ch).data_waiter,
        final(ch).data_waiter.waker == old(ch).data_waiter.waker,
        final(ch).live_senders == old(ch).live_senders,
        room_is_told(old(ch), final(ch)),
{
    match r {
        RecvProgress::Done(Ok(value)) => {
            lemma_answers(old(ch), final(ch), Ok(value));
        },
        RecvProgress::Done(Err(_)) => {
            lemma_answers(old(ch), final(ch), Err(TryRecvError::Disconnected));
        },
        RecvProgress::Spin => {
            lemma_answers(old(ch), final(ch), Err(TryRecvError::Empty));
        },
        RecvProgress::Park(wait) => {
            lemma_exhausted(old(ch), final(ch));
        },
    }
}

/// A receive that finds nothing, in plain terms.
proof fn lemma_exhausted<T>(before: &Channel<T>, after: &Channel<T>)
    requires
        before.wf(),
        before.receiver_alive,
        after.exhausted(before),
    ensures
        nothing_unread(before),
        nothing_unread(after),
        forall|t: int| #[trigger] values_in(after, t) == values_in(before, t),
        forall|t: int| #[trigger]
            has_lane(after, t) ==> !after.lanes@[t]->Some_0.signal.pending,
        room_is_told(before, after),
        forall|t: int| #[trigger]
            has_lane(after, t) ==> has_lane(before, t) && heard(before, after, t),
        after.lanes@.len() == before.lanes@.len(),
        after.live_senders == before.live_senders,
        after.receiver_alive,
        after.capacity == before.capacity,
{
    assert forall|t: int| #[trigger] values_in(before, t).len() == 0 by {
        assert(!before.has_data(t));
    }
    assert forall|t: int| #[trigger] values_in(after, t) == values_in(before, t) by {
        if 0 <= t < before.lanes@.len() {
            assert(settled(before.lanes@[t], after.lanes@[t]));
            lemma_settled(before, after, t);
        }
    }
    assert forall|t: int| #[trigger] values_in(after, t).len() == 0 by {
        assert(values_in(after, t) == values_in(before, t));
        assert(values_in(before, t).len() == 0);
    }
    assert forall|t: int| #[trigger] has_lane(after, t) implies
        !after.lanes@[t]->Some_0.signal.pending by {
        assert(!after.pending(t));
    }
    assert forall|t: int| #[trigger] has_lane(after, t) implies has_lane(before, t) && heard(
        before,
        after,
        t,
    ) by {
        assert(settled(before.lanes@[t], after.lanes@[t]));
        lemma_settled(before, after, t);
    }
}

/// A receive with a deadline ends as one that does not block does, and on an empty
/// channel with senders it sleeps until the deadline and times out then.
pub proof fn law_recv_deadline<T>(
    rx: &mut Receiver,
    ch: &mut Channel<T>,
    expired: bool,
    r: RecvDeadlineProgress<T>,
)
    requires
        call_ensures(Receiver::recv_deadline::<T>, (rx, ch, expired), r),
        old(ch).wf(),
        old(ch).receiver_alive,
    ensures
        r matches RecvDeadlineProgress::Done(Ok(value)) ==> exists|slot: int| #[trigger]
            values_in(old(ch), slot).len() > 0 && value == values_in(old(ch), slot)[0]
                && values_in(final(ch), slot) == values_in(old(ch), slot).drop_first() && forall|
                t: int,
            |
                t != slot ==> #[trigger] values_in(final(ch), t) == values_in(old(ch), t),
        (r matches RecvDeadlineProgress::Done(Ok(_))) <==> !nothing_unread(old(ch)),
        r == RecvDeadlineProgress::<T>::Done(Err(RecvTimeoutError::Disconnected))
            <==> nothing_unread(old(ch)) && old(ch).live_senders == 0,
        r == RecvDeadlineProgress::<T>::Done(Err(RecvTimeoutError::Timeout)) <==> nothing_unread(
            old(ch),
        ) && old(ch).live_senders > 0 && expired,
        r is Park <==> nothing_unread(old(ch)) && old(ch).live_senders > 0 && !expired,
        r matches RecvDeadlineProgress::Park(wait) ==> {
            &&& wait.snapshot == final(ch).data_waiter.state
            &&& wait.snapshot % 2 == 1
            &&& forall|t: int| #[trigger]
                has_lane(final(ch), t) ==> !final(ch).lanes@[t]->Some_0.signal.pending
        },
        final(ch).data_waiter.waker == old(ch).data_waiter.waker,
        final(ch).live_senders == old(ch).live_senders,
        room_is_told(old(ch), final(ch)),
{
    match r {
        RecvDeadlineProgress::Done(Ok(value)) => {
            lemma_answers(old(ch), final(ch), Ok(value));
        },
        RecvDeadlineProgress::Done(Err(RecvTimeoutError::Disconnected)) => {
            lemma_answers(old(ch), final(ch), Err(TryRecvError::Disconnected));
        },
        RecvDeadlineProgress::Done(Err(RecvTimeoutError::Timeout)) => {
            lemma_answers(old(ch), final(ch), Err(TryRecvError::Empty));
        },
        RecvDeadlineProgress::Park(wait) => {
            lemma_exhausted(old(ch), final(ch));
        },
    }
}

/// Giving slots back frees every reserved slot, moves no value, and tells every
/// sender whose full lane has room now, in both ways.
pub proof fn law_release_consumed<T>(rx: &mut Receiver, ch: &mut Channel<T>)
    requires
        call_ensures(Receiver::release_consumed::<T>, (rx, ch), ()),
        old(ch).wf(),
        old(ch).receiver_alive,
    ensures
        nothing_reserved(final(ch)),
        room_is_told(old(ch), final(ch)),
        forall|t: int| #[trigger] values_in(final(ch), t) == values_in(old(ch), t),
        forall|t: int| #[trigger] has_lane(final(ch), t) == has_lane(old(ch), t),
        final(ch).active == old(ch).active,
        final(ch).live_senders == old(ch).live_senders,
        final(ch).data_waiter == old(ch).data_waiter,
{
    lemma_given_back(old(ch), final(ch));
}

/// Giving slots back, in plain terms.
proof fn lemma_given_back<T>(before: &Channel<T>, after: &Channel<T>)
    requires
        before.wf(),
        before.receiver_alive,
        after.all_given_back(before),
    ensures
        nothing_reserved(after),
        room_is_told(before, after),
        forall|t: int| #[trigger] values_in(after, t) == values_in(before, t),
        forall|t: int| #[trigger] has_lane(after, t) == has_lane(before, t),
        forall|t: int| #[trigger]
            has_lane(after, t) ==> heard(before, after, t) && after.lanes@[t]->Some_0.signal.pending
                == before.lanes@[t]->Some_0.signal.pending && (
            before.lanes@[t]->Some_0.ring.consumed == 0 ==> after.lanes@[t] == before.lanes@[t]),
        after.lanes@.len() == before.lanes@.len(),
        after.capacity == before.capacity,
        after.live_senders == before.live_senders,
        after.receiver_alive,
        after.data_waiter == before.data_waiter,
{
    assert forall|t: int| has_lane(before, t) implies {
        let lane = before.lanes@[t]->Some_0;
        let now = after.lanes@[t]->Some_0;
        &&& #[trigger] has_lane(after, t)
        &&& now.ring@ == lane.ring@
        &&& now.ring.consumed == 0
        &&& lane.ring.consumed == 0 ==> now == lane
        &&& lane.ring.consumed > 0 ==> woken(lane.signal.space_waiter, now.signal.space_waiter)
        &&& now.signal.pending == lane.signal.pending
    } by {
        let lane = before.lanes@[t]->Some_0;
        assert(before.lanes@[t] is Some);
        assert(after.lanes@[t] == Some(given_back(lane)));
        assert(given_back(lane).ring@ =~= lane.ring@);
    }
    assert forall|t: int| #[trigger] has_lane(after, t) == has_lane(before, t) by {
        if has_lane(after, t) {
            assert(after.lanes@[t] is Some);
        }
    }
    assert forall|t: int| #[trigger] values_in(after, t) == values_in(before, t) by {
        assert(has_lane(after, t) == has_lane(before, t));
    }
}

/// A poll of a receive takes a value as a receive that does not block does, leaves
/// no slot reserved, and tells every sender whose full lane has room now, in both
/// ways. It leaves a waker behind just when it is not over, which is on an empty
/// channel with senders.
pub proof fn law_poll_recv<T>(
    rx: &mut Receiver,
    ch: &mut Channel<T>,
    r: Poll<Result<T, RecvError>>,
)
    requires
        call_ensures(Receiver::poll_recv::<T>, (rx, ch), r),
        old(ch).wf(),
        old(ch).receiver_alive,
    ensures
        r matches Poll::Ready(Ok(value)) ==> exists|slot: int| #[trigger]
            values_in(old(ch), slot).len() > 0 && value == values_in(old(ch), slot)[0]
                && values_in(final(ch), slot) == values_in(old(ch), slot).drop_first() && forall|
                t: int,
            |
                t != slot ==> #[trigger] values_in(final(ch), t) == values_in(old(ch), t),
        !(r matches Poll::Ready(Ok(_))) ==> forall|t: int| #[trigger]
            values_in(final(ch), t) == values_in(old(ch), t),
        (r matches Poll::Ready(Ok(_))) <==> !nothing_unread(old(ch)),
        r == Poll::<Result<T, RecvError>>::Ready(Err(RecvError)) <==> nothing_unread(old(ch))
            && old(ch).live_senders == 0,
        r is Pending <==> nothing_unread(old(ch)) && old(ch).live_senders > 0,
        final(ch).data_waiter.waker == (r is Pending),
        final(ch).data_waiter.state == old(ch).data_waiter.state,
        r is Pending ==> forall|t: int| #[trigger]
            has_lane(final(ch), t) ==> !final(ch).lanes@[t]->Some_0.signal.pending,
        nothing_reserved(final(ch)),
        wakers_are_called(old(ch), final(ch)),
        final(ch).live_senders == old(ch).live_senders,
        final(ch).receiver_alive,
{
    let result: Result<T, TryRecvError> = match r {
        Poll::Ready(Ok(value)) => Ok(value),
        Poll::Ready(Err(_)) => Err(TryRecvError::Disconnected),
        Poll::Pending => Err(TryRecvError::Empty),
    };
    if let Poll::Ready(Err(error)) = r {
        assert(error == RecvError);
    }
    lemma_polled(old(ch), final(ch), result);
}

/// Whether every lane that was full and has room now has told its sender: the
/// number that a sleeper compares with is another one, and no waker is left.
pub open spec fn wakers_are_called<T>(before: &Channel<T>, after: &Channel<T>) -> bool {
    forall|slot: int| #[trigger]
        has_lane(before, slot) && has_lane(after, slot) && room_in(before, slot) == 0 && room_in(
            after,
            slot,
        ) > 0 ==> {
            &&& after.lanes@[slot]->Some_0.signal.space_waiter.state
                != before.lanes@[slot]->Some_0.signal.space_waiter.state
            &&& !after.lanes@[slot]->Some_0.signal.space_waiter.waker
        }
}

/// A poll of a receive, in plain terms.
proof fn lemma_polled<T>(before: &Channel<T>, after: &Channel<T>, result: Result<T, TryRecvError>)
    requires
        before.wf(),
        before.receiver_alive,
        after.polled(before, result),
    ensures
        result is Ok <==> !nothing_unread(before),
        result == Err::<T, TryRecvError>(TryRecvError::Disconnected) <==> nothing_unread(before)
            && before.live_senders == 0,
        result matches Ok(value) ==> exists|slot: int| #[trigger]
            values_in(before, slot).len() > 0 && value == values_in(before, slot)[0] && values_in(
                after,
                slot,
            ) == values_in(before, slot).drop_first() && forall|t: int|
                t != slot ==> #[trigger] values_in(after, t) == values_in(before, t),
        result is Err ==> forall|t: int| #[trigger] values_in(after, t) == values_in(before, t),
        result is Err ==> forall|t: int| #[trigger]
            has_lane(after, t) ==> !after.lanes@[t]->Some_0.signal.pending,
        after.data_waiter.waker == (result == Err::<T, TryRecvError>(TryRecvError::Empty)),
        after.data_waiter.state == before.data_waiter.state,
        nothing_reserved(after),
        wakers_are_called(before, after),
        forall|t: int| #[trigger]
            has_lane(after, t) ==> has_lane(before, t) && heard_since(before, after, t, 1),
        after.lanes@.len() == before.lanes@.len(),
        after.live_senders == before.live_senders,
        after.receiver_alive,
        after.capacity == before.capacity,
{
    let (mid, rest) = choose|mid: Channel<T>, rest: Channel<T>|
        mid.wf() && mid.answers(before, result) && #[trigger] rest.all_given_back(&mid) && after.data_waker_set(
            &rest,
            result == Err::<T, TryRecvError>(TryRecvError::Empty),
        );
    lemma_answers(before, &mid, result);
    if result is Err {
        lemma_exhausted(before, &mid);
    }
    lemma_given_back(&mid, &rest);
    assert(after.lanes == rest.lanes);
    assert forall|t: int| #[trigger] values_in(after, t) == values_in(&mid, t) by {
        assert(values_in(&rest, t) == values_in(&mid, t));
    }
    if let Ok(value) = result {
        let slot = choose|slot: int| #[trigger]
            values_in(before, slot).len() > 0 && value == values_in(before, slot)[0] && values_in(
                &mid,
                slot,
            ) == values_in(before, slot).drop_first() && forall|t: int|
                t != slot ==> #[trigger] values_in(&mid, t) == values_in(before, t);
        assert forall|t: int| t != slot implies #[trigger] values_in(after, t) == values_in(
            before,
            t,
        ) by {
            assert(values_in(after, t) == values_in(&mid, t));
        }
        assert(values_in(after, slot) == values_in(&mid, slot));
        assert(values_in(before, slot).len() > 0);
    } else {
        assert forall|t: int| #[trigger] values_in(after, t) == values_in(before, t) by {
            assert(values_in(after, t) == values_in(&mid, t));
            assert(values_in(&mid, t) == values_in(before, t));
        }
        assert forall|t: int| #[trigger] has_lane(after, t) implies
            !after.lanes@[t]->Some_0.signal.pending by {
            assert(has_lane(&rest, t));
            assert(has_lane(&mid, t));
        }
    }
    assert forall|t: int| #[trigger] has_lane(after, t) implies
        after.lanes@[t]->Some_0.ring.consumed == 0 by {
        assert(has_lane(&rest, t));
    }
    assert forall|slot: int| #[trigger]
        has_lane(before, slot) && has_lane(after, slot) && room_in(before, slot) == 0 && room_in(
            after,
            slot,
        ) > 0 implies {
        &&& after.lanes@[slot]->Some_0.signal.space_waiter.state
            != before.lanes@[slot]->Some_0.signal.space_waiter.state
        &&& !after.lanes@[slot]->Some_0.signal.space_waiter.waker
    } by {
        assert(has_lane(&rest, slot));
        assert(has_lane(&mid, slot));
        assert(heard(before, &mid, slot));
        assert(heard(&mid, &rest, slot));
    }
    assert forall|t: int| #[trigger] has_lane(after, t) implies has_lane(before, t) && heard_since(
        before,
        after,
        t,
        1,
    ) by {
        assert(has_lane(&rest, t));
        assert(has_lane(&mid, t));
        assert(heard(before, &mid, t));
        assert(heard(&mid, &rest, t));
        let cell = before.lanes@[t]->Some_0.signal.space_waiter;
        let now = after.lanes@[t]->Some_0.signal.space_waiter;
        if woken(cell, now) {
            assert(notified_times(cell.state, 0) == cell.state);
            assert(now.state == notified_times(cell.state, 1));
        }
    }
}



/// Those of `values` that came from the lane of `slot`, in order: `origins` names
/// the lane of each.
pub open spec fn from_lane<T>(values: Seq<T>, origins: Seq<int>, slot: int) -> Seq<T>
    decreases values.len(),
{
    if values.len() == 0 {
        Seq::empty()
    } else if origins[0] == slot {
        seq![values[0]] + from_lane(values.skip(1), origins.skip(1), slot)
    } else {
        from_lane(values.skip(1), origins.skip(1), slot)
    }
}

/// Whether `values` were taken from the lanes that `origins` names, each lane giving
/// its oldest values in order: those, followed by what is still in the lane, are
/// what was in it.
pub open spec fn taken_in_order<T>(
    before: &Channel<T>,
    after: &Channel<T>,
    values: Seq<T>,
    origins: Seq<int>,
) -> bool {
    &&& origins.len() == values.len()
    &&& forall|slot: int|
        from_lane(values, origins, slot) + #[trigger] values_in(after, slot) == values_in(
            before,
            slot,
        )
}

/// One more value at the end.
proof fn lemma_from_lane_push<T>(
    values: Seq<T>,
    origins: Seq<int>,
    value: T,
    origin: int,
    slot: int,
)
    requires
        origins.len() == values.len(),
    ensures
        from_lane(values.push(value), origins.push(origin), slot) == if origin == slot {
            from_lane(values, origins, slot).push(value)
        } else {
            from_lane(values, origins, slot)
        },
    decreases values.len(),
{
    let more = values.push(value);
    let places = origins.push(origin);
    if values.len() == 0 {
        assert(more.skip(1) =~= Seq::<T>::empty());
        assert(places.skip(1) =~= Seq::<int>::empty());
        assert(from_lane(more.skip(1), places.skip(1), slot) =~= Seq::<T>::empty());
        assert(from_lane(more, places, slot) =~= if origin == slot {
            seq![value]
        } else {
            Seq::<T>::empty()
        });
    } else {
        assert(more.skip(1) =~= values.skip(1).push(value));
        assert(places.skip(1) =~= origins.skip(1).push(origin));
        lemma_from_lane_push(values.skip(1), origins.skip(1), value, origin, slot);
        assert(from_lane(more, places, slot) =~= if origin == slot {
            from_lane(values, origins, slot).push(value)
        } else {
            from_lane(values, origins, slot)
        });
    }
}

/// What all came from one lane came from it in order.
proof fn lemma_from_one_lane<T>(values: Seq<T>, origins: Seq<int>, slot: int)
    requires
        origins.len() == values.len(),
        forall|t: int| t != slot ==> (#[trigger] from_lane(values, origins, t)).len() == 0,
    ensures
        from_lane(values, origins, slot) == values,
    decreases values.len(),
{
    if values.len() > 0 {
        assert(from_lane(values, origins, origins[0]).len() > 0);
        assert(origins[0] == slot);
        assert forall|t: int| t != slot implies (#[trigger] from_lane(
            values.skip(1),
            origins.skip(1),
            t,
        )).len() == 0 by {
            assert(from_lane(values, origins, t).len() == 0);
        }
        lemma_from_one_lane(values.skip(1), origins.skip(1), slot);
        assert(seq![values[0]] + values.skip(1) =~= values);
    }
}

/// What a lane's sender hears over several steps: nothing, and then a full lane
/// stays full, or something, and then no waker is left.
spec fn heard_since<T>(before: &Channel<T>, after: &Channel<T>, slot: int, n: nat) -> bool {
    let cell = before.lanes@[slot]->Some_0.signal.space_waiter;
    let now = after.lanes@[slot]->Some_0.signal.space_waiter;
    ||| now == cell && (room_in(before, slot) == 0 ==> room_in(after, slot) == 0)
    ||| !now.waker && exists|m: nat|
        1 <= m <= n && now.state == #[trigger] notified_times(cell.state, m)
}

/// One step more.
proof fn lemma_heard<T>(
    before: &Channel<T>,
    mid: &Channel<T>,
    after: &Channel<T>,
    slot: int,
    n: nat,
)
    requires
        heard_since(before, mid, slot, n),
        heard(mid, after, slot),
    ensures
        heard_since(before, after, slot, n + 1),
{
    let cell = before.lanes@[slot]->Some_0.signal.space_waiter;
    let then = mid.lanes@[slot]->Some_0.signal.space_waiter;
    let now = after.lanes@[slot]->Some_0.signal.space_waiter;
    if woken(then, now) {
        if then == cell {
            assert(notified_times(cell.state, 0) == cell.state);
            assert(now.state == notified_times(cell.state, 1));
        } else {
            let m = choose|m: nat|
                1 <= m <= n && then.state == #[trigger] notified_times(cell.state, m);
            assert(now.state == notified_times(cell.state, m + 1));
        }
    }
}

/// Receives in a row, in plain terms.
proof fn lemma_receives<T>(before: &Channel<T>, after: &Channel<T>, values: Seq<T>) -> (origins:
    Seq<int>)
    requires
        before.wf(),
        before.receiver_alive,
        after.wf(),
        receives(*before, *after, values),
    ensures
        taken_in_order(before, after, values, origins),
        forall|t: int| #[trigger]
            has_lane(after, t) ==> has_lane(before, t) && heard_since(
                before,
                after,
                t,
                values.len(),
            ),
        after.lanes@.len() == before.lanes@.len(),
        after.live_senders == before.live_senders,
        after.receiver_alive,
        after.capacity == before.capacity,
        after.data_waiter == before.data_waiter,
    decreases values.len(),
{
    if values.len() == 0 {
        assert forall|slot: int|
            from_lane(values, Seq::empty(), slot) + #[trigger] values_in(after, slot) == values_in(
                before,
                slot,
            ) by {
            assert(from_lane(values, Seq::empty(), slot) =~= Seq::<T>::empty());
            assert(Seq::<T>::empty() + values_in(after, slot) =~= values_in(before, slot));
        }
        Seq::empty()
    } else {
        let fewer = values.drop_last();
        let value = values.last();
        let mid = choose|mid: Channel<T>|
            receives(*before, mid, values.drop_last()) && #[trigger] mid.wf() && after.answers(
                &mid,
                Ok(values.last()),
            );
        let earlier = lemma_receives(before, &mid, fewer);
        lemma_answers(&mid, after, Ok(value));
        let from = choose|slot: int| #[trigger]
            values_in(&mid, slot).len() > 0 && value == values_in(&mid, slot)[0] && values_in(
                after,
                slot,
            ) == values_in(&mid, slot).drop_first() && forall|t: int|
                t != slot ==> #[trigger] values_in(after, t) == values_in(&mid, t);
        let origins = earlier.push(from);
        assert(values =~= fewer.push(value));
        assert forall|slot: int|
            from_lane(values, origins, slot) + #[trigger] values_in(after, slot) == values_in(
                before,
                slot,
            ) by {
            lemma_from_lane_push(fewer, earlier, value, from, slot);
            assert(from_lane(fewer, earlier, slot) + values_in(&mid, slot) == values_in(
                before,
                slot,
            ));
            assert(from_lane(values, origins, slot) + values_in(after, slot) =~= from_lane(
                fewer,
                earlier,
                slot,
            ) + values_in(&mid, slot));
        }
        assert forall|t: int| #[trigger] has_lane(after, t) implies has_lane(before, t)
            && heard_since(before, after, t, values.len()) by {
            assert(has_lane(&mid, t));
            lemma_heard(before, &mid, after, t, fewer.len());
        }
        origins
    }
}

/// Whether `values` are the oldest ones of the lane in `slot`, in order, and the
/// others are still there.
pub open spec fn taken_from<T>(
    before: &Channel<T>,
    after: &Channel<T>,
    values: Seq<T>,
    slot: int,
) -> bool {
    &&& values == values_in(before, slot).take(values.len() as int)
    &&& values_in(after, slot) == values_in(before, slot).skip(values.len() as int)
}

/// What a batch did to the channel: it took `values` from the lanes in order, all
/// there was unless it reached its limit, left no slot reserved, and told every
/// sender whose full lane has room now.
pub open spec fn batch_taken<T>(
    before: &Channel<T>,
    after: &Channel<T>,
    values: Seq<T>,
    limit: int,
) -> bool {
    &&& values.len() <= limit
    &&& exists|origins: Seq<int>| #[trigger] taken_in_order(before, after, values, origins)
    &&& values.len() < limit ==> nothing_unread(after)
    &&& nothing_reserved(after)
    &&& forall|slot: int|
        (forall|t: int| t != slot ==> #[trigger] values_in(before, t).len() == 0)
            ==> #[trigger] taken_from(before, after, values, slot)
    &&& forall|slot: int| #[trigger]
        has_lane(after, slot) && room_in(before, slot) == 0 && room_in(after, slot) > 0 ==> {
            let cell = before.lanes@[slot]->Some_0.signal.space_waiter;
            let now = after.lanes@[slot]->Some_0.signal.space_waiter;
            !now.waker && exists|m: nat|
                1 <= m <= values.len() + 2 && now.state == #[trigger] notified_times(cell.state, m)
        }
    &&& after.live_senders == before.live_senders
    &&& after.receiver_alive
    &&& after.capacity == before.capacity
}

/// From the steps of a batch to what it did.
proof fn lemma_batch_taken<T>(
    before: &Channel<T>,
    after: &Channel<T>,
    values: Seq<T>,
    limit: int,
    origins: Seq<int>,
)
    requires
        before.wf(),
        before.receiver_alive,
        values.len() <= limit,
        taken_in_order(before, after, values, origins),
        values.len() < limit ==> nothing_unread(after),
        nothing_reserved(after),
        forall|t: int| #[trigger]
            has_lane(after, t) ==> has_lane(before, t) && heard_since(
                before,
                after,
                t,
                values.len() + 2,
            ),
        after.live_senders == before.live_senders,
        after.receiver_alive,
        after.capacity == before.capacity,
    ensures
        batch_taken(before, after, values, limit),
{
    assert forall|slot: int|
        (forall|t: int| t != slot ==> #[trigger] values_in(before, t).len() == 0) implies
        #[trigger] taken_from(before, after, values, slot) by {
        assert forall|t: int| t != slot implies (#[trigger] from_lane(values, origins, t)).len()
            == 0 by {
            assert(values_in(before, t).len() == 0);
            assert(from_lane(values, origins, t) + values_in(after, t) == values_in(before, t));
        }
        lemma_from_one_lane(values, origins, slot);
        assert(values + values_in(after, slot) == values_in(before, slot));
        assert(values =~= values_in(before, slot).take(values.len() as int));
        assert(values_in(after, slot) =~= values_in(before, slot).skip(values.len() as int));
    }
    assert forall|slot: int| #[trigger]
        has_lane(after, slot) && room_in(before, slot) == 0 && room_in(after, slot) > 0 implies {
        let cell = before.lanes@[slot]->Some_0.signal.space_waiter;
        let now = after.lanes@[slot]->Some_0.signal.space_waiter;
        !now.waker && exists|m: nat|
            1 <= m <= values.len() + 2 && now.state == #[trigger] notified_times(cell.state, m)
    } by {
        assert(heard_since(before, after, slot, values.len() + 2));
    }
}

/// Receiving without blocking, in plain terms.
proof fn lemma_batched<T>(before: &Channel<T>, after: &Channel<T>, values: Seq<T>, limit: int) -> (
    origins: Seq<int>)
    requires
        before.wf(),
        before.receiver_alive,
        batched(*before, *after, values, limit),
    ensures
        values.len() <= limit,
        taken_in_order(before, after, values, origins),
        values.len() < limit ==> nothing_unread(after),
        nothing_reserved(after),
        forall|t: int| #[trigger]
            has_lane(after, t) ==> has_lane(before, t) && heard_since(
                before,
                after,
                t,
                values.len() + 2,
            ),
        after.live_senders == before.live_senders,
        after.receiver_alive,
        after.capacity == before.capacity,
        after.data_waiter == before.data_waiter,
{
    let mid = choose|mid: Channel<T>| #[trigger]
        receives(*before, mid, values) && mid.wf() && if values.len() == limit {
            after.all_given_back(&mid)
        } else {
            exists|end: Channel<T>| #[trigger]
                end.exhausted(&mid) && end.wf() && end.data_waiter == mid.data_waiter
                    && after.all_given_back(&end)
        };
    let origins = lemma_receives(before, &mid, values);
    let n = values.len();
    if n == limit {
        lemma_given_back(&mid, after);
        assert forall|slot: int|
            from_lane(values, origins, slot) + #[trigger] values_in(after, slot) == values_in(
                before,
                slot,
            ) by {
            assert(values_in(after, slot) == values_in(&mid, slot));
        }
        assert forall|t: int| #[trigger] has_lane(after, t) implies has_lane(before, t)
            && heard_since(before, after, t, n + 2) by {
            assert(has_lane(&mid, t));
            lemma_heard(before, &mid, after, t, n);
        }
    } else {
        let end = choose|end: Channel<T>| #[trigger]
            end.exhausted(&mid) && end.wf() && end.data_waiter == mid.data_waiter
                && after.all_given_back(&end);
        lemma_exhausted(&mid, &end);
        lemma_given_back(&end, after);
        assert forall|slot: int|
            from_lane(values, origins, slot) + #[trigger] values_in(after, slot) == values_in(
                before,
                slot,
            ) by {
            assert(values_in(after, slot) == values_in(&end, slot));
            assert(values_in(&end, slot) == values_in(&mid, slot));
        }
        assert forall|slot: int| #[trigger] values_in(after, slot).len() == 0 by {
            assert(values_in(after, slot) == values_in(&end, slot));
            assert(values_in(&end, slot).len() == 0);
        }
        assert forall|t: int| #[trigger] has_lane(after, t) implies has_lane(before, t)
            && heard_since(before, after, t, n + 2) by {
            assert(has_lane(&end, t));
            assert(has_lane(&mid, t));
            lemma_heard(before, &mid, &end, t, n);
            lemma_heard(before, &end, after, t, n + 1);
        }
    }
    origins
}

/// A first value and then those that came without blocking.
proof fn lemma_first_and_batch<T>(
    before: &Channel<T>,
    mid: &Channel<T>,
    after: &Channel<T>,
    values: Seq<T>,
    limit: int,
    from: int,
    rest: Seq<int>,
)
    requires
        before.wf(),
        before.receiver_alive,
        values.len() > 0,
        values_in(before, from).len() > 0,
        values[0] == values_in(before, from)[0],
        values_in(mid, from) == values_in(before, from).drop_first(),
        forall|t: int| t != from ==> #[trigger] values_in(mid, t) == values_in(before, t),
        forall|t: int| #[trigger]
            has_lane(mid, t) ==> has_lane(before, t) && heard_since(before, mid, t, 1),
        mid.live_senders == before.live_senders,
        mid.capacity == before.capacity,
        values.len() <= limit,
        taken_in_order(mid, after, values.skip(1), rest),
        values.len() < limit ==> nothing_unread(after),
        nothing_reserved(after),
        forall|t: int| #[trigger]
            has_lane(after, t) ==> has_lane(mid, t) && heard_since(mid, after, t, values.len() + 1),
        after.live_senders == before.live_senders,
        after.receiver_alive,
        after.capacity == before.capacity,
    ensures
        batch_taken(before, after, values, limit),
{
    let origins = seq![from] + rest;
    assert(origins.skip(1) =~= rest);
    assert forall|slot: int|
        from_lane(values, origins, slot) + #[trigger] values_in(after, slot) == values_in(
            before,
            slot,
        ) by {
        assert(from_lane(values.skip(1), rest, slot) + values_in(after, slot) == values_in(
            mid,
            slot,
        ));
        if slot == from {
            assert(from_lane(values, origins, slot) + values_in(after, slot) =~= seq![values[0]] + (
            from_lane(values.skip(1), rest, slot) + values_in(after, slot)));
            assert(seq![values[0]] + values_in(before, slot).drop_first() =~= values_in(
                before,
                slot,
            ));
        } else {
            assert(values_in(mid, slot) == values_in(before, slot));
        }
    }
    assert forall|t: int| #[trigger] has_lane(after, t) implies has_lane(before, t) && heard_since(
        before,
        after,
        t,
        values.len() + 2,
    ) by {
        assert(has_lane(mid, t));
        lemma_heard_both(before, mid, after, t, 1, values.len() + 1);
    }
    lemma_batch_taken(before, after, values, limit, origins);
}

/// Steps and then more steps.
proof fn lemma_heard_both<T>(
    before: &Channel<T>,
    mid: &Channel<T>,
    after: &Channel<T>,
    slot: int,
    n: nat,
    k: nat,
)
    requires
        heard_since(before, mid, slot, n),
        heard_since(mid, after, slot, k),
    ensures
        heard_since(before, after, slot, n + k),
{
    let cell = before.lanes@[slot]->Some_0.signal.space_waiter;
    let then = mid.lanes@[slot]->Some_0.signal.space_waiter;
    let now = after.lanes@[slot]->Some_0.signal.space_waiter;
    if now != then {
        let j = choose|m: nat| 1 <= m <= k && now.state == #[trigger] notified_times(then.state, m);
        if then == cell {
            assert(now.state == notified_times(cell.state, j));
        } else {
            let m = choose|m: nat|
                1 <= m <= n && then.state == #[trigger] notified_times(cell.state, m);
            lemma_times(cell.state, m, j);
            assert(now.state == notified_times(cell.state, m + j));
        }
    }
}

/// Notifications and then more notifications.
proof fn lemma_times(state: usize, m: nat, j: nat)
    ensures
        notified_times(notified_times(state, m), j) == notified_times(state, m + j),
    decreases j,
{
    if j > 0 {
        lemma_times(state, m, (j - 1) as nat);
    }
}

/// A batch of no values, in plain terms.
proof fn lemma_empty_batch<T>(before: &Channel<T>, after: &Channel<T>, values: Seq<T>)
    requires
        before.wf(),
        before.receiver_alive,
        after.all_given_back(before),
        values.len() == 0,
    ensures
        batch_taken(before, after, values, 0),
{
    lemma_given_back(before, after);
    assert forall|slot: int|
        from_lane(values, Seq::empty(), slot) + #[trigger] values_in(after, slot) == values_in(
            before,
            slot,
        ) by {
        assert(from_lane(values, Seq::empty(), slot) =~= Seq::<T>::empty());
        assert(Seq::<T>::empty() + values_in(after, slot) =~= values_in(after, slot));
    }
    assert forall|t: int| #[trigger] has_lane(after, t) implies has_lane(before, t) && heard_since(
        before,
        after,
        t,
        values.len() + 2,
    ) by {
        lemma_heard(before, before, after, t, 0);
        let cell = before.lanes@[t]->Some_0.signal.space_waiter;
        let now = after.lanes@[t]->Some_0.signal.space_waiter;
        if now != cell {
            let m = choose|m: nat|
                1 <= m <= 1 && now.state == #[trigger] notified_times(cell.state, m);
            assert(1 <= m <= 2);
        }
    }
    lemma_batch_taken(before, after, values, 0, Seq::empty());
}

/// A batch receive appends to the output the oldest values of the lanes, each
/// lane's in the order in which they were sent, and no others: as many as there
/// are up to the limit. It waits only where there is none, fails only where no
/// sender is left either, leaves no slot reserved, and tells every sender whose
/// full lane has room now, in both ways. A limit of zero moves nothing.
pub proof fn law_recv_batch_into<T>(
    rx: &mut Receiver,
    ch: &mut Channel<T>,
    output: &mut Vec<T>,
    limit: usize,
    attempt: usize,
    r: BatchProgress,
)
    requires
        call_ensures(Receiver::recv_batch_into::<T>, (rx, ch, output, limit, attempt), r),
        old(ch).wf(),
        old(ch).receiver_alive,
    ensures
        r matches BatchProgress::Done(Ok(received)) ==> {
            let values = final(output)@.skip(old(output)@.len() as int);
            &&& final(output)@ == old(output)@ + values
            &&& received == values.len()
            &&& batch_taken(old(ch), final(ch), values, limit as int)
            &&& final(ch).data_waiter == old(ch).data_waiter
        },
        !(r matches BatchProgress::Done(Ok(_))) ==> final(output)@ == old(output)@ && forall|t: int|
            #[trigger] values_in(final(ch), t) == values_in(old(ch), t),
        (r matches BatchProgress::Done(Ok(_))) <==> limit == 0 || !nothing_unread(old(ch)),
        r == BatchProgress::Done(Err(RecvError)) <==> limit > 0 && nothing_unread(old(ch)) && old(ch).live_senders == 0,
        r is Spin ==> attempt <= 128,
        r is Park ==> attempt > 128,
        r matches BatchProgress::Park(wait) ==> wait.snapshot == final(ch).data_waiter.state,
{
    match r {
        BatchProgress::Done(Ok(received)) => {
            let values = final(output)@.skip(old(output)@.len() as int);
            if limit == 0 {
                assert(values =~= Seq::<T>::empty());
                lemma_empty_batch(old(ch), final(ch), values);
            } else {
                let mid = choose|mid: Channel<T>|
                    mid.wf() && mid.answers(old(ch), Ok(values[0])) && #[trigger] batched(
                        mid,
                        *final(ch),
                        values.skip(1),
                        limit - 1,
                    );
                lemma_answers(old(ch), &mid, Ok(values[0]));
                let rest = lemma_batched(&mid, final(ch), values.skip(1), limit - 1);
                let from = choose|slot: int| #[trigger]
                    values_in(old(ch), slot).len() > 0 && values[0] == values_in(old(ch), slot)[0]
                        && values_in(&mid, slot) == values_in(old(ch), slot).drop_first() && forall|
                        t: int,
                    |
                        t != slot ==> #[trigger] values_in(&mid, t) == values_in(old(ch), t);
                assert forall|t: int| #[trigger] has_lane(&mid, t) implies has_lane(old(ch), t)
                    && heard_since(old(ch), &mid, t, 1) by {
                    lemma_heard(old(ch), old(ch), &mid, t, 0);
                }
                lemma_first_and_batch(
                    old(ch),
                    &mid,
                    final(ch),
                    values,
                    limit as int,
                    from,
                    rest,
                );
            }
        },
        BatchProgress::Done(Err(error)) => {
            assert(error == RecvError);
            lemma_answers(old(ch), final(ch), Err(TryRecvError::Disconnected));
        },
        BatchProgress::Spin => {
            lemma_answers(old(ch), final(ch), Err(TryRecvError::Empty));
        },
        BatchProgress::Park(wait) => {
            lemma_exhausted(old(ch), final(ch));
        },
    }
}


/// A poll of a batch receive appends what a batch receive would, and leaves a waker
/// behind just when it is not over, which is on an empty channel with senders.
pub proof fn law_poll_recv_batch_into<T>(
    rx: &mut Receiver,
    ch: &mut Channel<T>,
    output: &mut Vec<T>,
    limit: usize,
    r: Poll<Result<usize, RecvError>>,
)
    requires
        call_ensures(Receiver::poll_recv_batch_into::<T>, (rx, ch, output, limit), r),
        old(ch).wf(),
        old(ch).receiver_alive,
    ensures
        r matches Poll::Ready(Ok(received)) ==> {
            let values = final(output)@.skip(old(output)@.len() as int);
            &&& final(output)@ == old(output)@ + values
            &&& received == values.len()
            &&& batch_taken(old(ch), final(ch), values, limit as int)
            &&& limit > 0 ==> !final(ch).data_waiter.waker
        },
        !(r matches Poll::Ready(Ok(_))) ==> final(output)@ == old(output)@ && forall|t: int|
            #[trigger] values_in(final(ch), t) == values_in(old(ch), t),
        (r matches Poll::Ready(Ok(_))) <==> limit == 0 || !nothing_unread(old(ch)),
        r == Poll::<Result<usize, RecvError>>::Ready(Err(RecvError)) <==> limit > 0
            && nothing_unread(old(ch)) && old(ch).live_senders == 0,
        r is Pending <==> limit > 0 && nothing_unread(old(ch)) && old(ch).live_senders > 0,
        r is Pending ==> final(ch).data_waiter.waker,
        nothing_reserved(final(ch)),
{
    match r {
        Poll::Ready(Ok(received)) => {
            let values = final(output)@.skip(old(output)@.len() as int);
            if limit == 0 {
                assert(values =~= Seq::<T>::empty());
                lemma_empty_batch(old(ch), final(ch), values);
            } else {
                let mid = choose|mid: Channel<T>|
                    mid.wf() && mid.polled(old(ch), Ok(values[0])) && #[trigger] batched(
                        mid,
                        *final(ch),
                        values.skip(1),
                        limit - 1,
                    );
                lemma_polled(old(ch), &mid, Ok(values[0]));
                let rest = lemma_batched(&mid, final(ch), values.skip(1), limit - 1);
                let from = choose|slot: int| #[trigger]
                    values_in(old(ch), slot).len() > 0 && values[0] == values_in(old(ch), slot)[0]
                        && values_in(&mid, slot) == values_in(old(ch), slot).drop_first() && forall|
                        t: int,
                    |
                        t != slot ==> #[trigger] values_in(&mid, t) == values_in(old(ch), t);
                lemma_first_and_batch(
                    old(ch),
                    &mid,
                    final(ch),
                    values,
                    limit as int,
                    from,
                    rest,
                );
            }
        },
        Poll::Ready(Err(error)) => {
            assert(error == RecvError);
            lemma_polled(old(ch), final(ch), Err(TryRecvError::Disconnected));
        },
        Poll::Pending => {
            lemma_polled(old(ch), final(ch), Err(TryRecvError::Empty));
        },
    }
}

/// A send that does not block succeeds just when a receiver is there and the ring
/// has room. Then the value stands behind the others of its lane, no other lane
/// differs, and an idle lane tells the receiver, in both ways. Otherwise the value
/// comes back and nothing differs.
pub proof fn law_try_send<T>(
    tx: &mut Sender,
    ch: &mut Channel<T>,
    value: T,
    result: Result<(), TrySendError<T>>,
)
    requires
        call_ensures(Sender::try_send::<T>, (tx, ch, value), result),
        old(ch).wf(),
        old(ch).owns(old(tx)),
    ensures
        ({
            let slot = old(tx).key.slot as int;
            &&& result is Ok <==> old(ch).receiver_alive && room_in(old(ch), slot) > 0
            &&& result == Err::<(), TrySendError<T>>(TrySendError::Full(value)) <==> old(ch).receiver_alive && room_in(old(ch), slot) == 0
            &&& result == Err::<(), TrySendError<T>>(TrySendError::Disconnected(value)) <==> !old(ch).receiver_alive
            &&& result is Ok ==> send_done(old(ch), final(ch), slot, value)
            &&& result is Err ==> nothing_done(old(ch), final(ch))
        }),
{
    let slot = old(tx).key.slot as int;
    assert(old(ch).lanes@[slot] is Some);
    if result is Ok {
        lemma_sent(old(ch), final(ch), slot, value);
    } else {
        lemma_unchanged(old(ch), final(ch));
    }
}

/// What a send through `slot` did.
pub open spec fn send_done<T>(
    before: &Channel<T>,
    after: &Channel<T>,
    slot: int,
    value: T,
) -> bool {
    &&& values_in(after, slot) == values_in(before, slot).push(value)
    &&& room_in(after, slot) == room_in(before, slot) - 1
    &&& same_elsewhere(before, after, slot)
    &&& after.lanes@[slot]->Some_0.signal.pending
    &&& after.lanes@[slot]->Some_0.signal.space_waiter
        == before.lanes@[slot]->Some_0.signal.space_waiter
    &&& !before.lanes@[slot]->Some_0.signal.pending ==> woken(before.data_waiter, after.data_waiter)
    &&& before.lanes@[slot]->Some_0.signal.pending ==> after.data_waiter == before.data_waiter
    &&& after.live_senders == before.live_senders
    &&& after.registered_lanes == before.registered_lanes
}

/// Whether a step left values, free slots and waiters as they were.
pub open spec fn nothing_done<T>(before: &Channel<T>, after: &Channel<T>) -> bool {
    &&& after.lanes@ == before.lanes@
    &&& forall|t: int| #[trigger] values_in(after, t) == values_in(before, t)
    &&& after.data_waiter == before.data_waiter
    &&& after.live_senders == before.live_senders
    &&& after.registered_lanes == before.registered_lanes
    &&& after.receiver_alive == before.receiver_alive
    &&& after.capacity == before.capacity
}

/// A send, in plain terms.
proof fn lemma_sent<T>(before: &Channel<T>, after: &Channel<T>, slot: int, value: T)
    requires
        before.wf(),
        before.receiver_alive,
        before.present(slot),
        after.sent(before, slot, value),
    ensures
        send_done(before, after, slot, value),
{
    assert(before.lanes@[slot] is Some);
    assert forall|t: int| t != slot implies #[trigger] values_in(after, t) == values_in(
        before,
        t,
    ) by {
        if 0 <= t < before.lanes@.len() {
            assert(after.lanes@[t] == before.lanes@[t]);
        }
    }
}

/// Nothing, in plain terms.
proof fn lemma_unchanged<T>(before: &Channel<T>, after: &Channel<T>)
    requires
        after.unchanged(before),
    ensures
        nothing_done(before, after),
{
    assert(after.lanes@ =~= before.lanes@);
}

/// A blocking send goes as one that does not block does, tries again up to 128 times
/// after the first while the ring is full, and then registers for space.
pub proof fn law_send<T>(
    tx: &mut Sender,
    ch: &mut Channel<T>,
    value: T,
    attempt: usize,
    r: SendProgress<T>,
)
    requires
        call_ensures(Sender::send::<T>, (tx, ch, value, attempt), r),
        old(ch).wf(),
        old(ch).owns(old(tx)),
    ensures
        ({
            let slot = old(tx).key.slot as int;
            let room = room_in(old(ch), slot) > 0;
            let alive = old(ch).receiver_alive;
            &&& (r matches SendProgress::Done(Ok(_))) <==> alive && room
            &&& r == SendProgress::<T>::Done(Err(SendError(value))) <==> !alive
            &&& r == SendProgress::<T>::Spin(value) <==> alive && !room && attempt <= 128
            &&& r is Park <==> alive && !room && attempt > 128
            &&& alive && room ==> send_done(old(ch), final(ch), slot, value)
            &&& !alive || (!room && attempt <= 128) ==> nothing_done(old(ch), final(ch))
            &&& r matches SendProgress::Park(back, wait) ==> back == value && waits_for_room(
                old(ch),
                final(ch),
                slot,
                wait,
            )
        }),
{
    let slot = old(tx).key.slot as int;
    assert(old(ch).lanes@[slot] is Some);
    match r {
        SendProgress::Done(Ok(_)) => {
            lemma_sent(old(ch), final(ch), slot, value);
        },
        SendProgress::Park(_, wait) => {
            lemma_awaits_space(old(ch), final(ch), slot, wait);
        },
        _ => {
            lemma_unchanged(old(ch), final(ch));
        },
    }
}

/// Whether the sender of `slot` has registered for space, and nothing else happened.
pub open spec fn waits_for_room<T>(
    before: &Channel<T>,
    after: &Channel<T>,
    slot: int,
    wait: WaitRegistration,
) -> bool {
    let cell = before.lanes@[slot]->Some_0.signal.space_waiter;
    let now = after.lanes@[slot]->Some_0.signal.space_waiter;
    &&& has_lane(after, slot)
    &&& wait.snapshot == now.state
    &&& now.state % 2 == 1
    &&& now.state / 2 == cell.state / 2
    &&& now.waker == cell.waker
    &&& values_in(after, slot) == values_in(before, slot)
    &&& room_in(after, slot) == room_in(before, slot)
    &&& same_elsewhere(before, after, slot)
    &&& after.data_waiter == before.data_waiter
    &&& after.live_senders == before.live_senders
}

/// Registering for space, in plain terms.
proof fn lemma_awaits_space<T>(
    before: &Channel<T>,
    after: &Channel<T>,
    slot: int,
    wait: WaitRegistration,
)
    requires
        before.wf(),
        before.present(slot),
        after.awaits_space(before, slot, wait),
    ensures
        waits_for_room(before, after, slot, wait),
{
    assert forall|t: int| t != slot implies #[trigger] values_in(after, t) == values_in(
        before,
        t,
    ) by {}
    let state = before.lanes@[slot]->Some_0.signal.space_waiter.state;
    assert(with_waiter(state) % 2 == 1 && with_waiter(state) / 2 == state / 2);
}

/// A send with a deadline goes as one that does not block does, and while the ring
/// is full it sleeps until the deadline and times out then.
pub proof fn law_send_deadline<T>(
    tx: &mut Sender,
    ch: &mut Channel<T>,
    value: T,
    expired: bool,
    r: SendDeadlineProgress<T>,
)
    requires
        call_ensures(Sender::send_deadline::<T>, (tx, ch, value, expired), r),
        old(ch).wf(),
        old(ch).owns(old(tx)),
    ensures
        ({
            let slot = old(tx).key.slot as int;
            let room = room_in(old(ch), slot) > 0;
            let alive = old(ch).receiver_alive;
            &&& (r matches SendDeadlineProgress::Done(Ok(_))) <==> alive && room
            &&& r == SendDeadlineProgress::<T>::Done(Err(SendTimeoutError::Disconnected(value)))
                <==> !alive
            &&& r == SendDeadlineProgress::<T>::Done(Err(SendTimeoutError::Timeout(value)))
                <==> alive && !room && expired
            &&& r is Park <==> alive && !room && !expired
            &&& alive && room ==> send_done(old(ch), final(ch), slot, value)
            &&& !alive || (!room && expired) ==> nothing_done(old(ch), final(ch))
            &&& r matches SendDeadlineProgress::Park(back, wait) ==> back == value
                && waits_for_room(old(ch), final(ch), slot, wait)
        }),
{
    let slot = old(tx).key.slot as int;
    assert(old(ch).lanes@[slot] is Some);
    match r {
        SendDeadlineProgress::Done(Ok(_)) => {
            lemma_sent(old(ch), final(ch), slot, value);
        },
        SendDeadlineProgress::Park(_, wait) => {
            lemma_awaits_space(old(ch), final(ch), slot, wait);
        },
        _ => {
            lemma_unchanged(old(ch), final(ch));
        },
    }
}

/// A poll for capacity is over just when the ring has room or the receiver is gone,
/// and leaves a waker behind just when it is not. It moves nothing.
pub proof fn law_poll_ready<T>(
    tx: &mut Sender,
    ch: &mut Channel<T>,
    r: Poll<Result<(), SendError<()>>>,
)
    requires
        call_ensures(Sender::poll_ready::<T>, (tx, ch), r),
        old(ch).wf(),
        old(ch).owns(old(tx)),
    ensures
        ({
            let slot = old(tx).key.slot as int;
            let room = room_in(old(ch), slot) > 0;
            let alive = old(ch).receiver_alive;
            &&& r is Pending <==> alive && !room
            &&& (r matches Poll::Ready(Ok(_))) <==> alive && room
            &&& (r matches Poll::Ready(Err(_))) <==> !alive
            &&& waker_left(old(ch), final(ch), slot, alive && !room)
        }),
{
    let slot = old(tx).key.slot as int;
    assert(old(ch).lanes@[slot] is Some);
    lemma_waker_left(old(ch), final(ch), slot, r is Pending);
}

/// Whether the sender of `slot` has a waker left behind now, and nothing else
/// happened.
pub open spec fn waker_left<T>(
    before: &Channel<T>,
    after: &Channel<T>,
    slot: int,
    waker: bool,
) -> bool {
    &&& has_lane(after, slot)
    &&& after.lanes@[slot]->Some_0.signal.space_waiter.waker == waker
    &&& after.lanes@[slot]->Some_0.signal.space_waiter.state
        == before.lanes@[slot]->Some_0.signal.space_waiter.state
    &&& after.lanes@[slot]->Some_0.signal.pending == before.lanes@[slot]->Some_0.signal.pending
    &&& values_in(after, slot) == values_in(before, slot)
    &&& room_in(after, slot) == room_in(before, slot)
    &&& same_elsewhere(before, after, slot)
    &&& after.data_waiter == before.data_waiter
    &&& after.live_senders == before.live_senders
    &&& after.registered_lanes == before.registered_lanes
}

/// Leaving a waker behind, in plain terms.
proof fn lemma_waker_left<T>(before: &Channel<T>, after: &Channel<T>, slot: int, waker: bool)
    requires
        before.wf(),
        before.present(slot),
        after.space_waker_set(before, slot, waker),
    ensures
        waker_left(before, after, slot, waker),
{
    assert forall|t: int| t != slot implies #[trigger] values_in(after, t) == values_in(
        before,
        t,
    ) by {}
}

/// A poll of a send is over just when the ring has room, and then the value is sent,
/// or when the receiver is gone, and then the value comes back. Otherwise the value
/// stays with the caller and a waker is left behind.
pub proof fn law_poll_send<T>(
    tx: &mut Sender,
    ch: &mut Channel<T>,
    value: &mut Option<T>,
    r: Poll<Result<(), SendError<T>>>,
)
    requires
        call_ensures(Sender::poll_send::<T>, (tx, ch, value), r),
        old(ch).wf(),
        old(ch).owns(old(tx)),
        *old(value) is Some,
    ensures
        ({
            let slot = old(tx).key.slot as int;
            let room = room_in(old(ch), slot) > 0;
            let alive = old(ch).receiver_alive;
            let sent = (*old(value))->Some_0;
            &&& r is Pending <==> alive && !room
            &&& (r matches Poll::Ready(Ok(_))) <==> alive && room
            &&& r == Poll::<Result<(), SendError<T>>>::Ready(Err(SendError(sent))) <==> !alive
            &&& r is Pending ==> *final(value) == *old(value) && waker_left(
                old(ch),
                final(ch),
                slot,
                true,
            )
            &&& r is Ready ==> *final(value) is None && !final(ch).lanes@[slot]->Some_0.signal.space_waiter.waker
            &&& alive && room ==> {
                &&& values_in(final(ch), slot) == values_in(old(ch), slot).push(sent)
                &&& room_in(final(ch), slot) == room_in(old(ch), slot) - 1
                &&& same_elsewhere(old(ch), final(ch), slot)
                &&& !old(ch).lanes@[slot]->Some_0.signal.pending ==> woken(
                    old(ch).data_waiter,
                    final(ch).data_waiter,
                )
            }
            &&& !alive ==> forall|t: int| #[trigger]
                values_in(final(ch), t) == values_in(old(ch), t)
        }),
{
    let slot = old(tx).key.slot as int;
    assert(old(ch).lanes@[slot] is Some);
    match r {
        Poll::Pending => {
            lemma_waker_left(old(ch), final(ch), slot, true);
        },
        Poll::Ready(result) => {
            let mid = choose|mid: Channel<T>| #[trigger]
                mid.space_waker_set(old(ch), slot, false) && if result is Ok {
                    final(ch).sent(&mid, slot, (*old(value))->Some_0)
                } else {
                    final(ch).unchanged(&mid)
                };
            lemma_waker_left(old(ch), &mid, slot, false);
            old(ch).lemma_space_waiter(&mid, slot, mid.lane(slot).signal.space_waiter);
            if result is Ok {
                lemma_sent(&mid, final(ch), slot, (*old(value))->Some_0);
                assert forall|t: int| t != slot implies #[trigger] values_in(final(ch), t)
                    == values_in(old(ch), t) by {
                    assert(values_in(&mid, t) == values_in(old(ch), t));
                }
            } else {
                lemma_unchanged(&mid, final(ch));
                assert forall|t: int| #[trigger] values_in(final(ch), t) == values_in(
                    old(ch),
                    t,
                ) by {
                    assert(values_in(&mid, t) == values_in(old(ch), t));
                }
            }
        },
    }
}

/// Taking a waker back takes it back, and does nothing else.
pub proof fn law_cancel_send_wait<T>(tx: &mut Sender, ch: &mut Channel<T>)
    requires
        call_ensures(Sender::cancel_send_wait::<T>, (tx, ch), ()),
        old(ch).wf(),
        old(ch).owns(old(tx)),
    ensures
        waker_left(old(ch), final(ch), old(tx).key.slot as int, false),
{
    assert(old(ch).lanes@[old(tx).key.slot as int] is Some);
    lemma_waker_left(old(ch), final(ch), old(tx).key.slot as int, false);
}

/// Taking the receiver's waker back takes it back, and does nothing else.
pub proof fn law_cancel_recv_wait<T>(rx: &mut Receiver, ch: &mut Channel<T>)
    requires
        call_ensures(Receiver::cancel_recv_wait::<T>, (rx, ch), ()),
    ensures
        !final(ch).data_waiter.waker,
        final(ch).data_waiter.state == old(ch).data_waiter.state,
        final(ch).lanes == old(ch).lanes,
        final(ch).live_senders == old(ch).live_senders,
        final(ch).receiver_alive == old(ch).receiver_alive,
{
}

/// A parked sender sleeps on just while the number in its cell is its snapshot.
pub proof fn law_sender_park<T>(
    tx: &mut Sender,
    ch: &mut Channel<T>,
    wait: &WaitRegistration,
    sleep: bool,
)
    requires
        call_ensures(Sender::park::<T>, (tx, ch, wait), sleep),
        old(ch).wf(),
        old(ch).owns(old(tx)),
    ensures
        ({
            let slot = old(tx).key.slot as int;
            let cell = old(ch).lanes@[slot]->Some_0.signal.space_waiter;
            let now = final(ch).lanes@[slot]->Some_0.signal.space_waiter;
            &&& sleep == (cell.state == wait.snapshot)
            &&& sleep ==> final(ch).lanes@ == old(ch).lanes@
            &&& !sleep ==> now.state % 2 == 0 && now.state / 2 == cell.state / 2
            &&& now.waker == cell.waker
            &&& forall|t: int| #[trigger] values_in(final(ch), t) == values_in(old(ch), t)
            &&& room_in(final(ch), slot) == room_in(old(ch), slot)
            &&& final(ch).data_waiter == old(ch).data_waiter
        }),
{
    let slot = old(tx).key.slot as int;
    assert(old(ch).lanes@[slot] is Some);
    if sleep {
        assert(final(ch).lanes@ =~= old(ch).lanes@);
    }
}

/// A parked receiver sleeps on just while the number in the cell is its snapshot.
pub proof fn law_receiver_park<T>(
    rx: &mut Receiver,
    ch: &mut Channel<T>,
    wait: &WaitRegistration,
    sleep: bool,
)
    requires
        call_ensures(Receiver::park::<T>, (rx, ch, wait), sleep),
    ensures
        sleep == (old(ch).data_waiter.state == wait.snapshot),
        sleep ==> final(ch).data_waiter == old(ch).data_waiter,
        !sleep ==> final(ch).data_waiter.state % 2 == 0 && final(ch).data_waiter.state / 2 == old(ch).data_waiter.state / 2,
        final(ch).data_waiter.waker == old(ch).data_waiter.waker,
        final(ch).lanes == old(ch).lanes,
        final(ch).live_senders == old(ch).live_senders,
        final(ch).receiver_alive == old(ch).receiver_alive,
{
}

/// The end of a wait takes the waiter bit back, and does nothing else.
pub proof fn law_unpark<T>(
    tx: &mut Sender,
    tx_ch: &mut Channel<T>,
    rx: &mut Receiver,
    rx_ch: &mut Channel<T>,
    wait: &WaitRegistration,
)
    requires
        call_ensures(Sender::unpark::<T>, (tx, tx_ch, wait), ()),
        call_ensures(Receiver::unpark::<T>, (rx, rx_ch, wait), ()),
        old(tx_ch).wf(),
        old(tx_ch).owns(old(tx)),
    ensures
        ({
            let slot = old(tx).key.slot as int;
            let cell = old(tx_ch).lanes@[slot]->Some_0.signal.space_waiter;
            let now = final(tx_ch).lanes@[slot]->Some_0.signal.space_waiter;
            &&& now.state % 2 == 0 && now.state / 2 == cell.state / 2 && now.waker == cell.waker
            &&& forall|t: int| #[trigger] values_in(final(tx_ch), t) == values_in(old(tx_ch), t)
            &&& room_in(final(tx_ch), slot) == room_in(old(tx_ch), slot)
        }),
        final(rx_ch).data_waiter.state % 2 == 0,
        final(rx_ch).data_waiter.state / 2 == old(rx_ch).data_waiter.state / 2,
        final(rx_ch).data_waiter.waker == old(rx_ch).data_waiter.waker,
        final(rx_ch).lanes == old(rx_ch).lanes,
{
    assert(old(tx_ch).lanes@[old(tx).key.slot as int] is Some);
}

/// Dropping any sender tells the receiver, in both ways. While the receiver is there
/// the unread values stay to be received; otherwise the lane goes with its sender.
pub proof fn law_sender_close<T>(tx: Sender, ch: &mut Channel<T>)
    requires
        call_ensures(Sender::close::<T>, (tx, ch), ()),
        old(ch).wf(),
        old(ch).owns(&tx),
    ensures
        ({
            let slot = tx.key.slot as int;
            &&& woken(old(ch).data_waiter, final(ch).data_waiter)
            &&& final(ch).live_senders == old(ch).live_senders - 1
            &&& same_elsewhere(old(ch), final(ch), slot)
            &&& old(ch).receiver_alive ==> {
                &&& has_lane(final(ch), slot)
                &&& values_in(final(ch), slot) == values_in(old(ch), slot)
                &&& final(ch).lanes@[slot]->Some_0.ring.producer_closed
                &&& final(ch).lanes@[slot]->Some_0.signal.pending
                &&& !final(ch).lanes@[slot]->Some_0.signal.space_waiter.waker
            }
            &&& !old(ch).receiver_alive ==> !has_lane(final(ch), slot)
            &&& final(ch).registered_lanes == old(ch).registered_lanes
        }),
{
    let slot = tx.key.slot as int;
    assert(old(ch).lanes@[slot] is Some);
    assert forall|t: int| t != slot implies #[trigger] values_in(final(ch), t) == values_in(
        old(ch),
        t,
    ) by {
        if 0 <= t < old(ch).lanes@.len() {
            assert(final(ch).lanes@[t] == old(ch).lanes@[t]);
        }
    }
    if old(ch).receiver_alive {
        assert(final(ch).lanes@[slot]->Some_0.ring@ =~= old(ch).lanes@[slot]->Some_0.ring@);
    }
}

/// Dropping the receiver tells every live sender, in both ways. A coordinated
/// channel then holds no value; any other keeps a live sender's values.
pub proof fn law_receiver_close<T>(rx: Receiver, ch: &mut Channel<T>)
    requires
        call_ensures(Receiver::close::<T>, (rx, ch), ()),
        old(ch).wf(),
        old(ch).receiver_alive,
    ensures
        !final(ch).receiver_alive,
        !final(ch).data_waiter.waker,
        final(ch).live_senders == old(ch).live_senders,
        forall|t: int| #[trigger]
            has_lane(final(ch), t) <==> has_lane(old(ch), t) && !old(ch).lanes@[t]->Some_0.ring.producer_closed,
        forall|t: int| #[trigger]
            has_lane(final(ch), t) ==> woken(
                old(ch).lanes@[t]->Some_0.signal.space_waiter,
                final(ch).lanes@[t]->Some_0.signal.space_waiter,
            ),
        old(ch).coordinated ==> nothing_unread(final(ch)),
        !old(ch).coordinated ==> forall|t: int| #[trigger]
            has_lane(final(ch), t) ==> values_in(final(ch), t) == values_in(old(ch), t),
{
    assert forall|t: int|
        0 <= t < old(ch).lanes@.len() implies abandoned(
        old(ch).lanes@[t],
        #[trigger] final(ch).lanes@[t],
    ) && (old(ch).lanes@[t] is Some ==> old(ch).lanes@[t]->Some_0.ring.coordinated == old(ch).coordinated) by {
        if old(ch).lanes@[t] is Some {
            assert(old(ch).present(t));
        }
    }
    assert forall|t: int| #[trigger]
        has_lane(final(ch), t) <==> has_lane(old(ch), t) && !old(ch).lanes@[t]->Some_0.ring.producer_closed by {
        if 0 <= t < old(ch).lanes@.len() {
            assert(abandoned(old(ch).lanes@[t], final(ch).lanes@[t]));
        }
    }
    assert forall|t: int| #[trigger] has_lane(final(ch), t) implies woken(
        old(ch).lanes@[t]->Some_0.signal.space_waiter,
        final(ch).lanes@[t]->Some_0.signal.space_waiter,
    ) by {
        assert(abandoned(old(ch).lanes@[t], final(ch).lanes@[t]));
    }
    if old(ch).coordinated {
        assert forall|t: int| #[trigger] values_in(final(ch), t).len() == 0 by {
            if has_lane(final(ch), t) {
                assert(abandoned(old(ch).lanes@[t], final(ch).lanes@[t]));
            }
        }
    } else {
        assert forall|t: int| #[trigger] has_lane(final(ch), t) implies values_in(final(ch), t)
            == values_in(old(ch), t) by {
            assert(abandoned(old(ch).lanes@[t], final(ch).lanes@[t]));
        }
    }
}

/// What a registration did: there is one more sender, with an empty lane of its own
/// that has all its room, and nothing else differs.
pub open spec fn lane_added<T>(before: &Channel<T>, after: &Channel<T>, tx: Sender) -> bool {
    let slot = tx.key.slot as int;
    &&& !has_lane(before, slot)
    &&& has_lane(after, slot)
    &&& after.lanes@[slot]->Some_0.key == tx.key
    &&& values_in(after, slot).len() == 0
    &&& room_in(after, slot) == after.capacity
    &&& !after.lanes@[slot]->Some_0.signal.space_waiter.waker
    &&& forall|t: int| t != slot ==> #[trigger] has_lane(after, t) == has_lane(before, t)
    &&& forall|t: int| #[trigger] has_lane(before, t) ==> after.lanes@[t] == before.lanes@[t]
    &&& after.lanes@.len() <= before.lanes@.len() + 1
    &&& after.live_senders == before.live_senders + 1
    &&& after.registered_lanes == before.registered_lanes + 1
    &&& after.data_waiter == before.data_waiter
    &&& after.receiver_alive
    &&& after.capacity == before.capacity
}

/// A registration, in plain terms.
proof fn lemma_registered<T>(before: &Channel<T>, after: &Channel<T>, tx: Sender)
    requires
        before.wf(),
        before.receiver_alive,
        before.lanes@.len() < usize::MAX,
        after.wf(),
        after.registered(before, tx.key),
    ensures
        lane_added(before, after, tx),
{
    let slot = tx.key.slot as int;
    assert(after.lanes@[slot] is Some);
    assert(after.lanes@[slot]->Some_0.ring@ =~= Seq::<T>::empty());
    assert forall|t: int| t != slot implies #[trigger] has_lane(after, t) == has_lane(before, t) by {
        if 0 <= t < before.lanes@.len() {
            assert(after.lanes@[t] == before.lanes@[t]);
        }
    }
    assert forall|t: int| #[trigger] has_lane(before, t) implies after.lanes@[t]
        == before.lanes@[t] by {
        assert(t != slot) by {
            assert(!before.present(slot));
        }
    }
}

/// A sender registers another one just while the receiver is there, and with a limit
/// just while fewer lanes are registered. A refusal changes nothing.
pub proof fn law_registrations<T>(
    tx: &Sender,
    cloned: &mut Channel<T>,
    some: Option<Sender>,
    registered: &mut Channel<T>,
    ok: Result<Sender, TryRegisterError>,
    bounded: &mut Channel<T>,
    max_lanes: usize,
    within: Result<Sender, TryRegisterBoundedError>,
)
    requires
        call_ensures(Sender::try_clone::<T>, (tx, cloned), some),
        old(cloned).wf(),
        old(cloned).lanes@.len() < usize::MAX,
        call_ensures(Sender::try_register::<T>, (tx, registered), ok),
        old(registered).wf(),
        old(registered).lanes@.len() < usize::MAX,
        call_ensures(Sender::try_register_bounded::<T>, (tx, bounded, max_lanes), within),
        old(bounded).wf(),
        old(bounded).lanes@.len() < usize::MAX,
    ensures
        some is Some <==> old(cloned).receiver_alive,
        some matches Some(more) ==> lane_added(old(cloned), final(cloned), more),
        some is None ==> *final(cloned) == *old(cloned),
        ok is Ok <==> old(registered).receiver_alive,
        ok matches Ok(more) ==> lane_added(old(registered), final(registered), more),
        ok is Err ==> *final(registered) == *old(registered),
        within is Ok <==> old(bounded).receiver_alive && old(bounded).registered_lanes < max_lanes,
        within matches Ok(more) ==> lane_added(old(bounded), final(bounded), more),
        within is Err ==> *final(bounded) == *old(bounded),
        within == Err::<Sender, TryRegisterBoundedError>(TryRegisterBoundedError::AtCapacity)
            <==> old(bounded).receiver_alive && old(bounded).registered_lanes >= max_lanes,
{
    if let Some(more) = some {
        lemma_registered(old(cloned), final(cloned), more);
    }
    if let Ok(more) = ok {
        lemma_registered(old(registered), final(registered), more);
    }
    if let Ok(more) = within {
        lemma_registered(old(bounded), final(bounded), more);
    }
}

/// The number of registered lanes is the number of slots that hold one, and the
/// number of live senders the number of those whose sender is there.
pub proof fn law_lanes_are_counted<T>(ch: Channel<T>)
    requires
        ch.wf(),
        ch.receiver_alive,
    ensures
        ch.live_senders <= ch.registered_lanes <= ch.lanes@.len(),
        ch.registered_lanes == 0 <==> forall|t: int| !#[trigger] has_lane(&ch, t),
        ch.live_senders == 0 <==> forall|t: int| #[trigger]
            has_lane(&ch, t) ==> ch.lanes@[t]->Some_0.ring.producer_closed,
{
    lemma_count_bound(occupied(ch.lanes@));
    lemma_count_within(connected(ch.lanes@), occupied(ch.lanes@));
    lemma_count_zero(occupied(ch.lanes@));
    lemma_count_zero(connected(ch.lanes@));
    if forall|t: int| !#[trigger] has_lane(&ch, t) {
        assert forall|i: int| 0 <= i < occupied(ch.lanes@).len() implies !#[trigger] occupied(
            ch.lanes@,
        )[i] by {
            assert(!has_lane(&ch, i));
        }
    }
    if ch.registered_lanes == 0 {
        assert forall|t: int| !#[trigger] has_lane(&ch, t) by {
            if has_lane(&ch, t) {
                assert(occupied(ch.lanes@)[t]);
            }
        }
    }
    if forall|t: int| #[trigger]
        has_lane(&ch, t) ==> ch.lanes@[t]->Some_0.ring.producer_closed {
        assert forall|i: int| 0 <= i < connected(ch.lanes@).len() implies !#[trigger] connected(
            ch.lanes@,
        )[i] by {
            assert(has_lane(&ch, i) ==> ch.lanes@[i]->Some_0.ring.producer_closed);
        }
    }
    if ch.live_senders == 0 {
        assert forall|t: int| #[trigger] has_lane(&ch, t) implies
            ch.lanes@[t]->Some_0.ring.producer_closed by {
            assert(!connected(ch.lanes@)[t]);
        }
    }
}


/// Whether the three make up a new channel for `requested` values per sender: the
/// capacity is the least power of two that is enough, and there are one sender with
/// an empty lane and one receiver.
pub open spec fn just_made<T>(
    ch: &Channel<T>,
    tx: &Sender,
    rx: &Receiver,
    requested: usize,
    coordinated: bool,
) -> bool {
    &&& ch.wf()
    &&& requested <= ch.capacity < 2 * requested
    &&& exists|k: nat| ch.capacity == #[trigger] pow2(k)
    &&& rx.capacity == ch.capacity
    &&& ch.coordinated == coordinated
    &&& ch.receiver_alive
    &&& ch.live_senders == 1
    &&& ch.registered_lanes == 1
    &&& ch.lanes@.len() == 1
    &&& tx.key.slot == 0
    &&& has_lane(ch, 0)
    &&& ch.owns(tx)
    &&& room_in(ch, 0) == ch.capacity
    &&& nothing_unread(ch)
    &&& ch.items_until_ready_poll == 64
    &&& !ch.data_waiter.waker
    &&& !ch.lanes@[0]->Some_0.signal.space_waiter.waker
    &&& !ch.lanes@[0]->Some_0.ring.producer_closed
}

/// Each way to make a channel makes a new one. It is coordinated just if that was
/// asked for, and the checked way refuses a capacity of zero and one beyond a
/// quarter of the range of `usize`, and no other.
pub proof fn law_channels_are_new<T>(
    requested: usize,
    plain: (Channel<T>, Sender, Receiver),
    deferred: (Channel<T>, Sender, Receiver),
    coordinated: (Channel<T>, Sender, Receiver),
    checked: usize,
    tried: Result<(Channel<T>, Sender, Receiver), ChannelError>,
)
    requires
        0 < requested <= usize::MAX / 4 + 1,
        call_ensures(channel::<T>, (requested,), plain),
        call_ensures(channel_with_policy::<T, Deferred>, (requested,), deferred),
        call_ensures(channel_with_policy::<T, Coordinated>, (requested,), coordinated),
        call_ensures(try_channel::<T>, (checked,), tried),
    ensures
        just_made(&plain.0, &plain.1, &plain.2, requested, false),
        just_made(&deferred.0, &deferred.1, &deferred.2, requested, false),
        just_made(&coordinated.0, &coordinated.1, &coordinated.2, requested, true),
        tried is Ok <==> 0 < checked <= usize::MAX / 4 + 1,
        tried matches Ok(r) ==> just_made(&r.0, &r.1, &r.2, checked, false),
        tried matches Err(error) ==> error == if checked == 0 {
            ChannelError::ZeroCapacity
        } else {
            ChannelError::CapacityTooLarge {
                requested: checked,
                max: (usize::MAX / 4 + 1) as usize,
            }
        },
{
    lemma_just_made(&plain.0, &plain.1, &plain.2, requested, false);
    lemma_just_made(&deferred.0, &deferred.1, &deferred.2, requested, false);
    lemma_just_made(&coordinated.0, &coordinated.1, &coordinated.2, requested, true);
    if let Ok(r) = tried {
        lemma_just_made(&r.0, &r.1, &r.2, checked, false);
    }
}

/// A new channel, in plain terms.
proof fn lemma_just_made<T>(
    ch: &Channel<T>,
    tx: &Sender,
    rx: &Receiver,
    requested: usize,
    coordinated: bool,
)
    requires
        is_new(ch, tx, rx, requested, coordinated),
    ensures
        just_made(ch, tx, rx, requested, coordinated),
{
    assert(ch.lanes@[0] is Some);
    assert(ch.lanes@[0]->Some_0.ring@ =~= Seq::<T>::empty());
}

/// What an endpoint tells of its channel.
pub proof fn law_endpoints_tell<T>(
    tx: &Sender,
    rx: &Receiver,
    ch: &Channel<T>,
    lane: usize,
    capacity: usize,
    senders: (usize, usize),
    receivers: (usize, usize),
    lanes: usize,
    no_receiver: bool,
    no_sender: bool,
    per_sender: usize,
)
    requires
        call_ensures(Sender::lane_id, (tx,), lane),
        call_ensures(Sender::capacity::<T>, (tx, ch), capacity),
        call_ensures(Sender::sender_count::<T>, (tx, ch), senders.0),
        call_ensures(Receiver::sender_count::<T>, (rx, ch), senders.1),
        call_ensures(Sender::receiver_count::<T>, (tx, ch), receivers.0),
        call_ensures(Receiver::receiver_count::<T>, (rx, ch), receivers.1),
        call_ensures(Sender::registered_lanes::<T>, (tx, ch), lanes),
        call_ensures(Sender::is_disconnected::<T>, (tx, ch), no_receiver),
        call_ensures(Receiver::is_disconnected::<T>, (rx, ch), no_sender),
        call_ensures(Receiver::capacity_per_sender, (rx,), per_sender),
    ensures
        lane == tx.key.slot,
        capacity == ch.capacity,
        senders == (ch.live_senders, ch.live_senders),
        receivers.0 == receivers.1,
        receivers.0 == 1 <==> ch.receiver_alive,
        receivers.0 == 0 <==> !ch.receiver_alive,
        lanes == ch.registered_lanes,
        no_receiver == !ch.receiver_alive,
        no_sender == (ch.live_senders == 0),
        per_sender == rx.capacity,
{
}

/// What goes into an empty channel comes out of it.
pub proof fn law_sent_value_comes_back<T>(
    tx: &mut Sender,
    sending: &mut Channel<T>,
    value: T,
    rx: &mut Receiver,
    receiving: &mut Channel<T>,
    result: Result<T, TryRecvError>,
)
    requires
        old(sending).wf(),
        old(sending).owns(old(tx)),
        nothing_unread(old(sending)),
        call_ensures(Sender::try_send::<T>, (tx, sending, value), Ok(())),
        *old(receiving) == *final(sending),
        call_ensures(Receiver::try_recv::<T>, (rx, receiving), result),
    ensures
        result == Ok::<T, TryRecvError>(value),
        nothing_unread(final(receiving)),
{
    let slot = old(tx).key.slot as int;
    law_try_send(tx, sending, value, Ok(()));
    law_try_recv(rx, receiving, result);
    assert(values_in(old(sending), slot).len() == 0);
    assert(values_in(old(receiving), slot) =~= seq![value]);
    assert(!nothing_unread(old(receiving)));
    let from = choose|slot: int| #[trigger]
        values_in(old(receiving), slot).len() > 0 && result->Ok_0 == values_in(
            old(receiving),
            slot,
        )[0] && values_in(final(receiving), slot) == values_in(old(receiving), slot).drop_first()
            && forall|t: int|
            t != slot ==> #[trigger] values_in(final(receiving), t) == values_in(old(receiving), t);
    assert(from == slot) by {
        if from != slot {
            assert(values_in(old(receiving), from) == values_in(old(sending), from));
            assert(values_in(old(sending), from).len() == 0);
        }
    }
    assert forall|t: int| #[trigger] values_in(final(receiving), t).len() == 0 by {
        if t != slot {
            assert(values_in(final(receiving), t) == values_in(old(receiving), t));
            assert(values_in(old(receiving), t) == values_in(old(sending), t));
            assert(values_in(old(sending), t).len() == 0);
        }
    }
}

/// A receiver that went to sleep does not sleep on once a value was sent.
pub proof fn law_sleeping_receiver_is_woken<T>(
    rx: &mut Receiver,
    falling_asleep: &mut Channel<T>,
    attempt: usize,
    wait: WaitRegistration,
    tx: &mut Sender,
    sending: &mut Channel<T>,
    value: T,
    waking: &mut Channel<T>,
    sleeper: &mut Receiver,
    sleep: bool,
)
    requires
        old(falling_asleep).wf(),
        old(falling_asleep).receiver_alive,
        call_ensures(Receiver::recv::<T>, (rx, falling_asleep, attempt), RecvProgress::Park(wait)),
        *old(sending) == *final(falling_asleep),
        old(sending).owns(old(tx)),
        call_ensures(Sender::try_send::<T>, (tx, sending, value), Ok(())),
        *old(waking) == *final(sending),
        call_ensures(Receiver::park::<T>, (sleeper, waking, &wait), sleep),
    ensures
        !sleep,
{
    law_recv(rx, falling_asleep, attempt, RecvProgress::Park(wait));
    law_try_send(tx, sending, value, Ok(()));
    law_receiver_park(sleeper, waking, &wait, sleep);
    let slot = old(tx).key.slot as int;
    assert(old(sending).lanes@[slot] is Some);
    assert(has_lane(final(falling_asleep), slot));
}

/// A task whose receive is pending is woken by the next send, and by the end of any
/// sender.
pub proof fn law_pending_receive_is_woken<T>(
    rx: &mut Receiver,
    polling: &mut Channel<T>,
    tx: &mut Sender,
    sending: &mut Channel<T>,
    value: T,
    gone: Sender,
    closing: &mut Channel<T>,
)
    requires
        old(polling).wf(),
        old(polling).receiver_alive,
        call_ensures(Receiver::poll_recv::<T>, (rx, polling), Poll::Pending),
        *old(sending) == *final(polling),
        old(sending).owns(old(tx)),
        call_ensures(Sender::try_send::<T>, (tx, sending, value), Ok(())),
        *old(closing) == *final(polling),
        old(closing).owns(&gone),
        call_ensures(Sender::close::<T>, (gone, closing), ()),
    ensures
        final(polling).data_waiter.waker,
        !final(sending).data_waiter.waker,
        !final(closing).data_waiter.waker,
{
    law_poll_recv(rx, polling, Poll::Pending);
    law_try_send(tx, sending, value, Ok(()));
    law_sender_close(gone, closing);
    let slot = old(tx).key.slot as int;
    assert(old(sending).lanes@[slot] is Some);
    assert(has_lane(final(polling), slot));
}

/// A task whose send is pending is woken by the next poll of a receive that takes
/// a value from its lane, and by the end of the receiver.
pub proof fn law_pending_send_is_woken<T>(
    tx: &mut Sender,
    polling: &mut Channel<T>,
    value: &mut Option<T>,
    rx: &mut Receiver,
    receiving: &mut Channel<T>,
    result: Poll<Result<T, RecvError>>,
    gone: Receiver,
    closing: &mut Channel<T>,
)
    requires
        old(polling).wf(),
        old(polling).owns(old(tx)),
        *old(value) is Some,
        call_ensures(Sender::poll_send::<T>, (tx, polling, value), Poll::Pending),
        *old(receiving) == *final(polling),
        call_ensures(Receiver::poll_recv::<T>, (rx, receiving), result),
        values_in(final(receiving), old(tx).key.slot as int).len() < values_in(
            old(receiving),
            old(tx).key.slot as int,
        ).len(),
        has_lane(final(receiving), old(tx).key.slot as int),
        *old(closing) == *final(polling),
        call_ensures(Receiver::close::<T>, (gone, closing), ()),
    ensures
        ({
            let slot = old(tx).key.slot as int;
            &&& final(polling).lanes@[slot]->Some_0.signal.space_waiter.waker
            &&& !final(receiving).lanes@[slot]->Some_0.signal.space_waiter.waker
            &&& room_in(final(receiving), slot) > 0
            &&& !final(closing).lanes@[slot]->Some_0.signal.space_waiter.waker
        }),
{
    let slot = old(tx).key.slot as int;
    law_poll_send(tx, polling, value, Poll::Pending);
    law_poll_recv(rx, receiving, result);
    law_receiver_close(gone, closing);
    assert(has_lane(old(receiving), slot));
    assert(old(receiving).lanes@[slot] is Some);
    assert(has_lane(final(closing), slot));
}

/// A sender that went to sleep does not sleep on once a receive has made room in
/// its lane.
pub proof fn law_sleeping_sender_is_woken<T>(
    tx: &mut Sender,
    falling_asleep: &mut Channel<T>,
    value: T,
    attempt: usize,
    back: T,
    wait: WaitRegistration,
    rx: &mut Receiver,
    receiving: &mut Channel<T>,
    result: Result<T, TryRecvError>,
    sleeper: &mut Sender,
    waking: &mut Channel<T>,
    sleep: bool,
)
    requires
        old(falling_asleep).wf(),
        old(falling_asleep).owns(old(tx)),
        call_ensures(
            Sender::send::<T>,
            (tx, falling_asleep, value, attempt),
            SendProgress::Park(back, wait),
        ),
        *old(receiving) == *final(falling_asleep),
        call_ensures(Receiver::try_recv::<T>, (rx, receiving), result),
        has_lane(final(receiving), old(tx).key.slot as int),
        room_in(final(receiving), old(tx).key.slot as int) > 0,
        *old(waking) == *final(receiving),
        *old(sleeper) == *old(tx),
        old(waking).owns(old(sleeper)),
        call_ensures(Sender::park::<T>, (sleeper, waking, &wait), sleep),
    ensures
        back == value,
        !sleep,
{
    law_send(tx, falling_asleep, value, attempt, SendProgress::Park(back, wait));
    law_try_recv(rx, receiving, result);
    law_sender_park(sleeper, waking, &wait, sleep);
    let slot = old(tx).key.slot as int;
    assert(has_lane(old(receiving), slot));
    assert(old(falling_asleep).lanes@[slot] is Some);
}

/// A poll of a lane takes its oldest value. Every 64th value in a row moves the
/// lane behind the others, and the slots are given back once as many values were
/// taken as the ring has slots, or 64 if it has more.
pub proof fn law_poll_lane<T>(ch: &mut Channel<T>, key: LaneKey, poll: LanePoll<T>)
    requires
        call_ensures(Channel::<T>::poll_lane, (ch, key), poll),
        old(ch).wf(),
        old(ch).receiver_alive,
        has_lane(old(ch), key.slot as int),
        old(ch).lanes@[key.slot as int]->Some_0.key == key,
    ensures
        match poll {
            LanePoll::Item { value, rotate, released } => {
                let before = old(ch).lanes@[key.slot as int]->Some_0;
                let after = final(ch).lanes@[key.slot as int]->Some_0;
                &&& values_in(old(ch), key.slot as int) == seq![value] + values_in(
                    final(ch),
                    key.slot as int,
                )
                &&& rotate <==> before.burst == 63
                &&& after.burst == if rotate {
                    0
                } else {
                    before.burst + 1
                }
                &&& released <==> before.ring.consumed + 1 == if old(ch).capacity < 64 {
                    old(ch).capacity as int
                } else {
                    64
                }
                &&& after.ring.consumed == if released {
                    0
                } else {
                    before.ring.consumed + 1
                }
            },
            LanePoll::Idle { disconnected, .. } => {
                &&& values_in(old(ch), key.slot as int).len() == 0
                &&& disconnected == old(ch).lanes@[key.slot as int]->Some_0.ring.producer_closed
            },
            _ => false,
        },
{
    let slot = key.slot as int;
    assert(old(ch).present(slot));
    assert(old(ch).holds(key));
    let before = old(ch).lane(slot);
    let after = final(ch).lane(slot);
    if let LanePoll::Item { value, .. } = poll {
        assert(before.ring@ =~= seq![value] + before.ring@.drop_first());
    }
}

/// A receiver with a busy lane looks for others once in 64 values.
pub proof fn law_looks_are_counted<T>(
    rx: &mut Receiver,
    ch: &mut Channel<T>,
    r: Result<T, TryRecvError>,
)
    requires
        call_ensures(Receiver::try_recv::<T>, (rx, ch), r),
        old(ch).wf(),
        old(ch).receiver_alive,
        r is Ok,
    ensures
        final(ch).items_until_ready_poll == if old(ch).items_until_ready_poll == 0 {
            63
        } else {
            old(ch).items_until_ready_poll - 1
        },
{
}

} // verus!
