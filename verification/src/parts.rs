//! What the parts of a channel do, call by call.
use vstd::prelude::*;

use crate::config::{round_capacity, validate_capacity};
use crate::error::ChannelError;
use crate::publication::PublicationTracker;
use crate::ring::Ring;
use crate::wait::{
    MultiWaitCell, MultiWaitRegistration, Notice, WaitCell, WaitRegistration,
};

verus! {

/// A capacity is accepted exactly from one up to the largest.
pub proof fn law_validate_capacity(capacity: usize, max: usize, r: Result<(), ChannelError>)
    requires
        call_ensures(validate_capacity, (capacity, max), r),
    ensures
        r is Ok <==> 1 <= capacity <= max,
        r is Err && capacity == 0 ==> r->Err_0 is ZeroCapacity,
        r is Err && capacity > 0 ==> r->Err_0 == (ChannelError::CapacityTooLarge {
            requested: capacity,
            max,
        }),
{
}

/// A rounded capacity is the least power of two that is large enough: rounding it
/// again changes nothing, no smaller capacity rounds to a larger one, and it is
/// even unless it is one.
pub proof fn law_round_capacity(a: usize, b: usize, x: usize, y: usize, z: usize)
    requires
        call_ensures(round_capacity, (a,), x),
        call_ensures(round_capacity, (b,), y),
        call_ensures(round_capacity, (x,), z),
        0 < a <= b,
    ensures
        a <= x < 2 * a,
        x <= y,
        z == x,
        x == 1 || x % 2 == 0,
        y < 2 * x || y as int % (2 * x) == 0,
{
    let i = choose|k: nat| x == #[trigger] vstd::arithmetic::power2::pow2(k);
    let j = choose|k: nat| y == #[trigger] vstd::arithmetic::power2::pow2(k);
    crate::config::law_rounding_is_unique(x as int, x as int, z as int);
    vstd::arithmetic::power2::lemma2_to64();
    if i > 0 {
        vstd::arithmetic::power2::lemma_pow2_unfold(i);
    }
    if j < i {
        lemma_power_grows((j + 1) as nat, i);
        vstd::arithmetic::power2::lemma_pow2_unfold((j + 1) as nat);
    }
    if i < j {
        lemma_power_grows(i, j);
        vstd::arithmetic::power2::lemma_pow2_unfold((i + 1) as nat);
        vstd::arithmetic::power2::lemma_pow2_adds((j - i - 1) as nat, (i + 1) as nat);
        vstd::arithmetic::div_mod::lemma_mod_multiples_basic(
            vstd::arithmetic::power2::pow2((j - i - 1) as nat) as int,
            2 * x,
        );
    }
}

/// A larger exponent makes no smaller power.
proof fn lemma_power_grows(i: nat, j: nat)
    requires
        i <= j,
    ensures
        vstd::arithmetic::power2::pow2(i) <= vstd::arithmetic::power2::pow2(j),
    decreases j,
{
    if i < j {
        lemma_power_grows(i, (j - 1) as nat);
        vstd::arithmetic::power2::lemma_pow2_unfold(j);
    }
}

/// A new ring has all its slots free and both ends open.
pub proof fn law_new_ring<T>(capacity: usize, coordinated: bool, ring: Ring<T>)
    requires
        call_ensures(Ring::<T>::new, (capacity, coordinated), ring),
    ensures
        ring.slots@.len() == capacity,
        ring@.len() == 0,
        ring.consumed == 0,
        ring.coordinated == coordinated,
        !ring.producer_closed && !ring.consumer_closed && !ring.sending,
{
}

/// A push takes a free slot, neither unread nor popped and not given back, and is
/// refused only without one. The value stands behind all that were unread, and is
/// neither published nor readable yet.
pub proof fn law_push<T>(ring: &mut Ring<T>, value: T, result: Result<(), T>)
    requires
        call_ensures(Ring::<T>::push, (ring, value), result),
        old(ring).wf(),
    ensures
        result is Ok <==> old(ring)@.len() + old(ring).consumed < old(ring).slots@.len(),
        result is Ok ==> final(ring)@.len() == old(ring)@.len() + 1,
        result is Ok ==> final(ring)@[old(ring)@.len() as int] == value,
        forall|i: int| 0 <= i < old(ring)@.len() ==> final(ring)@[i] == old(ring)@[i],
        result is Err ==> result->Err_0 == value && final(ring)@ == old(ring)@,
        final(ring).flushed == old(ring).flushed,
        final(ring).window == old(ring).window,
        final(ring).consumed == old(ring).consumed,
        final(ring).slots@.len() == old(ring).slots@.len(),
        final(ring).producer_closed == old(ring).producer_closed,
        final(ring).consumer_closed == old(ring).consumer_closed,
{
}

/// A pop takes the oldest value that was fetched, and only one; its slot stays
/// taken.
pub proof fn law_pop<T>(ring: &mut Ring<T>, value: Option<T>)
    requires
        call_ensures(Ring::<T>::pop, (ring,), value),
        old(ring).wf(),
    ensures
        value is Some <==> old(ring).window > 0,
        value is Some ==> value->Some_0 == old(ring)@[0],
        value is Some ==> final(ring)@.len() == old(ring)@.len() - 1,
        value is Some ==> final(ring).window == old(ring).window - 1,
        value is None ==> final(ring)@ == old(ring)@,
        value is Some ==> forall|i: int|
            0 <= i < final(ring)@.len() ==> final(ring)@[i] == old(ring)@[i + 1],
        final(ring)@.len() + final(ring).consumed == old(ring)@.len() + old(ring).consumed,
        final(ring).slots@.len() == old(ring).slots@.len(),
        final(ring).producer_closed == old(ring).producer_closed,
        final(ring).consumer_closed == old(ring).consumer_closed,
{
}

/// What was pushed can be read once it was flushed and fetched.
pub proof fn law_flush<T>(ring: &mut Ring<T>)
    requires
        call_ensures(Ring::<T>::flush, (ring,), ()),
        old(ring).wf(),
    ensures
        final(ring).flushed == old(ring)@.len(),
        final(ring)@ == old(ring)@,
        final(ring).window == old(ring).window,
        final(ring).consumed == old(ring).consumed,
{
}

/// A fetch makes readable what was flushed, and says how much of it is new.
pub proof fn law_prefetch<T>(ring: &mut Ring<T>, fresh: usize)
    requires
        call_ensures(Ring::<T>::prefetch, (ring,), fresh),
        old(ring).wf(),
    ensures
        final(ring).window == old(ring).flushed,
        old(ring).window + fresh == final(ring).window,
        final(ring)@ == old(ring)@,
        final(ring).consumed == old(ring).consumed,
{
}

/// A release frees every popped slot.
pub proof fn law_release<T>(ring: &mut Ring<T>)
    requires
        call_ensures(Ring::<T>::release, (ring,), ()),
        old(ring).wf(),
    ensures
        final(ring).consumed == 0,
        final(ring)@ == old(ring)@,
        final(ring).window == old(ring).window,
        final(ring).flushed == old(ring).flushed,
{
}

/// A producer that closes leaves what was not read.
pub proof fn law_close_producer<T>(ring: &mut Ring<T>)
    requires
        call_ensures(Ring::<T>::close_producer, (ring,), ()),
        old(ring).wf(),
    ensures
        final(ring).producer_closed,
        final(ring).consumer_closed == old(ring).consumer_closed,
        final(ring)@ == old(ring)@,
        final(ring).flushed == old(ring).flushed,
        final(ring).window == old(ring).window,
        final(ring).consumed == old(ring).consumed,
{
}

/// A consumer that closes a coordinated ring drops what was flushed and keeps its
/// slots taken; any other ring keeps all it holds.
pub proof fn law_close_consumer<T>(ring: &mut Ring<T>)
    requires
        call_ensures(Ring::<T>::close_consumer, (ring,), ()),
        old(ring).wf(),
        !old(ring).consumer_closed,
    ensures
        final(ring).consumer_closed,
        final(ring).producer_closed == old(ring).producer_closed,
        !old(ring).coordinated ==> final(ring)@ == old(ring)@,
        old(ring).coordinated ==> final(ring)@.len() == old(ring)@.len() - old(ring).flushed,
        old(ring).coordinated ==> final(ring).flushed == 0 && final(ring).window == 0,
        final(ring)@.len() + final(ring).consumed == old(ring)@.len() + old(ring).consumed,
{
}

/// A value that is sent stands behind the unread ones and is published with them.
/// It comes back without a free slot, and from a coordinated ring without a
/// consumer.
pub proof fn law_push_and_flush<T>(ring: &mut Ring<T>, value: T, result: Result<(), T>)
    requires
        call_ensures(Ring::<T>::push_and_flush, (ring, value), result),
        old(ring).wf(),
    ensures
        result is Ok <==> {
            &&& old(ring)@.len() + old(ring).consumed < old(ring).slots@.len()
            &&& !old(ring).coordinated || !old(ring).consumer_closed
        },
        result is Ok ==> final(ring)@ == old(ring)@ + seq![value],
        result is Err ==> result->Err_0 == value && final(ring)@ == old(ring)@,
        final(ring).flushed == final(ring)@.len(),
        final(ring).window == old(ring).window,
        final(ring).consumed == old(ring).consumed,
        !final(ring).sending,
{
    assert(old(ring)@.push(value) =~= old(ring)@ + seq![value]);
}

/// A waiter that registers sleeps exactly if nothing was notified meanwhile, and a
/// notification after it registered asks for its signal.
pub proof fn law_registered_waiter(
    cell: &mut WaitCell,
    registration: WaitRegistration,
    later: &mut WaitCell,
    notice: Notice,
    again: &mut WaitCell,
    sleep: bool,
)
    requires
        call_ensures(WaitCell::prepare, (cell,), registration),
        *old(later) == *final(cell),
        call_ensures(WaitCell::notify, (later,), notice),
        *old(again) == *final(later) || *old(again) == *final(cell),
        call_ensures(WaitRegistration::wait, (&registration, again), sleep),
    ensures
        notice.signal,
        notice.wake == old(cell).waker,
        !final(later).waker,
        *old(again) == *final(later) ==> !sleep,
        *old(again) == *final(cell) ==> sleep,
        !sleep ==> final(again).state % 2 == 0,
{
    crate::wait::lemma_notified_keeps_waiter(final(cell).state);
}

/// A waker that was left is called by the next notification, once.
pub proof fn law_left_waker(
    cell: &mut WaitCell,
    later: &mut WaitCell,
    notice: Notice,
    again: &mut WaitCell,
    second: Notice,
)
    requires
        call_ensures(WaitCell::register_async, (cell,), ()),
        *old(later) == *final(cell),
        call_ensures(WaitCell::notify, (later,), notice),
        *old(again) == *final(later),
        call_ensures(WaitCell::notify, (again,), second),
    ensures
        final(cell).waker,
        notice.wake,
        !second.wake,
        notice.signal == (old(cell).state % 2 == 1),
        second.signal == notice.signal,
{
    crate::wait::lemma_notified_keeps_waiter(final(cell).state);
}

/// A waker that was withdrawn is not called.
pub proof fn law_withdrawn_waker(cell: &mut WaitCell, later: &mut WaitCell, notice: Notice)
    requires
        call_ensures(WaitCell::cancel_async, (cell,), ()),
        *old(later) == *final(cell),
        call_ensures(WaitCell::notify, (later,), notice),
    ensures
        !notice.wake,
        final(cell).state == old(cell).state,
{
}

/// One notification marks one waiter that was not marked, if there is one, and no
/// waiter misses that something was notified.
pub proof fn law_notify_one(
    cell: &mut MultiWaitCell,
    signal: bool,
    later: &mut MultiWaitCell,
    n: usize,
)
    requires
        call_ensures(MultiWaitCell::notify_one, (cell,), signal),
        old(cell).wf(),
        *old(later) == *final(cell),
        call_ensures(MultiWaitCell::take_signals, (later,), n),
    ensures
        signal <==> old(cell).waiters > 0,
        final(cell).waiters == old(cell).waiters,
        old(cell).signals < old(cell).waiters ==> n == old(cell).signals + 1,
        old(cell).signals >= old(cell).waiters ==> n == old(cell).waiters,
        final(cell).state != old(cell).state,
        final(later).signals == 0,
        final(later).waiters == old(cell).waiters,
{
}

/// A notification of all marks every waiter.
pub proof fn law_notify_all(
    cell: &mut MultiWaitCell,
    signal: bool,
    later: &mut MultiWaitCell,
    n: usize,
)
    requires
        call_ensures(MultiWaitCell::notify_all, (cell,), signal),
        old(cell).wf(),
        *old(later) == *final(cell),
        call_ensures(MultiWaitCell::take_signals, (later,), n),
    ensures
        signal <==> old(cell).waiters > 0,
        n == old(cell).waiters,
        final(cell).waiters == old(cell).waiters,
        final(cell).state != old(cell).state,
        final(later).signals == 0,
{
}

/// A waiter among others sleeps exactly if nothing was notified since it
/// registered. One that does not sleep has left.
pub proof fn law_registered_waiters(
    cell: &mut MultiWaitCell,
    registration: MultiWaitRegistration,
    later: &mut MultiWaitCell,
    signal: bool,
    again: &mut MultiWaitCell,
    sleep: bool,
)
    requires
        call_ensures(MultiWaitCell::prepare, (cell,), registration),
        old(cell).wf(),
        old(cell).waiters < usize::MAX,
        *old(later) == *final(cell),
        call_ensures(MultiWaitCell::notify_one, (later,), signal) || call_ensures(
            MultiWaitCell::notify_all,
            (later,),
            signal,
        ),
        *old(again) == *final(later) || *old(again) == *final(cell),
        call_ensures(MultiWaitRegistration::wait, (&registration, again), sleep),
    ensures
        final(cell).waiters == old(cell).waiters + 1,
        signal,
        *old(again) == *final(later) ==> !sleep,
        *old(again) == *final(cell) ==> sleep,
        !sleep ==> final(again).waiters == old(cell).waiters,
        sleep ==> final(again).waiters == old(cell).waiters + 1,
{
}

/// Work that moves is seen as moving until it has arrived, and then as a change.
pub proof fn law_publication(
    tracker: &mut PublicationTracker,
    before: usize,
    moving: bool,
    later: &mut PublicationTracker,
    changed: bool,
)
    requires
        call_ensures(PublicationTracker::snapshot, (&*old(tracker),), before),
        call_ensures(PublicationTracker::begin, (tracker,), ()),
        old(tracker).in_flight < usize::MAX,
        call_ensures(PublicationTracker::is_in_flight, (&*final(tracker),), moving),
        *old(later) == *final(tracker),
        call_ensures(PublicationTracker::finish, (later,), ()),
        call_ensures(PublicationTracker::changed_since, (&*final(later), before), changed),
    ensures
        moving,
        changed,
        final(later).in_flight == old(tracker).in_flight,
{
}

/// A change without moving work is seen as a change.
pub proof fn law_change(
    tracker: &mut PublicationTracker,
    before: usize,
    changed: bool,
)
    requires
        call_ensures(PublicationTracker::snapshot, (&*old(tracker),), before),
        call_ensures(PublicationTracker::notify_change, (tracker,), ()),
        call_ensures(PublicationTracker::changed_since, (&*final(tracker), before), changed),
    ensures
        changed,
        final(tracker).in_flight == old(tracker).in_flight,
{
}

} // verus!
