//! What holds of the channel over one step, and over whole histories.
//!
//! A history consists of the steps of all endpoints: sends, whether accepted or
//! refused, receives, whatever they answer, waiting, polling and being woken,
//! senders that come and go, and a receiver that goes and leaves the unread
//! values to their senders or discards them.
use vstd::multiset::Multiset;
use vstd::prelude::*;

use crate::bags::{
    lemma_bag_empty, lemma_bag_front, lemma_total_empty, lemma_total_update, total, values_of,
};
use crate::count::{lemma_count_full, lemma_count_zero};
use crate::error::{RecvError, TryRecvError};
use crate::key::LaneKey;
use crate::wait::notified;

use super::receiver::{abandoned, given_back, rested, rotates, settled, RecvProgress};
use super::{connected, occupied, Channel, Sender};

verus! {

/// One step of an endpoint.
pub enum Event<T> {
    /// A value was sent through a slot.
    Sent(int, T),
    /// A value was not accepted by a slot.
    Refused(int, T),
    /// The sender of a slot began, went on or ceased to wait for space, or only
    /// set or took back a waker.
    SenderWaited(int),
    /// A value was received from a slot.
    Received(int, T),
    /// A receive found nothing, and the receiver may have registered for data.
    Missed,
    /// The receiver went on or ceased to wait for data, or only set or took
    /// back a waker.
    ReceiverWaited,
    /// The receiver was dropped.
    ReceiverDropped,
    /// A sender was registered.
    Registered(LaneKey),
    /// The sender of a slot was dropped.
    SenderDropped(int),
    /// Taken slots were given back.
    GivenBack,
}

/// Whether `event` leads from one state to the next.
pub open spec fn leads<T>(before: Channel<T>, event: Event<T>, after: Channel<T>) -> bool {
    match event {
        Event::Sent(slot, value) => {
            ||| after.sent(&before, slot, value)
            ||| before.present(slot) && exists|mid: Channel<T>| #[trigger]
                mid.space_waker_set(&before, slot, false) && after.sent(&mid, slot, value)
        },
        Event::Refused(slot, value) => {
            ||| after.unchanged(&before)
            ||| before.present(slot) && exists|mid: Channel<T>| #[trigger]
                mid.space_waker_set(&before, slot, false) && after.unchanged(&mid)
        },
        Event::SenderWaited(slot) => after.only_space_waiter(&before, slot),
        Event::Received(slot, value) => before.receiver_alive && {
            ||| after.received(&before, slot, value)
            ||| exists|mid: Channel<T>, rest: Channel<T>|
                mid.received(&before, slot, value) && #[trigger] rest.all_given_back(&mid)
                    && after.data_waker_set(&rest, false)
        },
        Event::Missed => {
            ||| after.exhausted(&before)
            ||| exists|mid: Channel<T>, rest: Channel<T>, waker: bool|
                mid.exhausted(&before) && #[trigger] rest.all_given_back(&mid)
                    && #[trigger] after.data_waker_set(&rest, waker)
        },
        Event::ReceiverWaited => after.only_data_waiter(&before),
        Event::ReceiverDropped => before.wf() && before.receiver_alive && after.receiver_dropped(
            &before,
        ),
        Event::Registered(key) => after.registered(&before, key),
        Event::SenderDropped(slot) => after.sender_dropped(&before, slot),
        Event::GivenBack => after.all_given_back(&before),
    }
}

/// The values sent through `slot`, in order.
pub open spec fn sent_through<T>(events: Seq<Event<T>>, slot: int) -> Seq<T>
    decreases events.len(),
{
    if events.len() == 0 {
        Seq::empty()
    } else {
        let earlier = sent_through(events.drop_last(), slot);
        match events.last() {
            Event::Sent(s, value) => if s == slot {
                earlier.push(value)
            } else {
                earlier
            },
            _ => earlier,
        }
    }
}

/// The values received from `slot`, in order.
pub open spec fn received_from<T>(events: Seq<Event<T>>, slot: int) -> Seq<T>
    decreases events.len(),
{
    if events.len() == 0 {
        Seq::empty()
    } else {
        let earlier = received_from(events.drop_last(), slot);
        match events.last() {
            Event::Received(s, value) => if s == slot {
                earlier.push(value)
            } else {
                earlier
            },
            _ => earlier,
        }
    }
}

/// The values of `slot` that were discarded, in order: what was unread when the
/// receiver of a coordinated channel was dropped.
pub open spec fn discarded_from<T>(
    states: Seq<Channel<T>>,
    events: Seq<Event<T>>,
    slot: int,
) -> Seq<T>
    decreases events.len(),
{
    if events.len() == 0 {
        Seq::empty()
    } else {
        let earlier = discarded_from(states.drop_last(), events.drop_last(), slot);
        let before = states[events.len() - 1];
        if events.last() is ReceiverDropped && before.coordinated {
            earlier + before.unread(slot)
        } else {
            earlier
        }
    }
}

/// Whether the events lead through the states.
pub open spec fn steps<T>(states: Seq<Channel<T>>, events: Seq<Event<T>>) -> bool {
    &&& states.len() == events.len() + 1
    &&& forall|i: int|
        0 <= i < events.len() ==> leads(states[i], #[trigger] events[i], states[i + 1])
}

/// Whether the events lead through the states, and the lane with `key` is there
/// all the time.
pub open spec fn history<T>(
    states: Seq<Channel<T>>,
    events: Seq<Event<T>>,
    key: LaneKey,
) -> bool {
    &&& steps(states, events)
    &&& forall|i: int|
        0 <= i < states.len() ==> (#[trigger] states[i]).present(key.slot as int)
            && states[i].lane(key.slot as int).key == key
}

proof fn lemma_step<T>(before: Channel<T>, event: Event<T>, after: Channel<T>, slot: int)
    requires
        before.present(slot),
        after.present(slot),
        leads(before, event, after),
    ensures
        match event {
            Event::Sent(s, value) => after.unread(slot) == if s == slot {
                before.unread(slot).push(value)
            } else {
                before.unread(slot)
            },
            Event::Received(s, value) => if s == slot {
                before.unread(slot).len() > 0 && value == before.unread(slot)[0] && after.unread(
                    slot,
                ) == before.unread(slot).drop_first()
            } else {
                after.unread(slot) == before.unread(slot)
            },
            Event::ReceiverDropped => after.unread(slot) == if before.coordinated {
                Seq::<T>::empty()
            } else {
                before.unread(slot)
            },
            _ => after.unread(slot) == before.unread(slot),
        },
{
    match event {
        Event::Sent(s, value) => {
            if !after.sent(&before, s, value) {
                let mid = choose|mid: Channel<T>| #[trigger]
                    mid.space_waker_set(&before, s, false) && after.sent(&mid, s, value);
                assert(mid.lanes@[slot] is Some);
                lemma_sent(mid, after, s, value, slot);
            } else {
                lemma_sent(before, after, s, value, slot);
            }
        },
        Event::Refused(s, _) => {
            if !after.unchanged(&before) {
                let mid = choose|mid: Channel<T>| #[trigger]
                    mid.space_waker_set(&before, s, false) && after.unchanged(&mid);
                assert(mid.lanes@[slot] is Some);
            }
        },
        Event::Received(s, value) => {
            if !after.received(&before, s, value) {
                let (mid, rest) = choose|mid: Channel<T>, rest: Channel<T>|
                    mid.received(&before, s, value) && #[trigger] rest.all_given_back(&mid)
                        && after.data_waker_set(&rest, false);
                lemma_given_back(mid, rest, slot);
                lemma_received(before, mid, s, value, slot);
            } else {
                lemma_received(before, after, s, value, slot);
            }
        },
        Event::Missed => {
            if !after.exhausted(&before) {
                let (mid, rest, waker) = choose|mid: Channel<T>, rest: Channel<T>, waker: bool|
                    mid.exhausted(&before) && #[trigger] rest.all_given_back(&mid)
                        && #[trigger] after.data_waker_set(&rest, waker);
                lemma_given_back(mid, rest, slot);
                lemma_exhausted(before, mid, slot);
            } else {
                lemma_exhausted(before, after, slot);
            }
        },
        Event::GivenBack => {
            lemma_given_back(before, after, slot);
        },
        Event::ReceiverDropped => {
            assert(before.lanes@[slot] is Some);
            assert(abandoned(before.lanes@[slot], after.lanes@[slot]));
        },
        Event::SenderDropped(s) => {
            if s == slot {
                assert(after.lane(slot).ring@ =~= before.lane(slot).ring@);
            } else {
                assert(after.lanes@[slot] == before.lanes@[slot]);
            }
        },
        _ => {
            assert(after.lanes@[slot] == after.lanes@[slot]);
        },
    }
}

/// A receiver that is gone does not come back, and the policy stays.
proof fn lemma_alive<T>(before: Channel<T>, event: Event<T>, after: Channel<T>)
    requires
        leads(before, event, after),
    ensures
        after.receiver_alive ==> before.receiver_alive,
        after.coordinated == before.coordinated,
{
    match event {
        Event::Missed => {
            if !after.exhausted(&before) {
                let (mid, rest, waker) = choose|mid: Channel<T>, rest: Channel<T>, waker: bool|
                    mid.exhausted(&before) && #[trigger] rest.all_given_back(&mid)
                        && #[trigger] after.data_waker_set(&rest, waker);
                assert(mid.moved(&before, None));
            } else {
                assert(after.moved(&before, None));
            }
        },
        _ => {},
    }
}

proof fn lemma_sent<T>(before: Channel<T>, after: Channel<T>, s: int, value: T, slot: int)
    requires
        before.present(slot),
        after.sent(&before, s, value),
    ensures
        after.unread(slot) == if s == slot {
            before.unread(slot).push(value)
        } else {
            before.unread(slot)
        },
{
    assert(after.lanes@[slot] == after.lanes@[slot]);
}

proof fn lemma_received<T>(before: Channel<T>, after: Channel<T>, s: int, value: T, slot: int)
    requires
        before.present(slot),
        after.present(slot),
        after.received(&before, s, value),
    ensures
        if s == slot {
            before.unread(slot).len() > 0 && value == before.unread(slot)[0] && after.unread(slot)
                == before.unread(slot).drop_first()
        } else {
            after.unread(slot) == before.unread(slot)
        },
{
    assert(rested(before.lane(slot)).ring@ =~= before.lane(slot).ring@);
    if s != slot {
        assert(settled(before.lanes@[slot], after.lanes@[slot]));
    }
}

proof fn lemma_exhausted<T>(before: Channel<T>, after: Channel<T>, slot: int)
    requires
        before.present(slot),
        after.present(slot),
        after.exhausted(&before),
    ensures
        after.unread(slot) == before.unread(slot),
{
    assert(rested(before.lane(slot)).ring@ =~= before.lane(slot).ring@);
    assert(settled(before.lanes@[slot], after.lanes@[slot]));
}

proof fn lemma_given_back<T>(before: Channel<T>, after: Channel<T>, slot: int)
    requires
        after.present(slot),
        after.all_given_back(&before),
    ensures
        before.present(slot),
        after.unread(slot) == before.unread(slot),
{
    assert(after.lanes@[slot] is Some);
    assert(given_back(before.lane(slot)).ring@ =~= before.lane(slot).ring@);
}

/// A sender's values are received in the order they were sent, each once and
/// none left out: what was received, followed by what the end of the receiver
/// discarded and by what is unread, is what was unread at first followed by what
/// was sent. Nothing is discarded while the receiver is there, and nothing at all
/// unless the channel is coordinated.
pub proof fn law_fifo_per_sender<T>(
    states: Seq<Channel<T>>,
    events: Seq<Event<T>>,
    key: LaneKey,
)
    requires
        history(states, events, key),
    ensures
        received_from(events, key.slot as int) + discarded_from(states, events, key.slot as int)
            + states.last().unread(key.slot as int) == states[0].unread(key.slot as int)
            + sent_through(events, key.slot as int),
        states.last().receiver_alive || !states[0].coordinated ==> discarded_from(
            states,
            events,
            key.slot as int,
        ) == Seq::<T>::empty(),
        states.last().coordinated == states[0].coordinated,
    decreases events.len(),
{
    let slot = key.slot as int;
    if events.len() == 0 {
        assert(received_from(events, slot) + discarded_from(states, events, slot)
            + states.last().unread(slot) =~= states[0].unread(slot) + sent_through(events, slot));
    } else {
        let n = events.len() as int;
        let earlier = states.drop_last();
        let fewer = events.drop_last();
        assert forall|i: int| 0 <= i < earlier.len() implies (#[trigger] earlier[i]).present(slot)
            && earlier[i].lane(slot).key == key by {
            assert(states[i].present(slot));
        }
        assert forall|i: int| 0 <= i < fewer.len() implies leads(
            earlier[i],
            #[trigger] fewer[i],
            earlier[i + 1],
        ) by {
            assert(leads(states[i], events[i], states[i + 1]));
        }
        law_fifo_per_sender(earlier, fewer, key);
        let before = states[n - 1];
        let after = states[n];
        assert(states[n - 1].present(slot) && states[n].present(slot));
        assert(leads(before, events[n - 1], after));
        lemma_step(before, events.last(), after, slot);
        lemma_alive(before, events.last(), after);
        let received = received_from(fewer, slot);
        let gone = discarded_from(earlier, fewer, slot);
        let sent = sent_through(fewer, slot);
        assert(received + gone + before.unread(slot) == states[0].unread(slot) + sent);
        match events.last() {
            Event::Sent(s, value) => {
                if s == slot {
                    assert(received + gone + before.unread(slot).push(value) =~= (received + gone
                        + before.unread(slot)).push(value));
                    assert(states[0].unread(slot) + sent.push(value) =~= (states[0].unread(slot)
                        + sent).push(value));
                }
            },
            Event::Received(s, value) => {
                assert(gone =~= Seq::<T>::empty());
                if s == slot {
                    assert(received.push(value) + gone + before.unread(slot).drop_first()
                        =~= received + gone + before.unread(slot));
                }
            },
            Event::ReceiverDropped => {
                if before.coordinated {
                    assert(received + (gone + before.unread(slot)) + Seq::<T>::empty()
                        =~= received + gone + before.unread(slot));
                }
            },
            _ => {},
        }
    }
}

/// A lane never holds more values than the capacity of one sender.
pub proof fn law_capacity_is_per_sender<T>(ch: Channel<T>, slot: int)
    requires
        ch.wf(),
        ch.present(slot),
    ensures
        ch.unread(slot).len() <= ch.capacity,
{
    assert(ch.lanes@[slot] is Some);
}

/// A full lane does not keep other senders from sending.
pub proof fn law_full_is_per_sender<T>(
    before: Channel<T>,
    after: Channel<T>,
    slot: int,
    value: T,
    other: int,
)
    requires
        before.present(other),
        other != slot,
        after.sent(&before, slot, value),
    ensures
        after.present(other),
        after.lane(other) == before.lane(other),
{
    assert(after.lanes@[other] == before.lanes@[other]);
}

/// Dropping senders discards nothing: every unread value stays.
pub proof fn law_sender_drop_keeps_values<T>(
    before: Channel<T>,
    after: Channel<T>,
    slot: int,
    other: int,
)
    requires
        before.receiver_alive,
        before.present(slot),
        before.present(other),
        after.sender_dropped(&before, slot),
    ensures
        after.present(other),
        after.unread(other) == before.unread(other),
{
    if other == slot {
        assert(after.lane(slot).ring@ =~= before.lane(slot).ring@);
    } else {
        assert(after.lanes@[other] == before.lanes@[other]);
    }
}

/// No lane appears but by registration.
proof fn lemma_presence<T>(before: Channel<T>, event: Event<T>, after: Channel<T>, t: int)
    requires
        leads(before, event, after),
        !(event is Sent),
        !(event is Received),
        !(event is Registered),
        !(event is SenderDropped),
        after.present(t),
    ensures
        before.present(t),
{
    assert(after.lanes@[t] is Some);
    match event {
        Event::Missed => {
            if !after.exhausted(&before) {
                let (mid, rest, waker) = choose|mid: Channel<T>, rest: Channel<T>, waker: bool|
                    mid.exhausted(&before) && #[trigger] rest.all_given_back(&mid)
                        && #[trigger] after.data_waker_set(&rest, waker);
                lemma_given_back(mid, rest, t);
                assert(settled(before.lanes@[t], mid.lanes@[t]));
            } else {
                assert(settled(before.lanes@[t], after.lanes@[t]));
            }
        },
        Event::ReceiverDropped => {
            assert(abandoned(before.lanes@[t], after.lanes@[t]));
        },
        Event::GivenBack => {
            lemma_given_back(before, after, t);
        },
        _ => {},
    }
}

/// An empty channel without senders stays so.
proof fn lemma_over<T>(before: Channel<T>, event: Event<T>, after: Channel<T>)
    requires
        before.is_empty(),
        before.live_senders == 0,
        leads(before, event, after),
        !(event is Sent),
        !(event is Registered),
    ensures
        !(event is Received),
        after.is_empty(),
        after.live_senders == 0,
{
    if let Event::Received(slot, value) = event {
        assert(before.has_data(slot)) by {
            if !after.received(&before, slot, value) {
                let (mid, rest) = choose|mid: Channel<T>, rest: Channel<T>|
                    mid.received(&before, slot, value) && #[trigger] rest.all_given_back(&mid)
                        && after.data_waker_set(&rest, false);
                assert(before.first(slot));
            }
        }
    }
    assert forall|t: int| !#[trigger] after.has_data(t) by {
        if after.has_data(t) {
            lemma_presence(before, event, after, t);
            lemma_step(before, event, after, t);
            assert(before.has_data(t));
        }
    }
}

/// Once a receive has reported disconnection, every later one does, whatever
/// happens meanwhile. No sender is left that could send or register another
/// one.
pub proof fn law_disconnection_is_final<T>(
    before: Channel<T>,
    states: Seq<Channel<T>>,
    events: Seq<Event<T>>,
    later: Channel<T>,
    result: Result<T, TryRecvError>,
)
    requires
        before.wf(),
        states.len() > 0,
        states[0].answers(&before, Err(TryRecvError::Disconnected)),
        steps(states, events),
        forall|i: int| 0 <= i < events.len() ==> !(#[trigger] events[i] is Sent) && !(events[i]
            is Registered),
        later.answers(&states.last(), result),
    ensures
        before.is_empty(),
        before.live_senders == 0,
        forall|i: int| 0 <= i < events.len() ==> !(#[trigger] events[i] is Received),
        result == Err::<T, TryRecvError>(TryRecvError::Disconnected),
{
    lemma_over_throughout(before, states, events);
    let last = states.last();
    match result {
        Ok(value) => {
            let slot = choose|slot: int| #[trigger] later.received(&last, slot, value);
            assert(last.has_data(slot));
        },
        _ => {},
    }
}

/// An empty channel without senders stays so over a whole history.
proof fn lemma_over_throughout<T>(
    before: Channel<T>,
    states: Seq<Channel<T>>,
    events: Seq<Event<T>>,
)
    requires
        before.wf(),
        states.len() > 0,
        states[0].answers(&before, Err(TryRecvError::Disconnected)),
        steps(states, events),
        forall|i: int| 0 <= i < events.len() ==> !(#[trigger] events[i] is Sent) && !(events[i]
            is Registered),
    ensures
        forall|i: int| 0 <= i < events.len() ==> !(#[trigger] events[i] is Received),
        states.last().is_empty(),
        states.last().live_senders == 0,
    decreases events.len(),
{
    if events.len() == 0 {
        let first = states[0];
        before.lemma_moved_data(&first);
        assert forall|t: int| !#[trigger] first.has_data(t) by {
            assert(!before.has_data(t));
        }
    } else {
        let n = events.len() as int;
        let earlier = states.drop_last();
        assert forall|i: int| 0 <= i < events.drop_last().len() implies leads(
            earlier[i],
            #[trigger] events.drop_last()[i],
            earlier[i + 1],
        ) by {
            assert(leads(states[i], events[i], states[i + 1]));
        }
        assert forall|i: int| 0 <= i < events.drop_last().len() implies !(
        #[trigger] events.drop_last()[i] is Sent) && !(events.drop_last()[i] is Registered) by {
            assert(!(events[i] is Sent));
        }
        lemma_over_throughout(before, earlier, events.drop_last());
        assert(earlier.last() == states[n - 1]);
        assert(leads(states[n - 1], events[n - 1], states[n]));
        lemma_over(states[n - 1], events[n - 1], states[n]);
        assert forall|i: int| 0 <= i < events.len() implies !(#[trigger] events[i] is Received) by {
            if i < n - 1 {
                assert(events.drop_last()[i] == events[i]);
            }
        }
    }
}

/// The unread values of each lane.
pub open spec fn unread_bags<T>(ch: Channel<T>) -> Seq<Multiset<T>> {
    Seq::new(
        ch.lanes@.len(),
        |t: int|
            if ch.present(t) {
                ch.unread(t).to_multiset()
            } else {
                Multiset::empty()
            },
    )
}

/// A lane that receiving does not serve keeps its values.
proof fn lemma_settled_bag<T>(before: Channel<T>, after: Channel<T>, t: int)
    requires
        0 <= t < before.lanes@.len(),
        after.lanes@.len() == before.lanes@.len(),
        settled(before.lanes@[t], after.lanes@[t]),
    ensures
        unread_bags(after)[t] == unread_bags(before)[t],
{
    if after.lanes@[t] != before.lanes@[t] {
        lemma_bag_empty::<T>();
        assert(before.unread(t) =~= Seq::<T>::empty());
        if after.lanes@[t] is Some {
            assert(rested(before.lane(t)).ring@ =~= before.lane(t).ring@);
        }
    }
}

/// What a receive takes out of the channel.
proof fn lemma_received_bag<T>(before: Channel<T>, after: Channel<T>, slot: int, value: T)
    requires
        after.received(&before, slot, value),
    ensures
        total(unread_bags(before)) == total(unread_bags(after)).insert(value),
{
    let bag = unread_bags(after)[slot];
    assert forall|t: int| 0 <= t < before.lanes@.len() && t != slot implies unread_bags(after)[t]
        == #[trigger] unread_bags(before)[t] by {
        assert(settled(before.lanes@[t], after.lanes@[t]));
        lemma_settled_bag(before, after, t);
    }
    assert(unread_bags(after) =~= unread_bags(before).update(slot, bag));
    lemma_total_update(unread_bags(before), slot, bag);
    lemma_bag_front(before.unread(slot));
    assert forall|v: T| total(unread_bags(before)).count(v) == total(unread_bags(after)).insert(
        value,
    ).count(v) by {
        assert(total(unread_bags(before).update(slot, bag)).count(v) + unread_bags(
            before,
        )[slot].count(v) == total(unread_bags(before)).count(v) + bag.count(v));
    }
    assert(total(unread_bags(before)) =~= total(unread_bags(after)).insert(value));
}

/// Whether receives in a row have these results.
pub open spec fn receives<T>(
    states: Seq<Channel<T>>,
    results: Seq<Result<T, TryRecvError>>,
) -> bool {
    &&& states.len() == results.len() + 1
    &&& forall|i: int|
        0 <= i < results.len() ==> (states[i + 1]).answers(&states[i], #[trigger] results[i])
}

/// One receive from a channel without senders.
proof fn lemma_last_receive<T>(
    before: Channel<T>,
    after: Channel<T>,
    result: Result<T, TryRecvError>,
)
    requires
        after.answers(&before, result),
        before.live_senders == 0,
    ensures
        after.live_senders == 0,
        result != Err::<T, TryRecvError>(TryRecvError::Empty),
        result matches Ok(value) ==> total(unread_bags(before)) == total(
            unread_bags(after),
        ).insert(value),
        result is Err ==> total(unread_bags(before)) == Multiset::<T>::empty() && total(
            unread_bags(after),
        ) == Multiset::<T>::empty(),
{
    match result {
        Ok(value) => {
            let slot = choose|slot: int| #[trigger] after.received(&before, slot, value);
            lemma_received_bag(before, after, slot, value);
        },
        Err(_) => {
            lemma_bag_empty::<T>();
            assert forall|t: int| 0 <= t < before.lanes@.len() implies #[trigger] unread_bags(
                before,
            )[t] == Multiset::<T>::empty() && unread_bags(after)[t] == unread_bags(before)[t] by {
                assert(!before.has_data(t));
                if before.present(t) {
                    assert(before.unread(t) =~= Seq::<T>::empty());
                }
                assert(settled(before.lanes@[t], after.lanes@[t]));
                lemma_settled_bag(before, after, t);
            }
            lemma_total_empty(unread_bags(before));
            assert(unread_bags(after) =~= unread_bags(before));
        },
    }
}

/// The state of a channel without senders after some receives.
proof fn lemma_receives<T>(states: Seq<Channel<T>>, results: Seq<Result<T, TryRecvError>>)
    requires
        receives(states, results),
        states[0].live_senders == 0,
    ensures
        states.last().live_senders == 0,
        values_of(results).add(total(unread_bags(states.last()))) == total(unread_bags(states[0])),
        forall|i: int|
            0 <= i < results.len() ==> #[trigger] results[i] != Err::<T, TryRecvError>(
                TryRecvError::Empty,
            ),
        (forall|i: int| 0 <= i < results.len() ==> #[trigger] results[i] is Ok) ==> results.len()
            + total(unread_bags(states.last())).len() == total(unread_bags(states[0])).len(),
    decreases results.len(),
{
    let n = results.len() as int;
    if n == 0 {
        assert(values_of(results).add(total(unread_bags(states[0]))) =~= total(
            unread_bags(states[0]),
        ));
    } else {
        let earlier = states.drop_last();
        assert forall|i: int| 0 <= i < results.drop_last().len() implies (earlier[i + 1]).answers(
            &earlier[i],
            #[trigger] results.drop_last()[i],
        ) by {
            assert(states[i + 1].answers(&states[i], results[i]));
        }
        lemma_receives(earlier, results.drop_last());
        let before = states[n - 1];
        let after = states[n];
        assert(after.answers(&before, results[n - 1]));
        lemma_last_receive(before, after, results[n - 1]);
        let held = values_of(results.drop_last());
        if let Ok(value) = results[n - 1] {
            assert(held.insert(value).add(total(unread_bags(after))) =~= held.add(
                total(unread_bags(before)),
            ));
        }
        assert forall|i: int| 0 <= i < results.len() implies #[trigger] results[i] != Err::<
            T,
            TryRecvError,
        >(TryRecvError::Empty) by {
            if i < n - 1 {
                assert(results.drop_last()[i] == results[i]);
            }
        }
        if forall|i: int| 0 <= i < results.len() ==> #[trigger] results[i] is Ok {
            assert forall|i: int| 0 <= i < results.drop_last().len() implies
                #[trigger] results.drop_last()[i] is Ok by {
                assert(results[i] is Ok);
            }
        }
    }
}

/// Once the last sender is gone, receives in a row hand out what the channel
/// holds, each value once, and then report disconnection. As many receives as
/// there are values come before that, and none finds the channel merely empty.
pub proof fn law_disconnection_follows_the_values<T>(
    states: Seq<Channel<T>>,
    results: Seq<Result<T, TryRecvError>>,
)
    requires
        receives(states, results),
        states[0].live_senders == 0,
    ensures
        forall|i: int|
            0 <= i < results.len() ==> #[trigger] results[i] != Err::<T, TryRecvError>(
                TryRecvError::Empty,
            ),
        results.len() > total(unread_bags(states[0])).len() ==> exists|i: int|
            0 <= i < results.len() && #[trigger] results[i] == Err::<T, TryRecvError>(
                TryRecvError::Disconnected,
            ),
        forall|i: int|
            0 <= i < results.len() && #[trigger] results[i] == Err::<T, TryRecvError>(
                TryRecvError::Disconnected,
            ) ==> values_of(results.take(i)) == total(unread_bags(states[0])),
{
    lemma_receives(states, results);
    if forall|i: int|
        0 <= i < results.len() ==> #[trigger] results[i] != Err::<T, TryRecvError>(
            TryRecvError::Disconnected,
        ) {
        assert forall|i: int| 0 <= i < results.len() implies #[trigger] results[i] is Ok by {
            assert(results[i] != Err::<T, TryRecvError>(TryRecvError::Empty));
        }
    }
    assert forall|i: int|
        0 <= i < results.len() && #[trigger] results[i] == Err::<T, TryRecvError>(
            TryRecvError::Disconnected,
        ) implies values_of(results.take(i)) == total(unread_bags(states[0])) by {
        assert forall|k: int| 0 <= k < i implies (states.take(i + 1)[k + 1]).answers(
            &states.take(i + 1)[k],
            #[trigger] results.take(i)[k],
        ) by {
            assert(states[k + 1].answers(&states[k], results[k]));
        }
        lemma_receives(states.take(i + 1), results.take(i));
        assert(states[i + 1].answers(&states[i], results[i]));
        lemma_last_receive(states[i], states[i + 1], results[i]);
        assert(values_of(results.take(i)).add(total(unread_bags(states[i]))) =~= values_of(
            results.take(i),
        ));
    }
}

/// Without senders a blocking receive ends at its first try: with a value while
/// there is one, and with an error otherwise.
pub proof fn law_blocking_receives_end<T>(
    before: Channel<T>,
    after: Channel<T>,
    attempt: usize,
    r: RecvProgress<T>,
)
    requires
        after.recv_went(&before, attempt, r),
        before.live_senders == 0,
    ensures
        after.live_senders == 0,
        before.is_empty() ==> r == RecvProgress::<T>::Done(Err(RecvError)),
        !before.is_empty() ==> (r matches RecvProgress::Done(Ok(value)) && total(
            unread_bags(before),
        ) == total(unread_bags(after)).insert(value)),
{
    match r {
        RecvProgress::Done(Ok(value)) => {
            let slot = choose|slot: int| #[trigger] after.received(&before, slot, value);
            assert(before.has_data(slot));
            lemma_last_receive(before, after, Ok(value));
        },
        RecvProgress::Done(Err(error)) => {
            assert(error == RecvError);
        },
        _ => {},
    }
}

/// A channel without live senders stays so: nobody can send or register.
pub proof fn law_disconnected_channel_has_no_sender<T>(ch: Channel<T>, tx: Sender)
    requires
        ch.wf(),
        ch.live_senders == 0,
    ensures
        !ch.owns(&tx),
{
    lemma_count_zero(connected(ch.lanes@));
    if ch.owns(&tx) {
        assert(connected(ch.lanes@)[tx.key.slot as int]);
    }
}

/// A sender that sleeps because its lane is full is told as soon as a receive
/// makes room.
pub proof fn law_room_is_announced<T>(
    before: Channel<T>,
    after: Channel<T>,
    result: Result<T, TryRecvError>,
    slot: int,
)
    requires
        before.wf(),
        before.receiver_alive,
        after.wf(),
        after.answers(&before, result),
        before.present(slot),
        after.present(slot),
        before.lane(slot).ring.full(),
        !after.lane(slot).ring.full(),
    ensures
        after.lane(slot).signal.space_waiter.state == notified(
            before.lane(slot).signal.space_waiter.state,
        ),
{
    assert(before.lanes@[slot] is Some);
    assert(after.lanes@[slot] is Some);
    assert(rested(before.lane(slot)).ring@ =~= before.lane(slot).ring@);
    match result {
        Ok(value) => {
            let served = choose|s: int| #[trigger] after.received(&before, s, value);
            if served != slot {
                assert(settled(before.lanes@[slot], after.lanes@[slot]));
            }
        },
        Err(_) => {
            assert(settled(before.lanes@[slot], after.lanes@[slot]));
        },
    }
}

/// Giving slots back tells a sender that sleeps because its lane is full.
pub proof fn law_release_is_announced<T>(before: Channel<T>, after: Channel<T>, slot: int)
    requires
        before.wf(),
        after.all_given_back(&before),
        before.present(slot),
        before.lane(slot).ring.full(),
        !after.lane(slot).ring.full(),
    ensures
        after.lane(slot).signal.space_waiter.state == notified(
            before.lane(slot).signal.space_waiter.state,
        ),
{
    assert(before.lanes@[slot] is Some);
    assert(after.lanes@[slot] is Some);
    assert(given_back(before.lane(slot)).ring@ =~= before.lane(slot).ring@);
}

/// The receiver goes to sleep only when nothing is pending, and then the next
/// send tells it.
pub proof fn law_data_is_announced<T>(
    before: Channel<T>,
    asleep: Channel<T>,
    after: Channel<T>,
    slot: int,
    value: T,
)
    requires
        asleep.exhausted(&before),
        asleep.present(slot),
        after.sent(&asleep, slot, value),
    ensures
        after.data_waiter.state == notified(asleep.data_waiter.state),
{
    assert(!asleep.pending(slot));
}

/// How long the lane at place `i` among the served ones waits at most: so many
/// receives serve other lanes before it.
pub open spec fn patience<T>(ch: Channel<T>, i: int) -> int {
    64 * (i + 1) - ch.lane(ch.active@[0] as int).burst
}

/// Bursts are bounded: each receive that serves another lane lowers the
/// patience of a served lane that holds a value, which stays positive. So the
/// lane at place `i` is served after at most `64 * (i + 1)` receives.
pub proof fn law_bursts_are_bounded<T>(
    before: Channel<T>,
    after: Channel<T>,
    served: int,
    value: T,
    i: int,
) -> (j: int)
    requires
        before.wf(),
        after.wf(),
        before.receiver_alive,
        after.received(&before, served, value),
        0 <= i < before.active@.len(),
        before.has_data(before.active@[i] as int),
        served != before.active@[i],
    ensures
        0 <= j < after.active@.len(),
        after.active@[j] == before.active@[i],
        after.has_data(after.active@[j] as int),
        0 < patience(after, j) < patience(before, i),
{
    let slot = before.active@[i] as int;
    assert(before.active_has_data());
    let k = choose|k: int|
        #![trigger before.active@[k]]
        0 <= k < before.active@.len() && before.active@[k] == served && forall|m: int|
            0 <= m < k ==> !before.has_data(#[trigger] before.active@[m] as int);
    assert(k < i);
    assert(before.pending(before.active@[0] as int));
    assert(before.lanes@[before.active@[0] as int] is Some);
    assert(before.lanes@[served] is Some);
    assert(settled(before.lanes@[slot], after.lanes@[slot]));
    assert(after.pending(after.active@[0] as int)) by {
        assert(after.active@.len() > 0);
    }
    assert(after.lanes@[after.active@[0] as int] is Some);
    if rotates(before.lane(served)) {
        let rest = before.active@.skip(k + 1);
        assert(after.active@[i - k - 1] == rest[i - k - 1]);
        i - k - 1
    } else {
        let rest = before.active@.skip(k);
        assert(after.active@[i - k] == rest[i - k]);
        i - k
    }
}

/// A busy lane cannot hide new senders: each receive either takes the ready
/// lanes of the head group up or brings the next look at the ready index
/// closer, and that look is never more than 64 receives away.
pub proof fn law_ready_lanes_are_taken_up<T>(
    before: Channel<T>,
    after: Channel<T>,
    served: int,
    value: T,
    g: int,
    slot: int,
)
    requires
        before.wf(),
        before.receiver_alive,
        after.received(&before, served, value),
        before.head_group(g),
        before.ready@.contains(slot),
        slot / 4096 == g,
    ensures
        before.items_until_ready_poll <= 64,
        !after.ready@.contains(slot) || (after.items_until_ready_poll
            < before.items_until_ready_poll),
{
}

/// The lane table grows only when every slot is taken, so it is never longer
/// than the largest number of lanes registered at one time.
pub proof fn law_slots_are_reused<T>(before: Channel<T>, after: Channel<T>, key: LaneKey)
    requires
        before.wf(),
        before.receiver_alive,
        after.registered(&before, key),
        after.lanes@.len() > before.lanes@.len(),
    ensures
        before.registered_lanes == before.lanes@.len(),
        forall|slot: int| 0 <= slot < before.lanes@.len() ==> #[trigger] before.present(slot),
{
    lemma_count_full(occupied(before.lanes@));
    assert forall|slot: int| 0 <= slot < before.lanes@.len() implies #[trigger] before.present(
        slot,
    ) by {
        assert(occupied(before.lanes@)[slot]);
    }
}

/// A coordinated channel holds no value once its receiver is gone.
pub proof fn law_coordinated_drop_discards<T>(before: Channel<T>, after: Channel<T>)
    requires
        before.wf(),
        before.coordinated,
        after.receiver_dropped(&before),
    ensures
        after.is_empty(),
{
    assert forall|slot: int| !#[trigger] after.has_data(slot) by {
        if after.present(slot) {
            assert(abandoned(before.lanes@[slot], after.lanes@[slot]));
        }
    }
}

/// Any other channel keeps a live sender's unread values until that sender is
/// dropped too.
pub proof fn law_deferred_drop_keeps_values<T>(before: Channel<T>, after: Channel<T>, slot: int)
    requires
        before.wf(),
        before.receiver_alive,
        !before.coordinated,
        after.receiver_dropped(&before),
        before.present(slot),
        !before.lane(slot).ring.producer_closed,
    ensures
        after.present(slot),
        after.unread(slot) == before.unread(slot),
{
    assert(before.lanes@[slot] is Some);
    assert(abandoned(before.lanes@[slot], after.lanes@[slot]));
}

/// Dropping the receiver tells every sender that sleeps.
pub proof fn law_receiver_drop_is_announced<T>(before: Channel<T>, after: Channel<T>, slot: int)
    requires
        after.receiver_dropped(&before),
        before.present(slot),
        !before.lane(slot).ring.producer_closed,
    ensures
        after.present(slot),
        after.lane(slot).signal.space_waiter.state == notified(
            before.lane(slot).signal.space_waiter.state,
        ),
{
    assert(abandoned(before.lanes@[slot], after.lanes@[slot]));
}

} // verus!
