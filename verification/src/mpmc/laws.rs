//! What holds of the channel over one step, and over whole histories.
//!
//! A history consists of the steps of all endpoints: sends, whether accepted or
//! refused, receives, whatever they answer, waiting and being woken, and senders
//! and receivers that come and go, the last receiver among them.
use vstd::multiset::Multiset;
use vstd::prelude::*;

use crate::bags::{
    lemma_bag_empty, lemma_bag_places, lemma_total_empty, lemma_total_members, total, values_of,
};
use crate::bits::distance;
use crate::count::{lemma_count_bound, lemma_count_full, lemma_count_zero};
use crate::error::{RecvError, TryRecvError, TrySendError};
use crate::key::LaneKey;
use crate::wait::{
    law_notifications_change_snapshot, notified, notified_times, with_waiter, MultiWaitCell,
    MultiWaitRegistration,
};

use super::drain::{held, lane_kept};
use super::membership::abandoned;
use super::receiver::{lane_told, RecvProgress};
use super::routing::{following, turns, Cursors, Routing};
use super::staging::lemma_values_empty;
use super::{
    connected, dry, lane_bags, private_bags, taken_places, Channel, Sender, LANES_PER_PAGE,
    TRY_RECV_RETRIES,
};

verus! {

/// One step of an endpoint.
pub enum Event<T> {
    /// A value was sent through a slot.
    Sent(int, T),
    /// A value was not accepted by a slot.
    Refused(int, T),
    /// The sender of a slot began, went on or ceased to wait for space.
    SenderWaited(int),
    /// A receiver received a value.
    Received(int, T),
    /// A receiver got no value but an error.
    Missed(int, TryRecvError),
    /// A receiver got no value and registered for data.
    Parked(int, MultiWaitRegistration),
    /// A receiver went on or ceased to wait for data, or was signalled.
    ReceiverWaited,
    /// A sender was registered.
    Registered(LaneKey),
    /// The sender of a slot was dropped.
    SenderDropped(int),
    /// A receiver was cloned.
    Cloned(int, int),
    /// A receiver was dropped.
    ReceiverDropped(int),
}

/// Whether `event` leads from one state to the next.
pub open spec fn leads<T>(before: Channel<T>, event: Event<T>, after: Channel<T>) -> bool {
    match event {
        Event::Sent(slot, value) => after.sent(&before, slot, value),
        Event::Refused(slot, value) => exists|error: TrySendError<T>| #[trigger]
            after.accepts(&before, slot, value, Err(error)),
        Event::SenderWaited(slot) => after.only_space_waiter(&before, slot),
        Event::Received(id, value) => after.answers(&before, id, Ok(value)),
        Event::Missed(id, error) => after.answers(&before, id, Err(error)),
        Event::Parked(id, wait) => after.awaits_data(&before, id, wait),
        Event::ReceiverWaited => after.only_data_waiters(&before),
        Event::Registered(key) => after.registered(&before, key),
        Event::SenderDropped(slot) => before.present(slot) && after.sender_dropped(&before, slot),
        Event::Cloned(from, id) => after.receiver_added(&before, from, id),
        Event::ReceiverDropped(id) => before.wf() && before.receiver_alive
            && after.receiver_removed(&before, id),
    }
}

/// Whether the events lead through the states.
pub open spec fn history<T>(states: Seq<Channel<T>>, events: Seq<Event<T>>) -> bool {
    &&& states.len() == events.len() + 1
    &&& forall|i: int|
        0 <= i < events.len() ==> leads(states[i], #[trigger] events[i], states[i + 1])
}

/// The values sent.
pub open spec fn sent_values<T>(events: Seq<Event<T>>) -> Multiset<T>
    decreases events.len(),
{
    if events.len() == 0 {
        Multiset::empty()
    } else {
        let earlier = sent_values(events.drop_last());
        match events.last() {
            Event::Sent(_, value) => earlier.insert(value),
            _ => earlier,
        }
    }
}

/// The values received, by whichever receiver.
pub open spec fn received_values<T>(events: Seq<Event<T>>) -> Multiset<T>
    decreases events.len(),
{
    if events.len() == 0 {
        Multiset::empty()
    } else {
        let earlier = received_values(events.drop_last());
        match events.last() {
            Event::Received(_, value) => earlier.insert(value),
            _ => earlier,
        }
    }
}

/// The values discarded: those that went with the last receiver, and those that a
/// sender left in its ring when no receiver was there any more.
pub open spec fn discarded_values<T>(states: Seq<Channel<T>>, events: Seq<Event<T>>) -> Multiset<T>
    decreases events.len(),
{
    if events.len() == 0 {
        Multiset::empty()
    } else {
        let earlier = discarded_values(states.drop_last(), events.drop_last());
        let before = states[events.len() - 1];
        let after = states[events.len() as int];
        match events.last() {
            Event::ReceiverDropped(_) | Event::SenderDropped(_) => earlier.add(
                before.contents().sub(after.contents()),
            ),
            _ => earlier,
        }
    }
}

/// Fewer values in every bag are fewer values in all.
proof fn lemma_total_within<T>(fewer: Seq<Multiset<T>>, more: Seq<Multiset<T>>)
    requires
        fewer.len() == more.len(),
        forall|i: int| 0 <= i < fewer.len() ==> (#[trigger] fewer[i]).subset_of(more[i]),
    ensures
        total(fewer).subset_of(total(more)),
    decreases fewer.len(),
{
    if fewer.len() > 0 {
        let last = fewer.len() - 1;
        assert forall|i: int| 0 <= i < last implies (#[trigger] fewer.drop_last()[i]).subset_of(
            more.drop_last()[i],
        ) by {
            assert(fewer[i].subset_of(more[i]));
        }
        lemma_total_within(fewer.drop_last(), more.drop_last());
        assert(fewer[last].subset_of(more[last]));
    }
}

/// The end of an endpoint adds no value, and takes none while a receiver is left.
proof fn lemma_dropped<T>(before: Channel<T>, event: Event<T>, after: Channel<T>)
    requires
        leads(before, event, after),
        event is ReceiverDropped || event is SenderDropped,
    ensures
        after.contents().subset_of(before.contents()),
        after.receiver_alive ==> after.contents() == before.contents(),
{
    lemma_bag_empty::<T>();
    match event {
        Event::ReceiverDropped(id) => {
            if before.live_receivers == 1 {
                let fewer = lane_bags(after.lanes@);
                let more = lane_bags(before.lanes@);
                assert forall|t: int| 0 <= t < fewer.len() implies (#[trigger] fewer[t]).subset_of(
                    more[t],
                ) by {
                    assert(abandoned(before.lanes@[t], after.lanes@[t]));
                }
                lemma_total_within(fewer, more);
            }
        },
        Event::SenderDropped(slot) => {
            if !before.receiver_alive {
                let fewer = lane_bags(after.lanes@);
                let more = lane_bags(before.lanes@);
                assert forall|t: int| 0 <= t < fewer.len() implies (#[trigger] fewer[t]).subset_of(
                    more[t],
                ) by {
                    if t != slot {
                        assert(after.lanes@[t] == before.lanes@[t]);
                    }
                }
                lemma_total_within(fewer, more);
            }
        },
        _ => {},
    }
}

/// Receivers that are all gone do not come back.
proof fn lemma_alive<T>(before: Channel<T>, event: Event<T>, after: Channel<T>)
    requires
        leads(before, event, after),
    ensures
        after.receiver_alive ==> before.receiver_alive,
{
    if let Event::Parked(id, wait) = event {
        let looked = choose|looked: Channel<T>| #[trigger]
            looked.answers(&before, id, Err(TryRecvError::Empty)) && after == (Channel {
                data_waiters: MultiWaitCell {
                    state: with_waiter(looked.data_waiters.state),
                    waiters: after.data_waiters.waiters,
                    signals: looked.data_waiters.signals,
                },
                ..looked
            });
        assert(looked.kept(&before));
    }
}

/// Every value is received by exactly one receiver, once, or still in the
/// channel: what was received together with what is left is what was there at
/// first together with what was sent, but for what was discarded after the last
/// receiver. While a receiver is there nothing is: draining, staging, stealing,
/// cloning and dropping endpoints lose and duplicate nothing.
pub proof fn law_nothing_lost_or_duplicated<T>(states: Seq<Channel<T>>, events: Seq<Event<T>>)
    requires
        history(states, events),
    ensures
        received_values(events).add(discarded_values(states, events)).add(states.last().contents())
            == states[0].contents().add(sent_values(events)),
        states.last().receiver_alive ==> discarded_values(states, events) == Multiset::<T>::empty(),
    decreases events.len(),
{
    if events.len() == 0 {
        assert(received_values(events).add(discarded_values(states, events)).add(
            states.last().contents(),
        ) =~= states[0].contents().add(sent_values(events)));
    } else {
        let n = events.len() as int;
        let earlier = states.drop_last();
        assert forall|i: int| 0 <= i < events.drop_last().len() implies leads(
            earlier[i],
            #[trigger] events.drop_last()[i],
            earlier[i + 1],
        ) by {
            assert(leads(states[i], events[i], states[i + 1]));
        }
        law_nothing_lost_or_duplicated(earlier, events.drop_last());
        let before = states[n - 1];
        let after = states[n];
        assert(leads(before, events[n - 1], after));
        let received = received_values(events.drop_last());
        let sent = sent_values(events.drop_last());
        let gone = discarded_values(earlier, events.drop_last());
        lemma_alive(before, events.last(), after);
        assert(received.add(gone).add(before.contents()) == states[0].contents().add(sent));
        match events.last() {
            Event::Sent(_, value) => {
                assert(received.add(gone).add(before.contents().insert(value)) =~= received.add(
                    gone,
                ).add(before.contents()).insert(value));
                assert(states[0].contents().add(sent.insert(value)) =~= states[0].contents().add(
                    sent,
                ).insert(value));
            },
            Event::Received(_, value) => {
                assert(received.insert(value).add(gone).add(before.contents().remove(value))
                    =~= received.add(gone).add(before.contents()));
            },
            Event::Refused(slot, _) => {
                before.lemma_waiting(&after, slot);
            },
            Event::SenderWaited(slot) => {
                before.lemma_waiting(&after, slot);
            },
            Event::Parked(id, wait) => {
                lemma_parked(before, after, id, wait);
            },
            Event::ReceiverWaited => {
                before.lemma_waiting(&after, 0);
            },
            Event::ReceiverDropped(_) | Event::SenderDropped(_) => {
                lemma_dropped(before, events.last(), after);
                let lost = before.contents().sub(after.contents());
                assert(received.add(gone.add(lost)).add(after.contents()) =~= received.add(
                    gone,
                ).add(before.contents()));
                assert(after.receiver_alive ==> gone.add(lost) =~= Multiset::<T>::empty());
            },
            _ => {},
        }
    }
}

/// A receiver that registers for data has taken nothing.
proof fn lemma_parked<T>(
    before: Channel<T>,
    after: Channel<T>,
    id: int,
    wait: MultiWaitRegistration,
)
    requires
        after.awaits_data(&before, id, wait),
    ensures
        after.contents() == before.contents(),
{
    let looked = choose|looked: Channel<T>| #[trigger]
        looked.answers(&before, id, Err(TryRecvError::Empty)) && after == (Channel {
            data_waiters: MultiWaitCell {
                state: with_waiter(looked.data_waiters.state),
                waiters: after.data_waiters.waiters,
                signals: looked.data_waiters.signals,
            },
            ..looked
        });
    looked.lemma_waiting(&after, 0);
}

/// Whether receives in a row, each by some receiver, all find nothing.
pub open spec fn misses<T>(states: Seq<Channel<T>>, ids: Seq<int>) -> bool {
    &&& states.len() == ids.len() + 1
    &&& forall|i: int|
        0 <= i < ids.len() ==> (states[i + 1]).answers(
            &states[i],
            #[trigger] ids[i],
            Err(TryRecvError::Empty),
        )
}

/// A value that was sent can be received: while the channel holds one, receives
/// in a row miss it at most half as often as there is upkeep.
pub proof fn law_values_are_found<T>(states: Seq<Channel<T>>, ids: Seq<int>)
    requires
        misses(states, ids),
        states[0].contents() != Multiset::<T>::empty(),
    ensures
        (TRY_RECV_RETRIES + 1) * ids.len() + states.last().upkeep() <= states[0].upkeep(),
        states.last().contents() == states[0].contents(),
    decreases ids.len(),
{
    if ids.len() > 0 {
        let n = ids.len() as int;
        let earlier = states.drop_last();
        assert forall|i: int| 0 <= i < ids.drop_last().len() implies (earlier[i + 1]).answers(
            &earlier[i],
            #[trigger] ids.drop_last()[i],
            Err(TryRecvError::Empty),
        ) by {
            assert(states[i + 1].answers(&states[i], ids[i], Err(TryRecvError::Empty)));
        }
        law_values_are_found(earlier, ids.drop_last());
        assert(states[n].answers(&states[n - 1], ids[n - 1], Err(TryRecvError::Empty)));
    }
}

/// Whether receives in a row, each by some receiver, have these results.
pub open spec fn receives<T>(
    states: Seq<Channel<T>>,
    ids: Seq<int>,
    results: Seq<Result<T, TryRecvError>>,
) -> bool {
    &&& states.len() == results.len() + 1
    &&& ids.len() == results.len()
    &&& forall|i: int|
        0 <= i < results.len() ==> (states[i + 1]).answers(
            &states[i],
            ids[i],
            #[trigger] results[i],
        )
}

/// The state of a channel without senders after some receives.
proof fn lemma_receives<T>(
    states: Seq<Channel<T>>,
    ids: Seq<int>,
    results: Seq<Result<T, TryRecvError>>,
)
    requires
        receives(states, ids, results),
        states[0].live_senders == 0,
    ensures
        states.last().live_senders == 0,
        values_of(results).add(states.last().contents()) == states[0].contents(),
        (forall|i: int|
            0 <= i < results.len() ==> #[trigger] results[i] != Err::<T, TryRecvError>(
                TryRecvError::Disconnected,
            )) ==> (TRY_RECV_RETRIES + 1) * results.len() + states.last().upkeep() + (
        TRY_RECV_RETRIES + 2) * states.last().contents().len() <= states[0].upkeep() + (
        TRY_RECV_RETRIES + 2) * states[0].contents().len(),
    decreases results.len(),
{
    let n = results.len() as int;
    if n == 0 {
        assert(values_of(results).add(states[0].contents()) =~= states[0].contents());
    } else {
        let earlier = states.drop_last();
        assert forall|i: int| 0 <= i < results.drop_last().len() implies (earlier[i + 1]).answers(
            &earlier[i],
            ids.drop_last()[i],
            #[trigger] results.drop_last()[i],
        ) by {
            assert(states[i + 1].answers(&states[i], ids[i], results[i]));
        }
        lemma_receives(earlier, ids.drop_last(), results.drop_last());
        let before = states[n - 1];
        let after = states[n];
        assert(after.answers(&before, ids[n - 1], results[n - 1]));
        if let Ok(value) = results[n - 1] {
            assert(values_of(results).add(after.contents()) =~= values_of(results.drop_last()).add(
                before.contents(),
            ));
            assert(after.contents().len() + 1 == before.contents().len());
        }
        if forall|i: int|
            0 <= i < results.len() ==> #[trigger] results[i] != Err::<T, TryRecvError>(
                TryRecvError::Disconnected,
            ) {
            assert forall|i: int| 0 <= i < results.drop_last().len() implies
                #[trigger] results.drop_last()[i] != Err::<T, TryRecvError>(
                TryRecvError::Disconnected,
            ) by {
                assert(results[i] != Err::<T, TryRecvError>(TryRecvError::Disconnected));
            }
        }
    }
}

/// Once the last sender is gone, receives in a row, by whichever receivers, hand
/// out what the channel holds, each value once, and then report disconnection:
/// by then all of it has been handed out, and half as many tries as there is
/// upkeep, together with one and a half for each value, are enough. Where nothing
/// is left, half as many tries as there is upkeep are.
pub proof fn law_disconnection_follows_the_values<T>(
    states: Seq<Channel<T>>,
    ids: Seq<int>,
    results: Seq<Result<T, TryRecvError>>,
)
    requires
        receives(states, ids, results),
        states[0].live_senders == 0,
    ensures
        2 * results.len() > states[0].upkeep() + 3 * states[0].contents().len() ==> exists|i: int|
            0 <= i < results.len() && #[trigger] results[i] == Err::<T, TryRecvError>(
                TryRecvError::Disconnected,
            ),
        forall|i: int|
            0 <= i < results.len() && #[trigger] results[i] == Err::<T, TryRecvError>(
                TryRecvError::Disconnected,
            ) ==> values_of(results.take(i)) == states[0].contents(),
        forall|i: int| 0 <= i <= results.len() ==> values_of(#[trigger] results.take(i)).subset_of(
            states[0].contents(),
        ),
{
    lemma_receives(states, ids, results);
    assert forall|i: int| 0 <= i <= results.len() implies values_of(
        #[trigger] results.take(i),
    ).add(states[i].contents()) == states[0].contents() by {
        assert forall|k: int| 0 <= k < i implies (states.take(i + 1)[k + 1]).answers(
            &states.take(i + 1)[k],
            ids.take(i)[k],
            #[trigger] results.take(i)[k],
        ) by {
            assert(states[k + 1].answers(&states[k], ids[k], results[k]));
        }
        lemma_receives(states.take(i + 1), ids.take(i), results.take(i));
    }
    assert forall|i: int|
        0 <= i < results.len() && #[trigger] results[i] == Err::<T, TryRecvError>(
            TryRecvError::Disconnected,
        ) implies values_of(results.take(i)) == states[0].contents() by {
        assert(states[i + 1].answers(&states[i], ids[i], results[i]));
        assert(values_of(results.take(i)).add(states[i].contents()) =~= values_of(
            results.take(i),
        ));
    }
    assert forall|i: int| 0 <= i <= results.len() implies values_of(
        #[trigger] results.take(i),
    ).subset_of(states[0].contents()) by {
        assert(values_of(results.take(i)).add(states[i].contents()) == states[0].contents());
    }
}

/// Whether tries of blocking receives in a row, each by some receiver, go like
/// this.
pub open spec fn tries<T>(
    states: Seq<Channel<T>>,
    ids: Seq<int>,
    attempts: Seq<usize>,
    progress: Seq<RecvProgress<T>>,
) -> bool {
    &&& states.len() == progress.len() + 1
    &&& ids.len() == progress.len()
    &&& attempts.len() == progress.len()
    &&& forall|i: int|
        0 <= i < progress.len() ==> (states[i + 1]).recv_went(
            &states[i],
            ids[i],
            attempts[i],
            #[trigger] progress[i],
        )
}

/// What a try found.
pub open spec fn found<T>(progress: RecvProgress<T>) -> Result<T, TryRecvError> {
    match progress {
        RecvProgress::Done(Ok(value)) => Ok(value),
        RecvProgress::Done(Err(_)) => Err(TryRecvError::Disconnected),
        _ => Err(TryRecvError::Empty),
    }
}

/// What tries found.
pub open spec fn all_found<T>(progress: Seq<RecvProgress<T>>) -> Seq<Result<T, TryRecvError>> {
    Seq::new(progress.len(), |i: int| found(progress[i]))
}

/// Without senders a blocking receive does not park.
proof fn lemma_tries<T>(
    states: Seq<Channel<T>>,
    ids: Seq<int>,
    attempts: Seq<usize>,
    progress: Seq<RecvProgress<T>>,
    n: int,
)
    requires
        tries(states, ids, attempts, progress),
        states[0].live_senders == 0,
        0 <= n <= progress.len(),
    ensures
        states[n].live_senders == 0,
        forall|i: int| 0 <= i < n ==> !(#[trigger] progress[i] is Park),
        forall|i: int|
            0 <= i < n ==> (states[i + 1]).answers(
                &states[i],
                ids[i],
                found(#[trigger] progress[i]),
            ),
    decreases n,
{
    if n > 0 {
        lemma_tries(states, ids, attempts, progress, n - 1);
        assert(states[n].recv_went(&states[n - 1], ids[n - 1], attempts[n - 1], progress[n - 1]));
        assert(states[n].answers(&states[n - 1], ids[n - 1], found(progress[n - 1])));
        assert(states[n].kept(&states[n - 1]));
    }
}

/// What tries found are the results of receives.
proof fn lemma_tries_receive<T>(
    states: Seq<Channel<T>>,
    ids: Seq<int>,
    attempts: Seq<usize>,
    progress: Seq<RecvProgress<T>>,
)
    requires
        tries(states, ids, attempts, progress),
        states[0].live_senders == 0,
    ensures
        forall|i: int| 0 <= i < progress.len() ==> !(#[trigger] progress[i] is Park),
        receives(states, ids, all_found(progress)),
{
    lemma_tries(states, ids, attempts, progress, progress.len() as int);
    assert forall|i: int| 0 <= i < progress.len() implies (states[i + 1]).answers(
        &states[i],
        ids[i],
        #[trigger] all_found(progress)[i],
    ) by {
        assert(all_found(progress)[i] == found(progress[i]));
    }
}

/// Tries fail where their results are disconnections.
proof fn lemma_failures<T>(progress: Seq<RecvProgress<T>>, i: int)
    requires
        0 <= i < progress.len(),
    ensures
        progress[i] == RecvProgress::<T>::Done(Err(RecvError)) <==> all_found(progress)[i] == Err::<
            T,
            TryRecvError,
        >(TryRecvError::Disconnected),
        all_found(progress.take(i)) == all_found(progress).take(i),
{
    if let RecvProgress::Done(Err(error)) = progress[i] {
        assert(error == RecvError);
    }
    assert(all_found(progress.take(i)) =~= all_found(progress).take(i));
}

/// What holds of results holds of the tries that found them.
proof fn lemma_ends<T>(progress: Seq<RecvProgress<T>>, contents: Multiset<T>, upkeep: int)
    requires
        2 * progress.len() > upkeep + 3 * contents.len() ==> exists|i: int|
            0 <= i < progress.len() && #[trigger] all_found(progress)[i] == Err::<T, TryRecvError>(
                TryRecvError::Disconnected,
            ),
        forall|i: int|
            0 <= i < progress.len() && #[trigger] all_found(progress)[i] == Err::<T, TryRecvError>(
                TryRecvError::Disconnected,
            ) ==> values_of(all_found(progress).take(i)) == contents,
    ensures
        2 * progress.len() > upkeep + 3 * contents.len() ==> exists|i: int|
            0 <= i < progress.len() && #[trigger] progress[i] == RecvProgress::<T>::Done(
                Err(RecvError),
            ),
        forall|i: int|
            0 <= i < progress.len() && #[trigger] progress[i] == RecvProgress::<T>::Done(
                Err(RecvError),
            ) ==> values_of(all_found(progress.take(i))) == contents,
{
    if 2 * progress.len() > upkeep + 3 * contents.len() {
        let i = choose|i: int|
            0 <= i < progress.len() && #[trigger] all_found(progress)[i] == Err::<T, TryRecvError>(
                TryRecvError::Disconnected,
            );
        lemma_failures(progress, i);
    }
    assert forall|i: int|
        0 <= i < progress.len() && #[trigger] progress[i] == RecvProgress::<T>::Done(
            Err(RecvError),
        ) implies values_of(all_found(progress.take(i))) == contents by {
        lemma_failures(progress, i);
    }
}

/// Once the last sender is gone, blocking receives do not park, and they come to
/// an end: in a row, by whichever receivers, they return what the channel holds,
/// each value once, and then fail. By the first failure everything has been
/// returned, and there are at most half as many tries before it as there is
/// upkeep, together with one and a half for each value.
pub proof fn law_blocking_receives_end<T>(
    states: Seq<Channel<T>>,
    ids: Seq<int>,
    attempts: Seq<usize>,
    progress: Seq<RecvProgress<T>>,
)
    requires
        tries(states, ids, attempts, progress),
        states[0].live_senders == 0,
    ensures
        forall|i: int| 0 <= i < progress.len() ==> !(#[trigger] progress[i] is Park),
        2 * progress.len() > states[0].upkeep() + 3 * states[0].contents().len() ==> exists|i: int|
            0 <= i < progress.len() && #[trigger] progress[i] == RecvProgress::<T>::Done(
                Err(RecvError),
            ),
        forall|i: int|
            0 <= i < progress.len() && #[trigger] progress[i] == RecvProgress::<T>::Done(
                Err(RecvError),
            ) ==> values_of(all_found(progress.take(i))) == states[0].contents(),
{
    let results = all_found(progress);
    lemma_tries_receive(states, ids, attempts, progress);
    law_disconnection_follows_the_values(states, ids, results);
    lemma_ends(progress, states[0].contents(), states[0].upkeep() as int);
}

/// Where no upkeep is due, a value that was sent is received at once, whoever
/// asks for it.
pub proof fn law_sent_value_is_received<T>(
    before: Channel<T>,
    mid: Channel<T>,
    after: Channel<T>,
    slot: int,
    value: T,
    id: int,
    result: Result<T, TryRecvError>,
)
    requires
        before.upkeep() <= TRY_RECV_RETRIES,
        mid.sent(&before, slot, value),
        after.answers(&mid, id, result),
    ensures
        result is Ok,
        mid.contents().count(result->Ok_0) > 0,
{
    assert(mid.contents().count(value) > 0);
}

/// A receive misses a value only where more upkeep is due than it has looks.
pub proof fn law_upkeep_alone_hides_values<T>(
    before: Channel<T>,
    after: Channel<T>,
    id: int,
    result: Result<T, TryRecvError>,
)
    requires
        after.answers(&before, id, result),
        before.contents() != Multiset::<T>::empty(),
    ensures
        before.upkeep() <= TRY_RECV_RETRIES ==> result is Ok,
        result != Err::<T, TryRecvError>(TryRecvError::Disconnected),
{
}

/// Upkeep is bounded by the lanes whose sender was dropped and the pages. With
/// one page and no lane that dried up pending, no receive misses a value.
pub proof fn law_upkeep_is_bounded<T>(ch: Channel<T>)
    requires
        ch.wf(),
    ensures
        ch.upkeep() <= 2 * ch.dry_lanes() + (ch.lanes@.len() + 63) / 64,
        ch.lanes@.len() <= LANES_PER_PAGE && ch.dry_lanes() == 0 ==> ch.upkeep()
            <= TRY_RECV_RETRIES,
{
    lemma_count_bound(ch.routing.stale_flags());
}

/// A receiver with staged work, or with work left behind by others, gets a
/// value.
pub proof fn law_staged_work_is_received<T>(
    before: Channel<T>,
    after: Channel<T>,
    id: int,
    result: Result<T, TryRecvError>,
)
    requires
        after.answers(&before, id, result),
        before.staged_by(id).len() > 0 || before.left_behind().len() > 0,
    ensures
        result is Ok,
        after.upkeep() == before.upkeep(),
{
}

/// What a dropped receiver had staged is received by the others.
pub proof fn law_survivors_receive_what_was_staged<T>(
    before: Channel<T>,
    mid: Channel<T>,
    after: Channel<T>,
    id: int,
    other: int,
    result: Result<T, TryRecvError>,
)
    requires
        before.live_receivers > 1,
        before.staged_by(id).len() > 0,
        other != id,
        mid.receiver_removed(&before, id),
        after.answers(&mid, other, result),
    ensures
        result is Ok,
        before.staged_by(other).len() == 0 ==> result->Ok_0 == (before.left_behind()
            + before.staged_by(id))[0],
{
    assert(mid.staged_by(other) == before.staged_by(other));
}

/// What a receiver had staged is received by its clone, once no ring holds a
/// value and no upkeep is due.
pub proof fn law_clones_receive_what_was_staged<T>(
    before: Channel<T>,
    mid: Channel<T>,
    after: Channel<T>,
    from: int,
    id: int,
    result: Result<T, TryRecvError>,
)
    requires
        before.contents() != Multiset::<T>::empty(),
        before.upkeep() <= TRY_RECV_RETRIES,
        mid.receiver_added(&before, from, id),
        after.answers(&mid, id, result),
    ensures
        result is Ok,
{
}

/// A receiver takes its own staged work first, in order, and then what dropped
/// receivers left behind.
pub proof fn law_own_work_comes_first<T>(
    before: Channel<T>,
    after: Channel<T>,
    id: int,
    value: T,
)
    requires
        after.answers(&before, id, Ok(value)),
    ensures
        before.staged_by(id).len() > 0 ==> value == before.staged_by(id)[0] && after.staged_by(id)
            == before.staged_by(id).drop_first(),
        before.staged_by(id).len() == 0 && before.left_behind().len() > 0 ==> value
            == before.left_behind()[0] && after.left_behind() == before.left_behind().drop_first(),
{
}

/// A receiver steals only when no ring holds a value.
pub proof fn law_rings_come_before_stealing<T>(
    before: Channel<T>,
    after: Channel<T>,
    id: int,
    value: T,
    slot: int,
)
    requires
        after.answers(&before, id, Ok(value)),
        before.nothing_own(id),
        before.unread_in(slot).len() > 0,
    ensures
        forall|k: int| k != id ==> #[trigger] after.staged_by(k) == before.staged_by(k),
        exists|t: int| #[trigger] after.drained(&before, id, t, value),
{
}

/// One receive takes at most 64 values from a ring, and at most eight from a
/// competitor.
pub proof fn law_batches_are_bounded<T>(
    before: Channel<T>,
    after: Channel<T>,
    id: int,
    value: T,
    slot: int,
    other: int,
)
    requires
        after.answers(&before, id, Ok(value)),
        other != id,
    ensures
        before.unread_in(slot).len() - after.unread_in(slot).len() <= 64,
        before.staged_by(other).len() - after.staged_by(other).len() <= 8,
{
}

/// A receive that does not block looks four times at most before it answers.
pub proof fn law_looks_are_bounded<T>(
    before: Channel<T>,
    after: Channel<T>,
    id: int,
    result: Result<T, TryRecvError>,
)
    requires
        after.answers(&before, id, result),
    ensures
        after.traced(&before, id, result, 4),
{
}

/// What a receiver has staged never exceeds the rest of one batch.
pub proof fn law_staged_work_is_bounded<T>(ch: Channel<T>, id: int)
    requires
        ch.wf(),
    ensures
        ch.staged_by(id).len() < 64,
{
    if ch.knows(id) {
        assert(ch.receivers@[id] is Some);
    }
}

/// Marked lanes and queued lanes come first in turn. When marked lanes do, a
/// marked one is taken if there is any. When queued lanes do, a marked one is
/// taken only if neither the remembered page nor any page that the look came to
/// held a queued lane.
pub proof fn law_priority_alternates(
    before: Routing,
    after: Routing,
    from: Cursors,
    to: Cursors,
    slot: usize,
)
    requires
        before.wf(),
        from.wf(),
        after.routed(&before, from, to, Some(slot)),
    ensures
        to.prefer_work == !from.prefer_work,
        !from.prefer_work && before.ready@ != Set::<int>::empty() ==> before.ready@.contains(
            slot as int,
        ),
        from.prefer_work && before.ready@.contains(slot as int) ==> {
            &&& before.queue(from.direct as int % before.pages@.len() as int).len() == 0
            &&& forall|p: int| #[trigger]
                before.claims(from.page as int, p) ==> before.queue(p).len() == 0
        },
{
    let pages = before.pages@.len() as int;
    let groups = before.work_groups@.len() as int;
    let direct = from.direct as int % pages;
    vstd::arithmetic::div_mod::lemma_mod_bound(from.direct as int, pages);
    vstd::arithmetic::div_mod::lemma_mod_bound(from.group as int, groups);
    assert(before.page_ok(direct));
    let turned = from.turned();
    if from.prefer_work && before.ready@.contains(slot as int) {
        if before.queue(direct).len() == 0 {
            if after.took_queued(&before, &turned, &to, slot as int) {
                assert(before.page_ok(slot as int / 64));
                assert(before.pages@[slot as int / 64].lanes@[0] == slot);
            }
            assert forall|p: int| #[trigger] before.claims(from.page as int, p) implies
                before.queue(p).len() == 0 by {
                assert(before.claimed_before(&turned, groups, p));
            }
        } else {
            assert(before.pages@[direct].lanes@[0] == slot);
        }
    }
}

/// Cursors rotate: the page that gave a lane comes last when the same receiver
/// looks again, among all pages for a direct look, and, if it was found through
/// the summaries, within its group and with its group.
pub proof fn law_cursors_rotate(
    before: Routing,
    after: Routing,
    from: Cursors,
    to: Cursors,
    slot: usize,
)
    requires
        before.wf(),
        from.wf(),
        after.routed(&before, from, to, Some(slot)),
    ensures
        ({
            let p = slot as int / 64;
            let pages = before.pages@.len() as int;
            let groups = before.work_groups@.len() as int;
            &&& turns(to.direct as int, p, pages) == pages - 1
            &&& from.group == to.group && from.page == to.page || {
                &&& distance(to.page as int, p % 64) == 63
                &&& turns(to.group as int, p / 64, groups) == groups - 1
            }
        }),
{
    let pages = before.pages@.len() as int;
    let groups = before.work_groups@.len() as int;
    let direct = from.direct as int % pages;
    vstd::arithmetic::div_mod::lemma_mod_bound(from.direct as int, pages);
    assert(before.page_ok(direct));
    if before.queue(direct).len() > 0 {
        assert(before.pages@[direct].lanes@[0] as int / 64 == direct);
    }
}

/// Thieves rotate over their victims: the receiver that was stolen from comes
/// last when the same thief searches again among the same receivers.
pub proof fn law_victims_rotate<T>(before: Channel<T>, after: Channel<T>, id: int, p: int, value: T)
    requires
        after.stole_from(&before, id, p, value),
        after.same_receivers(&before),
    ensures
        after.alive() == before.alive(),
        ({
            let n = after.alive().len() as int;
            turns(after.receiver(id).steal_cursor as int % n, p, n) == n - 1
        }),
{
    before.lemma_alive_same(&after);
    let n = before.alive().len() as int;
    if p + 1 < n {
        vstd::arithmetic::div_mod::lemma_small_mod((p + 1) as nat, n as nat);
    } else {
        vstd::arithmetic::div_mod::lemma_mod_self_0(n);
    }
}

/// A search for work that found none lets the next one start one receiver later,
/// so that in turn each of them comes first.
pub proof fn law_empty_searches_rotate<T>(ch: Channel<T>, cursor: usize)
    requires
        0 < ch.alive().len(),
        cursor < ch.alive().len() <= usize::MAX,
    ensures
        ch.past_search(cursor) == following(cursor as int, ch.alive().len() as int),
{
    let n = ch.alive().len() as int;
    if cursor + 1 < n {
        vstd::arithmetic::div_mod::lemma_small_mod((cursor + 1) as nat, n as nat);
    } else {
        vstd::arithmetic::div_mod::lemma_mod_self_0(n);
    }
}

/// Disconnection is reported only when nothing is left and no sender is alive,
/// and nobody can send or register any more.
pub proof fn law_disconnection_is_final<T>(
    before: Channel<T>,
    after: Channel<T>,
    id: int,
    tx: Sender,
)
    requires
        before.wf(),
        after.wf(),
        after.answers(&before, id, Err(TryRecvError::Disconnected)),
    ensures
        before.contents() == Multiset::<T>::empty(),
        after.contents() == Multiset::<T>::empty(),
        before.live_senders == 0,
        after.live_senders == 0,
        !after.owns(&tx),
{
    lemma_count_zero(connected(after.lanes@));
    if after.owns(&tx) {
        assert(connected(after.lanes@)[tx.key.slot as int]);
    }
}

/// Whether nothing is left, nobody can send, and no upkeep is due.
pub open spec fn is_over<T>(ch: Channel<T>) -> bool {
    &&& ch.contents() == Multiset::<T>::empty()
    &&& ch.live_senders == 0
    &&& ch.registered_lanes == 0
    &&& ch.upkeep() == 0
}

/// Disconnection is reported only when every value was received, every sender is
/// gone and every lane is retired, and then nothing is staged anywhere.
pub proof fn law_disconnected_channel_is_over<T>(before: Channel<T>, after: Channel<T>, id: int)
    requires
        before.wf(),
        after.wf(),
        after.answers(&before, id, Err(TryRecvError::Disconnected)),
    ensures
        is_over(after),
        before.publications.in_flight == 0,
        after.publications.in_flight == 0,
        forall|slot: int| (#[trigger] before.unread_in(slot)).len() == 0,
        forall|k: int| (#[trigger] before.staged_by(k)).len() == 0,
        before.left_behind().len() == 0,
{
    lemma_nothing_anywhere(before);
}

/// An empty channel holds nothing in any place.
proof fn lemma_nothing_anywhere<T>(ch: Channel<T>)
    requires
        ch.wf(),
        ch.contents() == Multiset::<T>::empty(),
    ensures
        forall|slot: int| (#[trigger] ch.unread_in(slot)).len() == 0,
        forall|k: int| (#[trigger] ch.staged_by(k)).len() == 0,
        ch.left_behind().len() == 0,
{
    ch.lemma_tickets_apart();
    assert(ch.staging.values() =~= Multiset::<T>::empty());
    lemma_values_empty(ch.staging.places@);
    assert forall|slot: int| (#[trigger] ch.unread_in(slot)).len() == 0 by {
        if ch.unread_in(slot).len() > 0 {
            let v = ch.unread(slot)[0];
            lemma_bag_places(ch.unread(slot), 0, 0);
            lemma_total_members(lane_bags(ch.lanes@), slot, slot, v);
            assert(ch.contents().count(v) > 0);
        }
    }
    assert forall|k: int| (#[trigger] ch.staged_by(k)).len() == 0 by {
        if ch.knows(k) {
            if ch.receiver(k).private@.len() > 0 {
                let v = ch.receiver(k).private@[0];
                lemma_bag_places(ch.receiver(k).private@, 0, 0);
                lemma_total_members(private_bags(ch.receivers@), k, k, v);
                assert(ch.contents().count(v) > 0);
            }
            if ch.receiver(k).local@.len() > 0 {
                let t = ch.receiver(k).local@[0];
                assert(ch.staging.holds(t));
                assert(ch.staging.places@[t as int] is None);
            }
        }
    }
    if ch.orphaned@.len() > 0 {
        let t = ch.orphaned@[0];
        assert(ch.staging.holds(t));
        assert(ch.staging.places@[t as int] is None);
    }
}

/// Once a receive has reported disconnection, every later one does, whatever
/// receivers do meanwhile: receive, wait, come and go. No sender is left that
/// could send or register another one.
pub proof fn law_disconnection_is_repeated<T>(
    before: Channel<T>,
    id: int,
    states: Seq<Channel<T>>,
    events: Seq<Event<T>>,
)
    requires
        states.len() > 0,
        states[0].answers(&before, id, Err(TryRecvError::Disconnected)),
        history(states, events),
        forall|i: int| 0 <= i < events.len() ==> !(#[trigger] events[i] is Sent) && !(events[i]
            is Registered),
    ensures
        forall|i: int| 0 <= i < events.len() ==> {
            &&& !(#[trigger] events[i] is Received)
            &&& !(events[i] is Parked)
            &&& events[i] matches Event::Missed(_, error) ==> error == TryRecvError::Disconnected
        },
        is_over(states.last()),
    decreases events.len(),
{
    if events.len() > 0 {
        let n = events.len() as int;
        let earlier = states.drop_last();
        assert forall|i: int| 0 <= i < events.drop_last().len() implies leads(
            earlier[i],
            #[trigger] events.drop_last()[i],
            earlier[i + 1],
        ) by {
            assert(leads(states[i], events[i], states[i + 1]));
        }
        assert forall|i: int| 0 <= i < events.drop_last().len() implies !(
        #[trigger] events.drop_last()[i] is Sent) && !(events.drop_last()[i] is Registered) by {
            assert(!(events[i] is Sent));
        }
        law_disconnection_is_repeated(before, id, earlier, events.drop_last());
        assert(earlier.last() == states[n - 1]);
        assert(leads(states[n - 1], events[n - 1], states[n]));
        lemma_over(states[n - 1], events[n - 1], states[n]);
        assert forall|i: int| 0 <= i < events.len() implies {
            &&& !(#[trigger] events[i] is Received)
            &&& !(events[i] is Parked)
            &&& events[i] matches Event::Missed(_, error) ==> error == TryRecvError::Disconnected
        } by {
            if i < n - 1 {
                assert(events.drop_last()[i] == events[i]);
            }
        }
    }
}

/// What is over stays so.
proof fn lemma_over<T>(before: Channel<T>, event: Event<T>, after: Channel<T>)
    requires
        is_over(before),
        leads(before, event, after),
        !(event is Sent),
        !(event is Registered),
    ensures
        is_over(after),
        !(event is Received),
        !(event is Parked),
        event matches Event::Missed(_, error) ==> error == TryRecvError::Disconnected,
{
    match event {
        Event::Refused(slot, _) => {
            before.lemma_waiting(&after, slot);
        },
        Event::SenderWaited(slot) => {
            before.lemma_waiting(&after, slot);
        },
        Event::ReceiverWaited => {
            before.lemma_waiting(&after, 0);
        },
        Event::ReceiverDropped(_) => {
            lemma_dropped(before, event, after);
            assert(after.contents() =~= Multiset::<T>::empty());
            lemma_count_zero(taken_places(before.lanes@));
            lemma_count_zero(dry(after.lanes@));
            assert forall|t: int| 0 <= t < dry(after.lanes@).len() implies !#[trigger] dry(
                after.lanes@,
            )[t] by {
                assert(!taken_places(before.lanes@)[t]);
                if before.live_receivers == 1 {
                    assert(abandoned(before.lanes@[t], after.lanes@[t]));
                }
            }
        },
        _ => {},
    }
}

/// A receiver goes to sleep only when the channel is empty, and then the next
/// send tells it: the send counts a notification, and one more of the sleeping
/// receivers is to be signalled.
pub proof fn law_data_is_announced<T>(
    before: Channel<T>,
    asleep: Channel<T>,
    after: Channel<T>,
    id: int,
    wait: MultiWaitRegistration,
    slot: int,
    value: T,
)
    requires
        asleep.awaits_data(&before, id, wait),
        asleep.present(slot),
        after.sent(&asleep, slot, value),
    ensures
        before.contents() == Multiset::<T>::empty(),
        after.data_waiters.state == notified(wait.snapshot),
        after.data_waiters.state != wait.snapshot,
        after.data_waiters == asleep.data_waiters.after_notify_one(),
        after.data_waiters.signals > 0,
{
    assert(!asleep.pending(slot));
    assert(notified_times(wait.snapshot, 0) == wait.snapshot);
    assert(notified_times(wait.snapshot, 1) == notified(wait.snapshot));
    law_notifications_change_snapshot(wait.snapshot, 1);
}

/// The end of any sender tells sleeping receivers: an earlier one has one of them
/// signalled, the last one all of them.
pub proof fn law_sender_drop_is_announced<T>(before: Channel<T>, after: Channel<T>, slot: int)
    requires
        after.sender_dropped(&before, slot),
    ensures
        after.data_waiters.state == notified(before.data_waiters.state),
        after.data_waiters.state != before.data_waiters.state,
        before.live_senders > 1 ==> after.data_waiters == before.data_waiters.after_notify_one(),
        after.live_senders == 0 ==> after.data_waiters.signals == before.data_waiters.waiters,
{
    let state = before.data_waiters.state;
    assert(notified_times(state, 0) == state);
    assert(notified_times(state, 1) == notified(state));
    law_notifications_change_snapshot(state, 1);
}

/// Sleeping receivers are told of what a receive found and did not take: all of
/// them are to be signalled if it staged values or retired the last lane after
/// the last sender, one of them if the lane that it drained holds more, and none
/// otherwise.
pub proof fn law_left_over_is_announced<T>(
    before: Channel<T>,
    after: Channel<T>,
    id: int,
    result: Result<T, TryRecvError>,
)
    requires
        after.answers(&before, id, result),
    ensures
        ({
            let all = after.last_retired(&before) || exists|t: int| #[trigger]
                after.gave_many(&before, t);
            let one = exists|t: int| #[trigger] after.gave_some(&before, t);
            let cell = before.data_waiters;
            &&& all ==> after.data_waiters == cell.after_notify_all()
            &&& one && !all ==> after.data_waiters == cell.after_notify_one()
            &&& !one && !all ==> after.data_waiters == cell
            &&& one || all ==> after.data_waiters.state != cell.state
        }),
{
    let state = before.data_waiters.state;
    assert(notified_times(state, 0) == state);
    assert(notified_times(state, 1) == notified(state));
    law_notifications_change_snapshot(state, 1);
}

/// A sender that sleeps because its lane is full is told as soon as a receive
/// makes room.
pub proof fn law_room_is_announced<T>(
    before: Channel<T>,
    after: Channel<T>,
    id: int,
    result: Result<T, TryRecvError>,
    slot: int,
)
    requires
        before.wf(),
        after.wf(),
        after.answers(&before, id, result),
        before.present(slot),
        after.present(slot),
        before.lane(slot).ring.full(),
        !after.lane(slot).ring.full(),
    ensures
        after.lane(slot).signal.space_waiter == before.lane(slot).signal.space_waiter.after_notify(),
        after.lane(slot).signal.space_waiter.state != before.lane(slot).signal.space_waiter.state,
{
    assert(before.lanes@[slot] is Some);
    assert(after.lanes@[slot] is Some);
    assert(lane_kept(before.lanes@[slot], after.lanes@[slot]));
    assert(lane_told(before.lane(slot), after.lane(slot)));
    assert(held(after.lane(slot)) < held(before.lane(slot)));
    let state = before.lane(slot).signal.space_waiter.state;
    assert(notified_times(state, 0) == state);
    assert(notified_times(state, 1) == notified(state));
    law_notifications_change_snapshot(state, 1);
}

/// A lane never holds more values than the capacity of one sender.
pub proof fn law_capacity_is_per_sender<T>(ch: Channel<T>, slot: int)
    requires
        ch.wf(),
        ch.present(slot),
    ensures
        ch.unread(slot).len() <= ch.capacity,
{
    assert(ch.lanes@[slot] is Some);
}

/// A full lane does not keep other senders from sending.
pub proof fn law_full_is_per_sender<T>(
    before: Channel<T>,
    after: Channel<T>,
    slot: int,
    value: T,
    other: int,
)
    requires
        before.present(other),
        other != slot,
        after.sent(&before, slot, value),
    ensures
        after.present(other),
        after.lane(other) == before.lane(other),
{
    assert(after.lanes@[other] == before.lanes@[other]);
}

/// With several receivers no value is out of reach of any of them: nothing is
/// kept private.
pub proof fn law_competitors_share_everything<T>(ch: Channel<T>, id: int)
    requires
        ch.wf(),
        ch.live_receivers > 1,
        ch.knows(id),
    ensures
        ch.receiver(id).private@.len() == 0,
        total(private_bags(ch.receivers@)) == Multiset::<T>::empty(),
{
    assert(ch.receivers@[id] is Some);
    lemma_bag_empty::<T>();
    assert forall|k: int| 0 <= k < private_bags(ch.receivers@).len() implies #[trigger] private_bags(
        ch.receivers@,
    )[k] == Multiset::<T>::empty() by {
        if ch.receivers@[k] is Some {
            assert(ch.receivers@[k]->Some_0.private@ =~= Seq::<T>::empty());
        }
    }
    lemma_total_empty(private_bags(ch.receivers@));
}

/// The lane table grows only when every slot is taken, so it is never longer
/// than the largest number of lanes registered at one time.
pub proof fn law_slots_are_reused<T>(before: Channel<T>, after: Channel<T>, key: LaneKey)
    requires
        before.wf(),
        before.receiver_alive,
        after.registered(&before, key),
        after.lanes@.len() > before.lanes@.len(),
    ensures
        before.registered_lanes == before.lanes@.len(),
        forall|slot: int| 0 <= slot < before.lanes@.len() ==> #[trigger] before.present(slot),
{
    lemma_count_full(taken_places(before.lanes@));
    assert forall|slot: int| 0 <= slot < before.lanes@.len() implies #[trigger] before.present(
        slot,
    ) by {
        assert(taken_places(before.lanes@)[slot]);
    }
}

/// A coordinated channel holds no value once its last receiver is gone.
pub proof fn law_coordinated_drop_discards<T>(before: Channel<T>, after: Channel<T>, id: int)
    requires
        before.wf(),
        before.coordinated,
        before.live_receivers == 1,
        after.receiver_removed(&before, id),
    ensures
        after.contents() == Multiset::<T>::empty(),
{
    lemma_bag_empty::<T>();
    assert forall|t: int| 0 <= t < lane_bags(after.lanes@).len() implies #[trigger] lane_bags(
        after.lanes@,
    )[t] == Multiset::<T>::empty() by {
        assert(abandoned(before.lanes@[t], after.lanes@[t]));
        assert(before.lanes@[t] is Some ==> before.lanes@[t]->Some_0.ring.coordinated);
    }
    lemma_total_empty(lane_bags(after.lanes@));
}

/// Any other channel keeps the values in a live sender's ring until that sender
/// is dropped too.
pub proof fn law_deferred_drop_keeps_values<T>(
    before: Channel<T>,
    after: Channel<T>,
    id: int,
    slot: int,
)
    requires
        before.wf(),
        !before.coordinated,
        before.live_receivers == 1,
        after.receiver_removed(&before, id),
        before.present(slot),
        !before.lane(slot).ring.producer_closed,
    ensures
        after.present(slot),
        after.unread(slot) == before.unread(slot),
{
    assert(before.lanes@[slot] is Some);
    assert(abandoned(before.lanes@[slot], after.lanes@[slot]));
}

/// While other receivers are alive, the end of one keeps every value. Those
/// that it had staged are left behind for the others, in their order.
pub proof fn law_receiver_drop_keeps_values<T>(before: Channel<T>, after: Channel<T>, id: int)
    requires
        before.live_receivers > 1,
        after.receiver_removed(&before, id),
    ensures
        after.contents() == before.contents(),
        after.left_behind() == before.left_behind() + before.staged_by(id),
{
}

/// The end of the last receiver tells every sender that sleeps.
pub proof fn law_receiver_drop_is_announced<T>(
    before: Channel<T>,
    after: Channel<T>,
    id: int,
    slot: int,
)
    requires
        before.live_receivers == 1,
        after.receiver_removed(&before, id),
        before.present(slot),
        !before.lane(slot).ring.producer_closed,
    ensures
        after.present(slot),
        after.lane(slot).signal.space_waiter.state == notified(
            before.lane(slot).signal.space_waiter.state,
        ),
{
    assert(abandoned(before.lanes@[slot], after.lanes@[slot]));
}

} // verus!
