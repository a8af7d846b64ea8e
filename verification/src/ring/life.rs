//! The life of a ring: every value that was pushed leaves it once.
//!
//! A history is a list of steps, each of them one call of a producer or of the
//! consumer. The steps of a send may alternate with those of the consumer: a
//! coordinated producer claims the ring, pushes, publishes, and lets go of it,
//! and the consumer may close in between.
use vstd::prelude::*;

use super::Ring;

verus! {

/// What a producer or the consumer does to a ring.
pub enum Step<T> {
    /// `push` takes a value.
    Pushed(T),
    /// `flush`.
    Flushed,
    /// `push_and_flush` takes a value.
    Sent(T),
    /// `begin` claims the ring.
    Begun,
    /// `finish`, with the values that it discards.
    Finished(Seq<T>),
    /// `prefetch`.
    Prefetched,
    /// `pop` gives a value.
    Popped(T),
    /// `release`.
    Released,
    /// `close_producer`.
    ProducerClosed,
    /// `close_consumer`, with the values that it discards.
    ConsumerClosed(Seq<T>),
    /// A push, a send or a claim that was refused, or a pop that found nothing.
    Refused,
}

/// What a close or the end of a send discards: the published values of a
/// coordinated ring.
pub open spec fn discards<T>(before: &Ring<T>, after: &Ring<T>, gone: Seq<T>) -> bool {
    &&& after.discarded(before)
    &&& gone == before@.take(before.flushed as int)
}

/// Whether a step leads from one state to the next. A producer that is gone does
/// not push, a consumer that is gone does not pop, and a coordinated producer
/// pushes only while it claims the ring, which it lets go of when all it pushed is
/// published.
pub open spec fn leads<T>(before: &Ring<T>, after: &Ring<T>, step: Step<T>) -> bool {
    &&& before.wf()
    &&& after.wf()
    &&& match step {
        Step::Pushed(value) => {
            &&& !before.producer_closed
            &&& before.coordinated ==> before.sending
            &&& after.same_ends(before)
            &&& after.sending == before.sending
            &&& after.flushed == before.flushed
            &&& after@ == before@.push(value)
        },
        Step::Flushed => *after == (Ring { flushed: before.len, ..*before }) && after@ == before@,
        Step::Sent(value) => {
            &&& !before.producer_closed
            &&& !before.sending
            &&& !(before.coordinated && before.consumer_closed)
            &&& before.flushed == before@.len()
            &&& after.same_ends(before)
            &&& !after.sending
            &&& after.flushed == after@.len()
            &&& after@ == before@.push(value)
        },
        Step::Begun => {
            &&& before.coordinated
            &&& !before.sending
            &&& !before.consumer_closed
            &&& *after == (Ring { sending: true, ..*before })
            &&& after@ == before@
        },
        Step::Finished(gone) => {
            &&& before.sending
            &&& before.flushed == before@.len()
            &&& after.same_ends(before)
            &&& !after.sending
            &&& if before.consumer_closed {
                discards(before, after, gone)
            } else {
                &&& gone == Seq::<T>::empty()
                &&& *after == (Ring { sending: false, ..*before })
                &&& after@ == before@
            }
        },
        Step::Prefetched => *after == (Ring { window: before.flushed, ..*before }) && after@
            == before@,
        Step::Popped(value) => {
            &&& !before.consumer_closed
            &&& before.window > 0
            &&& after.same_ends(before)
            &&& after.sending == before.sending
            &&& after.flushed == before.flushed - 1
            &&& value == before@[0]
            &&& after@ == before@.drop_first()
        },
        Step::Released => *after == (Ring { consumed: 0, ..*before }) && after@ == before@,
        Step::ProducerClosed => *after == (Ring { producer_closed: true, ..*before }) && after@
            == before@,
        Step::ConsumerClosed(gone) => {
            &&& after.consumer_closed
            &&& after.coordinated == before.coordinated
            &&& after.sending == before.sending
            &&& if !before.consumer_closed && before.coordinated {
                discards(before, after, gone)
            } else {
                &&& gone == Seq::<T>::empty()
                &&& *after == (Ring { consumer_closed: true, ..*before })
                &&& after@ == before@
            }
        },
        Step::Refused => *after == *before,
    }
}

/// A life of a ring from its creation: one state more than steps.
pub open spec fn lived<T>(states: Seq<Ring<T>>, steps: Seq<Step<T>>) -> bool {
    &&& states.len() == steps.len() + 1
    &&& states[0].wf()
    &&& states[0]@ == Seq::<T>::empty()
    &&& !states[0].consumer_closed
    &&& !states[0].sending
    &&& forall|i: int|
        0 <= i < steps.len() ==> leads(&states[i], &states[i + 1], #[trigger] steps[i])
}

/// The values pushed, in order.
pub open spec fn pushed<T>(steps: Seq<Step<T>>) -> Seq<T>
    decreases steps.len(),
{
    if steps.len() == 0 {
        Seq::empty()
    } else {
        match steps.last() {
            Step::Pushed(value) | Step::Sent(value) => pushed(steps.drop_last()).push(value),
            _ => pushed(steps.drop_last()),
        }
    }
}

/// The values popped, in order.
pub open spec fn popped<T>(steps: Seq<Step<T>>) -> Seq<T>
    decreases steps.len(),
{
    if steps.len() == 0 {
        Seq::empty()
    } else {
        match steps.last() {
            Step::Popped(value) => popped(steps.drop_last()).push(value),
            _ => popped(steps.drop_last()),
        }
    }
}

/// The values discarded, in order.
pub open spec fn discarded<T>(steps: Seq<Step<T>>) -> Seq<T>
    decreases steps.len(),
{
    if steps.len() == 0 {
        Seq::empty()
    } else {
        match steps.last() {
            Step::Finished(gone) | Step::ConsumerClosed(gone) => discarded(steps.drop_last())
                + gone,
            _ => discarded(steps.drop_last()),
        }
    }
}

/// What holds at every moment of a life.
proof fn lemma_life<T>(states: Seq<Ring<T>>, steps: Seq<Step<T>>)
    requires
        lived(states, steps),
    ensures
        ({
            let now = states.last();
            &&& now.wf()
            &&& now.coordinated == states[0].coordinated
            &&& popped(steps) + discarded(steps) + now@ == pushed(steps)
            &&& !now.consumer_closed || !now.coordinated ==> discarded(steps) == Seq::<T>::empty()
            &&& now.coordinated && !now.sending ==> now.flushed == now@.len()
            &&& now.coordinated && !now.sending && now.consumer_closed ==> now@.len() == 0
        }),
    decreases steps.len(),
{
    if steps.len() == 0 {
        assert(popped(steps) + discarded(steps) + states.last()@ =~= pushed(steps));
    } else {
        let fewer = steps.drop_last();
        let earlier = states.drop_last();
        assert forall|i: int| 0 <= i < fewer.len() implies leads(
            &earlier[i],
            &earlier[i + 1],
            #[trigger] fewer[i],
        ) by {
            assert(fewer[i] == steps[i]);
        }
        lemma_life(earlier, fewer);
        let step = steps[steps.len() - 1];
        let before = states[steps.len() - 1];
        let now = states[steps.len() as int];
        assert(leads(&before, &now, step));
        assert(before == earlier.last());
        assert(popped(steps) + discarded(steps) + now@ =~= pushed(steps)) by {
            match step {
                Step::Pushed(value) | Step::Sent(value) => {
                    assert(popped(fewer) + discarded(fewer) + before@.push(value) =~= (popped(fewer)
                        + discarded(fewer) + before@).push(value));
                },
                Step::Popped(value) => {
                    assert(discarded(fewer) =~= Seq::<T>::empty());
                    assert(popped(fewer).push(value) + discarded(fewer) + before@.drop_first()
                        =~= popped(fewer) + discarded(fewer) + before@);
                },
                Step::Finished(gone) | Step::ConsumerClosed(gone) => {
                    assert(gone + now@ =~= before@);
                    assert(popped(fewer) + (discarded(fewer) + gone) + now@ =~= popped(fewer)
                        + discarded(fewer) + (gone + now@));
                },
                _ => {},
            }
        }
    }
}

/// Whatever the policy, and however the steps of a send and of the consumer
/// alternate: the values that were popped, then those that were discarded, then
/// the unread ones are the values that were pushed, each once and in order.
pub proof fn law_pushed_values_leave_once<T>(states: Seq<Ring<T>>, steps: Seq<Step<T>>)
    requires
        lived(states, steps),
    ensures
        popped(steps) + discarded(steps) + states.last()@ == pushed(steps),
{
    lemma_life(states, steps);
}

/// In a coordinated ring nothing is left when the consumer has closed and no send
/// is in progress: what was not popped was discarded, once.
pub proof fn law_coordinated_close_leaves_nothing<T>(states: Seq<Ring<T>>, steps: Seq<Step<T>>)
    requires
        lived(states, steps),
        states[0].coordinated,
        states.last().consumer_closed,
        !states.last().sending,
    ensures
        states.last()@ == Seq::<T>::empty(),
        popped(steps) + discarded(steps) == pushed(steps),
{
    lemma_life(states, steps);
    assert(states.last()@ =~= Seq::<T>::empty());
    assert(popped(steps) + discarded(steps) + states.last()@ =~= popped(steps) + discarded(steps));
}

/// In any other ring no value is discarded: what was not popped stays until the
/// ring itself goes with its producer, whether or not the consumer has closed.
pub proof fn law_deferred_close_keeps_values<T>(states: Seq<Ring<T>>, steps: Seq<Step<T>>)
    requires
        lived(states, steps),
        !states[0].coordinated,
    ensures
        discarded(steps) == Seq::<T>::empty(),
        popped(steps) + states.last()@ == pushed(steps),
{
    lemma_life(states, steps);
    assert(popped(steps) + discarded(steps) + states.last()@ =~= popped(steps) + states.last()@);
}

/// While the consumer is there, no value is discarded.
pub proof fn law_open_ring_discards_nothing<T>(states: Seq<Ring<T>>, steps: Seq<Step<T>>)
    requires
        lived(states, steps),
        !states.last().consumer_closed,
    ensures
        discarded(steps) == Seq::<T>::empty(),
        popped(steps) + states.last()@ == pushed(steps),
{
    lemma_life(states, steps);
    assert(popped(steps) + discarded(steps) + states.last()@ =~= popped(steps) + states.last()@);
}

/// A second close of the consumer does nothing.
pub proof fn law_second_close_does_nothing<T>(before: Ring<T>, after: Ring<T>, gone: Seq<T>)
    requires
        leads(&before, &after, Step::ConsumerClosed(gone)),
        before.consumer_closed,
    ensures
        after == before,
        gone == Seq::<T>::empty(),
{
}

} // verus!
