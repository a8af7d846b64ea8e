//! Staged work: values that were drained and wait for a receiver.
use vstd::multiset::Multiset;
use vstd::prelude::*;

use std::collections::VecDeque;

use crate::bags::{
    lemma_bag_concat, lemma_bag_empty, lemma_bag_front, lemma_bag_places, lemma_bag_push,
    lemma_total_empty, lemma_total_members, lemma_total_update, total,
};
use crate::count::{count, lemma_count_update, lemma_count_zero};
use crate::publication::next_generation;

use super::routing::turns;
use super::staging::lemma_values_empty;
use super::work::transfer;
use super::{
    local_bag, local_bags, private_bag, private_bags, taken_places, Channel, ReceiverState,
    PREFETCH_LIMIT,
};

verus! {

/// What a look at the staged work gave.
pub enum WorkPop<T> {
    /// A value.
    Item(T),
    /// No value; the generation tells whether work moved since.
    Empty { generation: usize },
}

/// The places of a table that are taken, in rising order.
pub open spec fn places<A>(table: Seq<Option<A>>) -> Seq<int>
    decreases table.len(),
{
    if table.len() == 0 {
        Seq::empty()
    } else if table.last() is Some {
        places(table.drop_last()).push(table.len() - 1)
    } else {
        places(table.drop_last())
    }
}

/// Every listed place is taken.
pub proof fn lemma_places<A>(table: Seq<Option<A>>)
    ensures
        forall|q: int|
            0 <= q < places(table).len() ==> 0 <= (#[trigger] places(table)[q]) < table.len()
                && table[places(table)[q]] is Some,
        places(table).len() <= table.len(),
    decreases table.len(),
{
    if table.len() > 0 {
        lemma_places(table.drop_last());
        let fewer = places(table.drop_last());
        assert forall|q: int| 0 <= q < places(table).len() implies 0 <= (#[trigger] places(
            table,
        )[q]) < table.len() && table[places(table)[q]] is Some by {
            if q < fewer.len() {
                assert(places(table)[q] == fewer[q]);
                assert(table.drop_last()[fewer[q]] == table[fewer[q]]);
            }
        }
    }
}

/// Every taken place is listed.
pub proof fn lemma_place_of<A>(table: Seq<Option<A>>, k: int) -> (q: int)
    requires
        0 <= k < table.len(),
        table[k] is Some,
    ensures
        0 <= q < places(table).len(),
        places(table)[q] == k,
    decreases table.len(),
{
    if k == table.len() - 1 {
        places(table).len() - 1
    } else {
        lemma_place_of(table.drop_last(), k)
    }
}

/// Which places are listed depends only on which are taken.
pub proof fn lemma_places_same<A>(table: Seq<Option<A>>, other: Seq<Option<A>>)
    requires
        other.len() == table.len(),
        forall|i: int| 0 <= i < table.len() ==> ((#[trigger] other[i]) is Some <==> table[i] is Some),
    ensures
        places(other) == places(table),
    decreases table.len(),
{
    if table.len() > 0 {
        assert forall|i: int| 0 <= i < table.drop_last().len() implies ((
        #[trigger] other.drop_last()[i]) is Some <==> table.drop_last()[i] is Some) by {
            assert(other[i] is Some <==> table[i] is Some);
        }
        lemma_places_same(table.drop_last(), other.drop_last());
        assert(other[table.len() - 1] is Some <==> table[table.len() - 1] is Some);
    }
}

impl<T> Channel<T> {
    /// Everything but the receivers, the staged work and what moves.
    pub open spec fn same_lanes(&self, before: &Channel<T>) -> bool {
        &&& self.lanes == before.lanes
        &&& self.free == before.free
        &&& self.routing == before.routing
        &&& self.free_receivers == before.free_receivers
        &&& self.registered_lanes == before.registered_lanes
        &&& self.live_senders == before.live_senders
        &&& self.live_receivers == before.live_receivers
        &&& self.receiver_alive == before.receiver_alive
        &&& self.data_waiters == before.data_waiters
        &&& self.same_channel(before)
    }

    /// The same receivers are alive.
    pub open spec fn same_receivers(&self, before: &Channel<T>) -> bool {
        &&& self.receivers@.len() == before.receivers@.len()
        &&& forall|i: int|
            0 <= i < before.receivers@.len() ==> ((#[trigger] self.receivers@[i]) is Some
                <==> before.receivers@[i] is Some)
    }

    /// The places of every receiver but `id` stay.
    pub open spec fn others_stay(&self, before: &Channel<T>, id: int) -> bool {
        forall|k: int|
            0 <= k < before.receivers@.len() && k != id && before.receivers@[k] is Some ==> {
                &&& (#[trigger] self.receivers@[k]) is Some
                &&& self.receiver(k).cursors == before.receiver(k).cursors
                &&& self.receiver(k).steal_cursor == before.receiver(k).steal_cursor
            }
    }

    /// One value has left the channel.
    pub open spec fn gave(&self, before: &Channel<T>, value: T) -> bool {
        &&& before.contents().count(value) > 0
        &&& self.contents() == before.contents().remove(value)
    }

    /// Counting makes it easier to see that one value has left.
    pub(super) proof fn lemma_gave(&self, after: &Channel<T>, value: T)
        requires
            forall|v: T| #[trigger]
                after.contents().count(v) + (if v == value {
                    1nat
                } else {
                    0nat
                }) == self.contents().count(v),
        ensures
            after.gave(self, value),
    {
        assert(after.contents().count(value) + 1 == self.contents().count(value));
        assert(after.contents() =~= self.contents().remove(value));
    }

    /// What replacing the state of receiver `id` does to the sums.
    pub(super) proof fn lemma_receiver_replaced(
        &self,
        after: &Channel<T>,
        id: int,
        state: Option<ReceiverState<T>>,
    )
        requires
            0 <= id < self.receivers@.len(),
            after.receivers@ == self.receivers@.update(id, state),
        ensures
            forall|v: T| #[trigger]
                total(private_bags(after.receivers@)).count(v) + private_bag(
                    self.receivers@[id],
                ).count(v) == total(private_bags(self.receivers@)).count(v) + private_bag(
                    state,
                ).count(v),
            forall|t: u64| #[trigger]
                total(local_bags(after.receivers@)).count(t) + local_bag(self.receivers@[id]).count(
                    t,
                ) == total(local_bags(self.receivers@)).count(t) + local_bag(state).count(t),
            taken_places(after.receivers@) == taken_places(self.receivers@).update(
                id,
                state is Some,
            ),
    {
        lemma_total_update(private_bags(self.receivers@), id, private_bag(state));
        assert(private_bags(after.receivers@) =~= private_bags(self.receivers@).update(
            id,
            private_bag(state),
        ));
        lemma_total_update(local_bags(self.receivers@), id, local_bag(state));
        assert(local_bags(after.receivers@) =~= local_bags(self.receivers@).update(
            id,
            local_bag(state),
        ));
        assert(taken_places(after.receivers@) =~= taken_places(self.receivers@).update(
            id,
            state is Some,
        ));
    }

    /// The receiver table stays sound when a receiver's state changes.
    pub(super) proof fn lemma_receiver_updated(&self, after: &Channel<T>, id: int, state: ReceiverState<T>)
        requires
            self.receivers_ok(),
            self.knows(id),
            after.receivers@ == self.receivers@.update(id, Some(state)),
            after.free_receivers == self.free_receivers,
            after.live_receivers == self.live_receivers,
            after.receiver_alive == self.receiver_alive,
            state.wf(),
            state.private@.len() > 0 ==> self.live_receivers == 1,
        ensures
            after.receivers_ok(),
    {
        assert(taken_places(after.receivers@) =~= taken_places(self.receivers@));
        assert forall|i: int|
            0 <= i < after.receivers@.len() && (#[trigger] after.receivers@[i]) is Some implies {
            &&& after.receivers@[i]->Some_0.wf()
            &&& after.receivers@[i]->Some_0.private@.len() > 0 ==> after.live_receivers == 1
        } by {
            if i != id {
                assert(after.receivers@[i] == self.receivers@[i]);
            }
        }
        assert forall|i: int| 0 <= i < after.free_receivers@.len() implies (
        #[trigger] after.free_receivers@[i]) < after.receivers@.len()
            && after.receivers@[after.free_receivers@[i] as int] is None by {
            assert(self.receivers@[self.free_receivers@[i] as int] is None);
        }
    }

    /// The lanes stay found when only receivers and staged work change.
    pub(super) proof fn lemma_found_kept(&self, after: &Channel<T>, hand: Option<int>)
        requires
            self.receiver_alive ==> self.found(hand),
            after.same_lanes(self),
        ensures
            after.receiver_alive ==> after.found(hand),
            self.lanes_ok() ==> after.lanes_ok(),
            self.free_ok() ==> after.free_ok(),
            self.counts_ok() ==> after.counts_ok(),
            self.covered() ==> after.covered(),
    {
        if self.receiver_alive {
            assert forall|slot: int| #[trigger] after.pending(slot) == self.pending(slot) by {}
            assert forall|slot: int| #[trigger] after.routing.slots().contains(slot) implies
                after.pending(slot) && hand != Some(slot) by {
                assert(self.routing.slots().contains(slot));
            }
            assert forall|slot: int| #[trigger] after.pending(slot) implies
                after.routing.slots().contains(slot) || hand == Some(slot) by {
                assert(self.pending(slot));
            }
        }
    }

    /// Every ticket in a queue names a staged value and stands nowhere else.
    pub(super) proof fn lemma_tickets_apart(&self)
        requires
            self.staging_ok(),
        ensures
            forall|i: int, a: int|
                #![trigger self.receiver(i).local@[a]]
                self.knows(i) && 0 <= a < self.receiver(i).local@.len() ==> self.staging.holds(
                    self.receiver(i).local@[a],
                ),
            forall|a: int|
                0 <= a < self.orphaned@.len() ==> self.staging.holds(#[trigger] self.orphaned@[a]),
            forall|i: int, a: int, j: int, b: int|
                #![trigger self.receiver(i).local@[a], self.receiver(j).local@[b]]
                self.knows(i) && self.knows(j) && 0 <= a < self.receiver(i).local@.len() && 0 <= b
                    < self.receiver(j).local@.len() && (i != j || a != b)
                    ==> self.receiver(i).local@[a] != self.receiver(j).local@[b],
            forall|i: int, a: int, b: int|
                #![trigger self.receiver(i).local@[a], self.orphaned@[b]]
                self.knows(i) && 0 <= a < self.receiver(i).local@.len() && 0 <= b
                    < self.orphaned@.len() ==> self.receiver(i).local@[a] != self.orphaned@[b],
            forall|a: int, b: int|
                0 <= a < b < self.orphaned@.len() ==> self.orphaned@[a] != self.orphaned@[b],
    {
        let bags = local_bags(self.receivers@);
        assert forall|i: int, a: int|
            #![trigger self.receiver(i).local@[a]]
            self.knows(i) && 0 <= a < self.receiver(i).local@.len() implies self.staging.holds(
            self.receiver(i).local@[a],
        ) by {
            let t = self.receiver(i).local@[a];
            lemma_bag_places(self.receiver(i).local@, a, a);
            lemma_total_members(bags, i, i, t);
            assert(self.tickets().count(t) > 0);
        }
        assert forall|a: int| 0 <= a < self.orphaned@.len() implies self.staging.holds(
            #[trigger] self.orphaned@[a],
        ) by {
            lemma_bag_places(self.orphaned@, a, a);
            assert(self.tickets().count(self.orphaned@[a]) > 0);
        }
        assert forall|i: int, a: int, j: int, b: int|
            #![trigger self.receiver(i).local@[a], self.receiver(j).local@[b]]
            self.knows(i) && self.knows(j) && 0 <= a < self.receiver(i).local@.len() && 0 <= b
                < self.receiver(j).local@.len() && (i != j || a != b) implies self.receiver(
            i,
        ).local@[a] != self.receiver(j).local@[b] by {
            let t = self.receiver(i).local@[a];
            if t == self.receiver(j).local@[b] {
                lemma_bag_places(self.receiver(i).local@, a, a);
                lemma_bag_places(self.receiver(j).local@, b, b);
                if i == j {
                    lemma_bag_places(self.receiver(i).local@, a, b);
                }
                lemma_total_members(bags, i, j, t);
                assert(self.tickets().count(t) > 1);
            }
        }
        assert forall|i: int, a: int, b: int|
            #![trigger self.receiver(i).local@[a], self.orphaned@[b]]
            self.knows(i) && 0 <= a < self.receiver(i).local@.len() && 0 <= b
                < self.orphaned@.len() implies self.receiver(i).local@[a] != self.orphaned@[b] by {
            let t = self.receiver(i).local@[a];
            if t == self.orphaned@[b] {
                lemma_bag_places(self.receiver(i).local@, a, a);
                lemma_bag_places(self.orphaned@, b, b);
                lemma_total_members(bags, i, i, t);
                assert(self.tickets().count(t) > 1);
            }
        }
        assert forall|a: int, b: int| 0 <= a < b < self.orphaned@.len() implies self.orphaned@[a]
            != self.orphaned@[b] by {
            if self.orphaned@[a] == self.orphaned@[b] {
                lemma_bag_places(self.orphaned@, a, b);
                assert(self.tickets().count(self.orphaned@[a]) > 1);
            }
        }
    }

    /// A receiver whose queues were not touched has staged the same.
    pub(super) proof fn lemma_staged_kept(&self, after: &Channel<T>, ticket: u64, k: int)
        requires
            self.staging_ok(),
            after.staging.same_but(&self.staging, ticket),
            self.knows(k) == after.knows(k),
            self.knows(k) ==> after.receiver(k).private@ == self.receiver(k).private@
                && after.receiver(k).local@ == self.receiver(k).local@,
            self.knows(k) ==> forall|a: int|
                0 <= a < self.receiver(k).local@.len() ==> #[trigger] self.receiver(k).local@[a]
                    != ticket,
        ensures
            after.staged_by(k) == self.staged_by(k),
    {
        if self.knows(k) {
            self.lemma_tickets_apart();
            after.staging.lemma_named(&self.staging, ticket, self.receiver(k).local@);
        }
    }

    /// Take the next value that receiver `id` keeps to itself.
    fn pop_private(&mut self, id: usize) -> (value: Option<T>)
        requires
            old(self).inv(None),
            old(self).knows(id as int),
        ensures
            final(self).inv(None),
            final(self).same_lanes(old(self)),
            final(self).same_receivers(old(self)),
            final(self).receiver(id as int).cursors == old(self).receiver(id as int).cursors,
            final(self).receiver(id as int).steal_cursor == old(self).receiver(
                id as int,
            ).steal_cursor,
            final(self).others_stay(old(self), id as int),
            final(self).staging == old(self).staging,
            final(self).orphaned == old(self).orphaned,
            final(self).publications == old(self).publications,
            ({
                let kept = old(self).receiver(id as int).private@;
                match value {
                    None => kept.len() == 0 && *final(self) == *old(self),
                    Some(front) => {
                        &&& kept.len() > 0
                        &&& front == kept[0]
                        &&& final(self).staged_by(id as int) == old(self).staged_by(
                            id as int,
                        ).drop_first()
                        &&& final(self).gave(old(self), front)
                    },
                }
            }),
            final(self).same_staged_but(old(self), id as int, id as int),
            final(self).left_behind() == old(self).left_behind(),
    {
        let ghost before = *self;
        assert(self.receivers@[id as int] is Some);
        if self.receivers[id].as_ref().unwrap().private.len() == 0 {
            return None;
        }
        let state = self.receivers[id].as_mut().unwrap();
        let value = state.private.pop_front();
        proof {
            let i = id as int;
            let old_state = before.receiver(i);
            let new_state = self.receiver(i);
            let front = value->Some_0;
            assert(self.receivers@ =~= before.receivers@.update(i, Some(new_state)));
            before.lemma_receiver_replaced(self, i, Some(new_state));
            lemma_bag_front(old_state.private@);
            assert(new_state.private@ =~= old_state.private@.drop_first());
            assert forall|v: T| #[trigger] self.contents().count(v) + (if v == front {
                1nat
            } else {
                0nat
            }) == before.contents().count(v) by {
                assert(total(private_bags(self.receivers@)).count(v) + private_bag(
                    before.receivers@[i],
                ).count(v) == total(private_bags(before.receivers@)).count(v) + private_bag(
                    Some(new_state),
                ).count(v));
            }
            before.lemma_gave(self, front);
            before.lemma_receiver_updated(self, i, new_state);
            assert forall|t: u64| #[trigger] self.tickets().count(t) == before.tickets().count(
                t,
            ) by {
                assert(total(local_bags(self.receivers@)).count(t) + local_bag(
                    before.receivers@[i],
                ).count(t) == total(local_bags(before.receivers@)).count(t) + local_bag(
                    Some(new_state),
                ).count(t));
            }
            before.lemma_found_kept(self, None);
            assert(self.staged_by(i) =~= before.staged_by(i).drop_first());
            assert forall|k: int| k != i implies #[trigger] self.staged_by(k) == before.staged_by(
                k,
            ) by {}
        }
        value
    }
}

impl<T> Channel<T> {
    /// Redeeming a ticket that was taken from a queue.
    proof fn lemma_redeemed(&self, after: &Channel<T>, ticket: u64, value: T)
        requires
            self.staging_ok(),
            after.lanes == self.lanes,
            after.staging.wf(),
            after.orphaned.wf(),
            after.orphaned.limit() == None::<nat>,
            forall|v: T| #[trigger]
                total(private_bags(after.receivers@)).count(v) == total(
                    private_bags(self.receivers@),
                ).count(v),
            forall|t: u64| #[trigger]
                after.tickets().count(t) + (if t == ticket {
                    1nat
                } else {
                    0nat
                }) == self.tickets().count(t),
            !after.staging.holds(ticket),
            after.staging.same_but(&self.staging, ticket),
            self.staging.values().contains(value),
            after.staging.values() == self.staging.values().remove(value),
        ensures
            after.staging_ok(),
            after.gave(self, value),
    {
        assert forall|t: u64| #[trigger] after.tickets().count(t) == if after.staging.holds(t) {
            1nat
        } else {
            0nat
        } by {
            assert(self.tickets().count(t) == if self.staging.holds(t) {
                1nat
            } else {
                0nat
            });
        }
        assert forall|v: T| #[trigger] after.contents().count(v) + (if v == value {
            1nat
        } else {
            0nat
        }) == self.contents().count(v) by {
            assert(total(private_bags(after.receivers@)).count(v) == total(
                private_bags(self.receivers@),
            ).count(v));
        }
        self.lemma_gave(after, value);
    }

    /// Take the next value that receiver `id` has staged.
    fn pop_local(&mut self, id: usize) -> (value: Option<T>)
        requires
            old(self).inv(None),
            old(self).knows(id as int),
            old(self).receiver(id as int).private@.len() == 0,
        ensures
            final(self).inv(None),
            final(self).same_lanes(old(self)),
            final(self).same_receivers(old(self)),
            final(self).receiver(id as int).cursors == old(self).receiver(id as int).cursors,
            final(self).receiver(id as int).steal_cursor == old(self).receiver(
                id as int,
            ).steal_cursor,
            final(self).others_stay(old(self), id as int),
            final(self).publications == old(self).publications,
            ({
                let staged = old(self).receiver(id as int).local@;
                match value {
                    None => staged.len() == 0 && *final(self) == *old(self),
                    Some(front) => {
                        &&& staged.len() > 0
                        &&& front == old(self).staging.value(staged[0])
                        &&& final(self).staged_by(id as int) == old(self).staged_by(
                            id as int,
                        ).drop_first()
                        &&& final(self).gave(old(self), front)
                    },
                }
            }),
            final(self).same_staged_but(old(self), id as int, id as int),
            final(self).left_behind() == old(self).left_behind(),
    {
        let ghost before = *self;
        let ghost i = id as int;
        assert(self.receivers@[i] is Some);
        if self.receivers[id].as_ref().unwrap().local.len() == 0 {
            return None;
        }
        let state = self.receivers[id].as_mut().unwrap();
        let ticket: u64 = state.local.pop().unwrap();
        let ghost popped = *self;
        proof {
            let old_state = before.receiver(i);
            let new_state = self.receiver(i);
            assert(self.receivers@ =~= before.receivers@.update(i, Some(new_state)));
            before.lemma_receiver_replaced(self, i, Some(new_state));
            lemma_bag_front(old_state.local@);
            before.lemma_receiver_updated(self, i, new_state);
            assert forall|t: u64| #[trigger] self.tickets().count(t) + (if t == ticket {
                1nat
            } else {
                0nat
            }) == before.tickets().count(t) by {
                assert(total(local_bags(self.receivers@)).count(t) + local_bag(
                    before.receivers@[i],
                ).count(t) == total(local_bags(before.receivers@)).count(t) + local_bag(
                    Some(new_state),
                ).count(t));
            }
            assert forall|v: T| #[trigger]
                total(private_bags(self.receivers@)).count(v) == total(
                    private_bags(before.receivers@),
                ).count(v) by {
                assert(total(private_bags(self.receivers@)).count(v) + private_bag(
                    before.receivers@[i],
                ).count(v) == total(private_bags(before.receivers@)).count(v) + private_bag(
                    Some(new_state),
                ).count(v));
            }
            assert(before.tickets().count(ticket) > 0) by {
                assert(self.tickets().count(ticket) + 1 == before.tickets().count(ticket));
            }
        }
        let value = self.staging.take(ticket);
        proof {
            assert forall|t: u64| #[trigger] self.tickets().count(t) + (if t == ticket {
                1nat
            } else {
                0nat
            }) == before.tickets().count(t) by {
                assert(popped.tickets().count(t) == self.tickets().count(t));
            }
            before.lemma_redeemed(self, ticket, value);
            before.lemma_found_kept(self, None);
            before.lemma_tickets_apart();
            assert(before.receiver(i).local@[0] == ticket);
            let rest = self.receiver(i).local@;
            assert forall|a: int| 0 <= a < rest.len() implies (#[trigger] rest[a]) != ticket
                && before.staging.holds(rest[a]) by {
                assert(rest[a] == before.receiver(i).local@[a + 1]);
            }
            self.staging.lemma_named(&before.staging, ticket, rest);
            assert(self.staged_by(i) =~= before.staged_by(i).drop_first());
            assert forall|k: int| k != i implies #[trigger] self.staged_by(k) == before.staged_by(
                k,
            ) by {
                before.lemma_staged_kept(self, ticket, k);
            }
            self.staging.lemma_named(&before.staging, ticket, before.orphaned@);
        }
        Some(value)
    }

    /// Take the next value that a dropped receiver left behind.
    pub(super) fn pop_orphaned(&mut self) -> (value: Option<T>)
        requires
            old(self).inv(None),
        ensures
            final(self).inv(None),
            final(self).same_lanes(old(self)),
            final(self).receivers == old(self).receivers,
            final(self).publications == old(self).publications,
            match value {
                None => old(self).orphaned@.len() == 0 && *final(self) == *old(self),
                Some(front) => {
                    &&& old(self).orphaned@.len() > 0
                    &&& front == old(self).left_behind()[0]
                    &&& final(self).orphaned@ == old(self).orphaned@.drop_first()
                    &&& final(self).left_behind() == old(self).left_behind().drop_first()
                    &&& final(self).gave(old(self), front)
                },
            },
            final(self).same_staged_but(old(self), -1, -1),
    {
        let ghost before = *self;
        if self.orphaned.len() == 0 {
            return None;
        }
        let ticket: u64 = self.orphaned.pop().unwrap();
        let ghost popped = *self;
        proof {
            lemma_bag_front(before.orphaned@);
            assert forall|t: u64| #[trigger] self.tickets().count(t) + (if t == ticket {
                1nat
            } else {
                0nat
            }) == before.tickets().count(t) by {
                assert(before.orphaned@.to_multiset().count(t)
                    == self.orphaned@.to_multiset().count(t) + if t == ticket {
                    1nat
                } else {
                    0nat
                });
            }
            assert(self.tickets().count(ticket) + 1 == before.tickets().count(ticket));
        }
        let value = self.staging.take(ticket);
        proof {
            assert forall|t: u64| #[trigger] self.tickets().count(t) + (if t == ticket {
                1nat
            } else {
                0nat
            }) == before.tickets().count(t) by {
                assert(popped.tickets().count(t) == self.tickets().count(t));
            }
            before.lemma_redeemed(self, ticket, value);
            before.lemma_found_kept(self, None);
            before.lemma_tickets_apart();
            assert(before.orphaned@[0] == ticket);
            let rest = self.orphaned@;
            assert forall|a: int| 0 <= a < rest.len() implies (#[trigger] rest[a]) != ticket
                && before.staging.holds(rest[a]) by {
                assert(rest[a] == before.orphaned@[a + 1]);
            }
            self.staging.lemma_named(&before.staging, ticket, rest);
            assert(self.left_behind() =~= before.left_behind().drop_first());
            assert forall|k: int| #[trigger] self.staged_by(k) == before.staged_by(k) by {
                before.lemma_staged_kept(self, ticket, k);
            }
        }
        Some(value)
    }

    /// What a steal does: the value in front of the victim's work is taken, and
    /// part of the rest moves to the thief.
    pub open spec fn stole(&self, before: &Channel<T>, id: int, victim: int, value: T) -> bool {
        let work = before.staged_by(victim);
        let moved = transfer(work.len() - 1);
        &&& victim != id
        &&& work.len() > 0
        &&& value == work[0]
        &&& self.staged_by(victim) == work.skip(1 + moved)
        &&& self.staged_by(id) == work.subrange(1, 1 + moved)
        &&& self.same_staged_but(before, id, victim)
    }

    /// Steal a batch from receiver `victim` and take its first value.
    fn steal(&mut self, id: usize, victim: usize) -> (value: T)
        requires
            old(self).inv(None),
            old(self).knows(id as int),
            old(self).knows(victim as int),
            id != victim,
            old(self).receiver(id as int).private@.len() == 0,
            old(self).receiver(id as int).local@.len() == 0,
            old(self).receiver(victim as int).local@.len() > 0,
        ensures
            final(self).inv(None),
            final(self).same_lanes(old(self)),
            final(self).same_receivers(old(self)),
            final(self).receiver(id as int).cursors == old(self).receiver(id as int).cursors,
            final(self).others_stay(old(self), id as int),
            final(self).orphaned == old(self).orphaned,
            final(self).publications == old(self).publications,
            final(self).stole(old(self), id as int, victim as int, value),
            final(self).left_behind() == old(self).left_behind(),
            final(self).gave(old(self), value),
    {
        let ghost before = *self;
        let ghost i = id as int;
        let ghost j = victim as int;
        let ghost work = self.receiver(j).local@;
        let ghost moved = transfer(work.len() - 1);
        assert(self.receivers@[i] is Some && self.receivers@[j] is Some);
        let mut mine = self.receivers[id].take().unwrap();
        let other = self.receivers[victim].as_mut().unwrap();
        let stolen = other.local.steal_batch_into(&mut mine.local);
        let ticket: u64 = stolen.unwrap();
        self.receivers.set(id, Some(mine));
        let ghost popped = *self;
        proof {
            let other_state = self.receiver(j);
            let my_state = self.receiver(i);
            let first = before.receivers@.update(j, Some(other_state));
            assert(self.receivers@ =~= first.update(i, Some(my_state)));
            self.lemma_two_replaced(&before, i, j);
            assert(Seq::<u64>::empty() + work.subrange(1, 1 + moved) =~= work.subrange(
                1,
                1 + moved,
            ));
            assert(my_state.local@ =~= work.subrange(1, 1 + moved));
            assert(work =~= seq![ticket] + work.subrange(1, 1 + moved) + work.skip(1 + moved));
            lemma_bag_concat(seq![ticket] + work.subrange(1, 1 + moved), work.skip(1 + moved));
            lemma_bag_concat(seq![ticket], work.subrange(1, 1 + moved));
            lemma_bag_push(Seq::<u64>::empty(), ticket);
            lemma_bag_empty::<u64>();
            assert(Seq::<u64>::empty().push(ticket) =~= seq![ticket]);
            assert(before.receiver(i).local@ =~= Seq::<u64>::empty());
            assert forall|t: u64| #[trigger] self.tickets().count(t) + (if t == ticket {
                1nat
            } else {
                0nat
            }) == before.tickets().count(t) by {
                let tag = if t == ticket {
                    1nat
                } else {
                    0nat
                };
                assert((seq![ticket] + work.subrange(1, 1 + moved) + work.skip(
                    1 + moved,
                )).to_multiset().count(t) == (seq![ticket] + work.subrange(
                    1,
                    1 + moved,
                )).to_multiset().count(t) + work.skip(1 + moved).to_multiset().count(t));
                assert((seq![ticket] + work.subrange(1, 1 + moved)).to_multiset().count(t)
                    == seq![ticket].to_multiset().count(t) + work.subrange(
                    1,
                    1 + moved,
                ).to_multiset().count(t));
                assert(Seq::<u64>::empty().push(ticket).to_multiset().count(t) == Seq::<
                    u64,
                >::empty().to_multiset().count(t) + tag);
                assert(total(local_bags(self.receivers@)).count(t) + local_bag(
                    before.receivers@[i],
                ).count(t) + local_bag(before.receivers@[j]).count(t) == total(
                    local_bags(before.receivers@),
                ).count(t) + local_bag(self.receivers@[i]).count(t) + local_bag(
                    self.receivers@[j],
                ).count(t));
            }
            assert(self.tickets().count(ticket) + 1 == before.tickets().count(ticket));
            assert forall|v: T| #[trigger]
                total(private_bags(self.receivers@)).count(v) == total(
                    private_bags(before.receivers@),
                ).count(v) by {
                assert(total(private_bags(self.receivers@)).count(v) + private_bag(
                    before.receivers@[i],
                ).count(v) + private_bag(before.receivers@[j]).count(v) == total(
                    private_bags(before.receivers@),
                ).count(v) + private_bag(self.receivers@[i]).count(v) + private_bag(
                    self.receivers@[j],
                ).count(v));
            }
        }
        let value = self.staging.take(ticket);
        proof {
            assert forall|t: u64| #[trigger] self.tickets().count(t) + (if t == ticket {
                1nat
            } else {
                0nat
            }) == before.tickets().count(t) by {
                assert(popped.tickets().count(t) == self.tickets().count(t));
            }
            before.lemma_redeemed(self, ticket, value);
            before.lemma_found_kept(self, None);
            before.lemma_nothing_private(i, j);
            before.lemma_tickets_apart();
            assert(before.receiver(j).local@[0] == ticket);
            let mine = self.receiver(i).local@;
            let theirs = self.receiver(j).local@;
            assert forall|a: int| 0 <= a < mine.len() implies (#[trigger] mine[a]) != ticket
                && before.staging.holds(mine[a]) by {
                assert(mine[a] == before.receiver(j).local@[a + 1]);
            }
            assert forall|a: int| 0 <= a < theirs.len() implies (#[trigger] theirs[a]) != ticket
                && before.staging.holds(theirs[a]) by {
                assert(theirs[a] == before.receiver(j).local@[a + 1 + moved]);
            }
            self.staging.lemma_named(&before.staging, ticket, mine);
            self.staging.lemma_named(&before.staging, ticket, theirs);
            assert(self.staged_by(i) =~= before.staged_by(j).subrange(1, 1 + moved));
            assert(self.staged_by(j) =~= before.staged_by(j).skip(1 + moved));
            assert forall|k: int| k != i && k != j implies #[trigger] self.staged_by(k)
                == before.staged_by(k) by {
                before.lemma_staged_kept(self, ticket, k);
            }
            self.staging.lemma_named(&before.staging, ticket, before.orphaned@);
        }
        value
    }

    /// What replacing the states of two receivers does to the sums.
    proof fn lemma_two_replaced(&self, before: &Channel<T>, i: int, j: int)
        requires
            before.receivers_ok(),
            i != j,
            before.knows(i),
            before.knows(j),
            self.knows(i),
            self.knows(j),
            self.receivers@ == before.receivers@.update(j, self.receivers@[j]).update(
                i,
                self.receivers@[i],
            ),
            self.free_receivers == before.free_receivers,
            self.live_receivers == before.live_receivers,
            self.receiver_alive == before.receiver_alive,
            self.receiver(i).wf(),
            self.receiver(j).wf(),
            self.receiver(i).private@.len() > 0 ==> self.live_receivers == 1,
            self.receiver(j).private@.len() > 0 ==> self.live_receivers == 1,
        ensures
            self.receivers_ok(),
            self.same_receivers(before),
            forall|v: T| #[trigger]
                total(private_bags(self.receivers@)).count(v) + private_bag(
                    before.receivers@[i],
                ).count(v) + private_bag(before.receivers@[j]).count(v) == total(
                    private_bags(before.receivers@),
                ).count(v) + private_bag(self.receivers@[i]).count(v) + private_bag(
                    self.receivers@[j],
                ).count(v),
            forall|t: u64| #[trigger]
                total(local_bags(self.receivers@)).count(t) + local_bag(
                    before.receivers@[i],
                ).count(t) + local_bag(before.receivers@[j]).count(t) == total(
                    local_bags(before.receivers@),
                ).count(t) + local_bag(self.receivers@[i]).count(t) + local_bag(
                    self.receivers@[j],
                ).count(t),
    {
        let first = before.receivers@.update(j, self.receivers@[j]);
        let pb = private_bags(before.receivers@);
        let lb = local_bags(before.receivers@);
        lemma_total_update(pb, j, private_bag(self.receivers@[j]));
        lemma_total_update(lb, j, local_bag(self.receivers@[j]));
        assert(private_bags(first) =~= pb.update(j, private_bag(self.receivers@[j])));
        assert(local_bags(first) =~= lb.update(j, local_bag(self.receivers@[j])));
        lemma_total_update(private_bags(first), i, private_bag(self.receivers@[i]));
        lemma_total_update(local_bags(first), i, local_bag(self.receivers@[i]));
        assert(private_bags(self.receivers@) =~= private_bags(first).update(
            i,
            private_bag(self.receivers@[i]),
        ));
        assert(local_bags(self.receivers@) =~= local_bags(first).update(
            i,
            local_bag(self.receivers@[i]),
        ));
        assert forall|v: T| #[trigger]
            total(private_bags(self.receivers@)).count(v) + private_bag(
                before.receivers@[i],
            ).count(v) + private_bag(before.receivers@[j]).count(v) == total(
                private_bags(before.receivers@),
            ).count(v) + private_bag(self.receivers@[i]).count(v) + private_bag(
                self.receivers@[j],
            ).count(v) by {
            assert(total(private_bags(first)).count(v) + pb[j].count(v) == total(pb).count(v)
                + private_bag(self.receivers@[j]).count(v));
            assert(total(private_bags(self.receivers@)).count(v) + private_bags(first)[i].count(v)
                == total(private_bags(first)).count(v) + private_bag(self.receivers@[i]).count(v));
        }
        assert forall|t: u64| #[trigger]
            total(local_bags(self.receivers@)).count(t) + local_bag(before.receivers@[i]).count(t)
                + local_bag(before.receivers@[j]).count(t) == total(
                local_bags(before.receivers@),
            ).count(t) + local_bag(self.receivers@[i]).count(t) + local_bag(
                self.receivers@[j],
            ).count(t) by {
            assert(total(local_bags(first)).count(t) + lb[j].count(t) == total(lb).count(t)
                + local_bag(self.receivers@[j]).count(t));
            assert(total(local_bags(self.receivers@)).count(t) + local_bags(first)[i].count(t)
                == total(local_bags(first)).count(t) + local_bag(self.receivers@[i]).count(t));
        }
        assert(taken_places(self.receivers@) =~= taken_places(before.receivers@));
        assert forall|k: int|
            0 <= k < self.receivers@.len() && (#[trigger] self.receivers@[k]) is Some implies {
            &&& self.receivers@[k]->Some_0.wf()
            &&& self.receivers@[k]->Some_0.private@.len() > 0 ==> self.live_receivers == 1
        } by {
            if k != i && k != j {
                assert(self.receivers@[k] == before.receivers@[k]);
            }
        }
        assert forall|k: int| 0 <= k < self.free_receivers@.len() implies (
        #[trigger] self.free_receivers@[k]) < self.receivers@.len()
            && self.receivers@[self.free_receivers@[k] as int] is None by {
            assert(before.receivers@[before.free_receivers@[k] as int] is None);
        }
    }
}

impl<T> Channel<T> {
    /// Whether receiver `id` has staged nothing and nothing was left behind.
    pub open spec fn nothing_own(&self, id: int) -> bool {
        self.staged_by(id).len() == 0 && self.left_behind().len() == 0
    }

    /// Whether no value is staged.
    pub open spec fn unstaged(&self) -> bool {
        &&& total(private_bags(self.receivers@)) == Multiset::<T>::empty()
        &&& self.staging.values() == Multiset::<T>::empty()
    }

    /// Whether a lane may be found.
    pub open spec fn lane_in_sight(&self) -> bool {
        self.routing.in_sight()
    }

    /// With two receivers alive nothing is kept private.
    pub(super) proof fn lemma_nothing_private(&self, id: int, other: int)
        requires
            self.receivers_ok(),
            self.knows(id),
            self.knows(other),
            id != other,
        ensures
            self.receiver(other).private@.len() == 0,
            self.live_receivers >= 2,
    {
        let places = taken_places(self.receivers@);
        lemma_count_update(places, id, false);
        let rest = places.update(id, false);
        lemma_count_zero(rest);
        assert(rest[other]);
        assert(self.receivers@[other] is Some);
    }

    /// Empty queues mean that nothing is staged.
    pub(super) proof fn lemma_unstaged(&self, id: int)
        requires
            self.receivers_ok(),
            self.staging_ok(),
            self.knows(id),
            self.receiver(id).private@.len() == 0,
            self.orphaned@.len() == 0,
            forall|k: int|
                0 <= k < self.receivers@.len() && (#[trigger] self.receivers@[k]) is Some
                    ==> self.receivers@[k]->Some_0.local@.len() == 0,
        ensures
            self.unstaged(),
    {
        lemma_bag_empty::<u64>();
        lemma_bag_empty::<T>();
        assert(self.orphaned@ =~= Seq::<u64>::empty());
        assert forall|k: int| 0 <= k < local_bags(self.receivers@).len() implies #[trigger] local_bags(
            self.receivers@,
        )[k] == Multiset::<u64>::empty() by {
            if self.receivers@[k] is Some {
                assert(self.receivers@[k]->Some_0.local@ =~= Seq::<u64>::empty());
            }
        }
        lemma_total_empty(local_bags(self.receivers@));
        assert forall|k: int|
            0 <= k < private_bags(self.receivers@).len() implies #[trigger] private_bags(
            self.receivers@,
        )[k] == Multiset::<T>::empty() by {
            if self.receivers@[k] is Some {
                if k != id {
                    self.lemma_nothing_private(id, k);
                }
                assert(self.receiver(k).private@ =~= Seq::<T>::empty());
            }
        }
        lemma_total_empty(private_bags(self.receivers@));
        lemma_values_empty(self.staging.places@);
        assert forall|k: int| 0 <= k < self.staging.places@.len() implies (
        #[trigger] self.staging.places@[k]) is None by {
            if self.staging.places@[k] is Some {
                assert(self.staging.places.len() == self.staging.places@.len());
                assert(self.staging.holds(k as u64));
                assert(self.tickets().count(k as u64) == 1);
            }
        }
        assert(self.staging.values() =~= Multiset::<T>::empty());
    }

    /// What moves does not matter to the rest of the invariant.
    pub(super) proof fn lemma_published(&self, after: &Channel<T>, hand: Option<int>)
        requires
            self.inv(hand),
            *after == (Channel { publications: after.publications, ..*self }),
        ensures
            after.inv(hand),
            after.contents() == self.contents(),
            after.upkeep() == self.upkeep(),
    {
        self.lemma_found_kept(after, hand);
        assert(after.tickets() == self.tickets());
        assert forall|t: u64| #[trigger] after.tickets().count(t) == if after.staging.holds(t) {
            1nat
        } else {
            0nat
        } by {
            assert(self.tickets().count(t) == if self.staging.holds(t) {
                1nat
            } else {
                0nat
            });
        }
    }

    /// Set the place where receiver `id` next looks for work to steal.
    fn set_steal_cursor(&mut self, id: usize, cursor: usize)
        requires
            old(self).inv(None),
            old(self).knows(id as int),
        ensures
            final(self).inv(None),
            final(self).same_lanes(old(self)),
            final(self).same_receivers(old(self)),
            final(self).staging == old(self).staging,
            final(self).orphaned == old(self).orphaned,
            final(self).publications == old(self).publications,
            final(self).contents() == old(self).contents(),
            final(self).same_staged(old(self)),
            final(self).receiver(id as int) == (ReceiverState {
                steal_cursor: cursor,
                ..old(self).receiver(id as int)
            }),
            forall|k: int|
                0 <= k < old(self).receivers@.len() && k != id ==> #[trigger] final(
                    self).receivers@[k] == old(self).receivers@[k],
    {
        let ghost before = *self;
        assert(self.receivers@[id as int] is Some);
        let state = self.receivers[id].as_mut().unwrap();
        state.steal_cursor = cursor;
        proof {
            let i = id as int;
            assert(self.receivers@ =~= before.receivers@.update(i, Some(self.receiver(i))));
            before.lemma_receiver_updated(self, i, self.receiver(i));
            assert(private_bags(self.receivers@) =~= private_bags(before.receivers@));
            assert(local_bags(self.receivers@) =~= local_bags(before.receivers@));
            assert(self.contents() == before.contents());
            assert(self.tickets() == before.tickets());
            before.lemma_found_kept(self, None);
            assert forall|k: int| #[trigger] self.staged_by(k) == before.staged_by(k) by {}
        }
    }

    /// The receivers that are alive, in the order of their places.
    pub open spec fn alive(&self) -> Seq<int> {
        places(self.receivers@)
    }

    /// Whether receiver `id` steals from the one at position `p` among those
    /// alive: it is the first one with staged work after the thief's cursor.
    pub open spec fn is_victim(&self, id: int, p: int) -> bool {
        let n = self.alive().len() as int;
        let start = self.receiver(id).steal_cursor as int % n;
        &&& 0 <= p < n
        &&& forall|q: int|
            #![trigger self.alive()[q]]
            0 <= q < n && self.alive()[q] != id && turns(start, q, n) < turns(start, p, n)
                ==> self.staged_by(self.alive()[q]).len() == 0
    }

    /// Whether receiver `id` stole `value`. The next search starts behind the
    /// victim.
    pub open spec fn stole_from(&self, before: &Channel<T>, id: int, p: int, value: T) -> bool {
        &&& before.is_victim(id, p)
        &&& self.stole(before, id, before.alive()[p], value)
        &&& self.receiver(id).steal_cursor == p + 1
    }

    /// Where a search for work that began at `cursor` goes on after it found none.
    pub open spec fn past_search(&self, cursor: usize) -> int {
        next_generation(cursor) as int % self.alive().len() as int
    }

    /// The same receivers are alive in the same order.
    pub(super) proof fn lemma_alive_same(&self, after: &Channel<T>)
        requires
            after.same_receivers(self),
        ensures
            after.alive() == self.alive(),
    {
        lemma_places_same(self.receivers@, after.receivers@);
    }

    /// What taking a staged value does. Receiver `id` takes its own first, then
    /// what was left behind, then it steals.
    pub open spec fn took_staged(&self, before: &Channel<T>, id: int, value: T) -> bool {
        let own = before.staged_by(id);
        let left = before.left_behind();
        if own.len() > 0 {
            &&& value == own[0]
            &&& self.staged_by(id) == own.drop_first()
            &&& self.same_staged_but(before, id, id)
            &&& self.left_behind() == left
        } else if left.len() > 0 {
            &&& value == left[0]
            &&& self.same_staged_but(before, -1, -1)
            &&& self.left_behind() == left.drop_first()
        } else {
            &&& self.left_behind() == left
            &&& exists|p: int| #[trigger] self.stole_from(before, id, p, value)
        }
    }

    /// Take a staged value: receiver `id`'s own, one left behind, or, when no
    /// lane is in sight, one of a competitor.
    pub(super) fn pop_work(&mut self, id: usize) -> (work: WorkPop<T>)
        requires
            old(self).wf(),
            old(self).knows(id as int),
        ensures
            final(self).wf(),
            final(self).same_lanes(old(self)),
            final(self).same_receivers(old(self)),
            final(self).receiver(id as int).cursors == old(self).receiver(id as int).cursors,
            final(self).others_stay(old(self), id as int),
            match work {
                WorkPop::Item(value) => {
                    &&& final(self).gave(old(self), value)
                    &&& final(self).took_staged(old(self), id as int, value)
                    &&& old(self).nothing_own(id as int) ==> !old(self).lane_in_sight()
                    &&& final(self).publications == if old(self).nothing_own(id as int) {
                        old(self).publications.after_change()
                    } else {
                        old(self).publications
                    }
                    &&& !old(self).nothing_own(id as int) ==> final(self).receiver(
                        id as int,
                    ).steal_cursor == old(self).receiver(id as int).steal_cursor
                },
                WorkPop::Empty { generation } => {
                    &&& final(self).contents() == old(self).contents()
                    &&& final(self).publications == old(self).publications
                    &&& generation == final(self).publications.generation
                    &&& old(self).nothing_own(id as int)
                    &&& final(self).same_staged(old(self))
                    &&& final(self).receiver(id as int).private@.len() == 0
                    &&& final(self).receiver(id as int).local@.len() == 0
                    &&& final(self).lane_in_sight() || final(self).unstaged()
                    &&& final(self).lane_in_sight() ==> *final(self) == *old(self)
                    &&& !final(self).lane_in_sight() ==> final(self).receiver(
                        id as int,
                    ).steal_cursor == old(self).past_search(
                        old(self).receiver(id as int).steal_cursor,
                    )
                },
            },
    {
        if let Some(value) = self.pop_private(id) {
            return WorkPop::Item(value);
        }
        if let Some(value) = self.pop_local(id) {
            return WorkPop::Item(value);
        }
        let generation: usize = self.publications.snapshot();
        if let Some(value) = self.pop_orphaned() {
            return WorkPop::Item(value);
        }
        if self.routing.has_ready() {
            return WorkPop::Empty { generation };
        }
        let ghost before = *self;
        let ids: Vec<usize> = self.alive_receivers();
        let len: usize = ids.len();
        let ghost alive = self.alive();
        assert(self.receivers@[id as int] is Some);
        proof {
            lemma_places(self.receivers@);
            let q = lemma_place_of(self.receivers@, id as int);
            assert(ids@[q] == id);
        }
        let cursor: usize = self.receivers[id].as_ref().unwrap().steal_cursor;
        let start: usize = super::routing::wrap(cursor, len);
        let mut offset: usize = 0;
        while offset < len
            invariant
                *self == before,
                before.wf(),
                before.knows(id as int),
                before == *old(self),
                alive == before.alive(),
                len == alive.len(),
                ids@.len() == len,
                forall|q: int| 0 <= q < len ==> (#[trigger] ids@[q]) == alive[q],
                start < len,
                start == before.receiver(id as int).steal_cursor as int % len as int,
                offset <= len,
                !before.lane_in_sight(),
                before.receiver(id as int).private@.len() == 0,
                before.receiver(id as int).local@.len() == 0,
                before.nothing_own(id as int),
                forall|q: int|
                    0 <= q < len && turns(start as int, q, len as int) < offset
                        ==> before.receiver(#[trigger] alive[q]).local@.len() == 0,
            decreases len - offset,
        {
            let position: usize = super::routing::step(start, offset, len);
            let index: usize = ids[position];
            proof {
                lemma_places(before.receivers@);
                assert(alive[position as int] == index);
            }
            if index != id {
                assert(before.receivers@[index as int] is Some);
                let staged: usize = self.receivers[index].as_ref().unwrap().local.len();
                if staged > 0 {
                    self.publications.begin();
                    proof {
                        before.lemma_published(self, None);
                    }
                    let ghost begun = *self;
                    let value = self.steal(id, index);
                    let ghost stolen = *self;
                    self.publications.finish();
                    proof {
                        stolen.lemma_published(self, None);
                    }
                    self.set_steal_cursor(id, position + 1);
                    proof {
                        let i = id as int;
                        let p = position as int;
                        let victim = index as int;
                        assert forall|k: int| #[trigger] begun.staged_by(k) == before.staged_by(
                            k,
                        ) by {}
                        assert forall|k: int| #[trigger] self.staged_by(k) == stolen.staged_by(
                            k,
                        ) by {}
                        assert(self.stole(&before, i, victim, value));
                        assert(before.is_victim(i, p)) by {
                            assert forall|q: int|
                                #![trigger before.alive()[q]]
                                0 <= q < len && before.alive()[q] != i && turns(
                                    start as int,
                                    q,
                                    len as int,
                                ) < turns(start as int, p, len as int) implies before.staged_by(
                                before.alive()[q],
                            ).len() == 0 by {
                                assert(before.receiver(alive[q]).local@.len() == 0);
                                before.lemma_nothing_private(i, alive[q]);
                            }
                        }
                        assert(self.stole_from(&before, i, p, value));
                    }
                    return WorkPop::Item(value);
                }
            }
            offset += 1;
        }
        let following: usize = super::routing::wrap(cursor.wrapping_add(1), len);
        proof {
            assert forall|k: int|
                0 <= k < before.receivers@.len() && (#[trigger] before.receivers@[k])
                    is Some implies before.receivers@[k]->Some_0.local@.len() == 0 by {
                let q = lemma_place_of(before.receivers@, k);
                assert(before.receiver(alive[q]).local@.len() == 0);
            }
            before.lemma_unstaged(id as int);
        }
        self.set_steal_cursor(id, following);
        proof {
            assert(private_bags(self.receivers@) =~= private_bags(before.receivers@));
        }
        WorkPop::Empty { generation }
    }

    /// The receivers that are alive, in the order of their places.
    fn alive_receivers(&self) -> (ids: Vec<usize>)
        ensures
            ids@.len() == self.alive().len(),
            forall|q: int| 0 <= q < ids@.len() ==> (#[trigger] ids@[q]) == self.alive()[q],
    {
        let mut ids: Vec<usize> = Vec::new();
        let mut id: usize = 0;
        while id < self.receivers.len()
            invariant
                id <= self.receivers@.len(),
                ids@.len() == places(self.receivers@.take(id as int)).len(),
                forall|q: int|
                    0 <= q < ids@.len() ==> (#[trigger] ids@[q]) == places(
                        self.receivers@.take(id as int),
                    )[q],
            decreases self.receivers@.len() - id,
        {
            assert(self.receivers@.take(id + 1).drop_last() =~= self.receivers@.take(id as int));
            if self.receivers[id].is_some() {
                ids.push(id);
            }
            id += 1;
        }
        assert(self.receivers@.take(id as int) =~= self.receivers@);
        ids
    }
}

impl<T> Channel<T> {
    /// Stage the values that receiver `id` took together with the one it
    /// returns: a sole receiver keeps them to itself, otherwise they become
    /// stealable.
    pub(super) fn stage(&mut self, id: usize, values: VecDeque<T>, Ghost(hand): Ghost<Option<int>>)
        requires
            old(self).inv(hand),
            old(self).receiver_alive,
            old(self).knows(id as int),
            old(self).receiver(id as int).private@.len() == 0,
            old(self).receiver(id as int).local@.len() == 0,
            values@.len() < PREFETCH_LIMIT,
        ensures
            final(self).inv(hand),
            final(self).same_lanes(old(self)),
            final(self).same_receivers(old(self)),
            final(self).publications == old(self).publications,
            final(self).orphaned == old(self).orphaned,
            final(self).contents() == old(self).contents().add(values@.to_multiset()),
            old(self).live_receivers == 1 ==> final(self).receiver(id as int).private@ == values@,
            old(self).live_receivers > 1 ==> final(self).receiver(id as int).private@.len() == 0,
            final(self).staged_by(id as int) == values@,
            final(self).receiver(id as int).cursors == old(self).receiver(id as int).cursors,
            final(self).receiver(id as int).steal_cursor == old(self).receiver(
                id as int,
            ).steal_cursor,
            final(self).others_stay(old(self), id as int),
            final(self).same_staged_but(old(self), id as int, id as int),
            final(self).left_behind() == old(self).left_behind(),
    {
        let ghost before = *self;
        let ghost i = id as int;
        let ghost all = values@;
        assert(self.receivers@[i] is Some);
        if self.live_receivers == 1 {
            let state = self.receivers[id].as_mut().unwrap();
            state.private = values;
            proof {
                let state = self.receiver(i);
                assert(self.receivers@ =~= before.receivers@.update(i, Some(state)));
                before.lemma_receiver_replaced(self, i, Some(state));
                before.lemma_receiver_updated(self, i, state);
                before.lemma_found_kept(self, hand);
                lemma_bag_empty::<T>();
                assert(before.receiver(i).private@ =~= Seq::<T>::empty());
                assert forall|v: T| #[trigger] self.contents().count(v)
                    == before.contents().count(v) + all.to_multiset().count(v) by {
                    assert(total(private_bags(self.receivers@)).count(v) + private_bag(
                        before.receivers@[i],
                    ).count(v) == total(private_bags(before.receivers@)).count(v) + private_bag(
                        Some(state),
                    ).count(v));
                }
                assert(self.contents() =~= before.contents().add(all.to_multiset()));
                assert forall|t: u64| #[trigger] self.tickets().count(t) == before.tickets().count(
                    t,
                ) by {
                    assert(total(local_bags(self.receivers@)).count(t) + local_bag(
                        before.receivers@[i],
                    ).count(t) == total(local_bags(before.receivers@)).count(t) + local_bag(
                        Some(state),
                    ).count(t));
                }
                assert(self.staged_by(i) =~= all);
                assert forall|k: int| k != i implies #[trigger] self.staged_by(k)
                    == before.staged_by(k) by {}
            }
            return;
        }
        let mut rest = values;
        let ghost mut n: int = 0;
        assert(all.skip(0) =~= all);
        proof {
            lemma_bag_empty_take(all);
            assert(self.contents() =~= before.contents().add(all.take(0).to_multiset()));
            assert(self.staged_by(i) =~= all.take(0));
        }
        while rest.len() > 0
            invariant
                0 <= n <= all.len(),
                all.len() < PREFETCH_LIMIT,
                rest@ == all.skip(n),
                i == id,
                self.inv(hand),
                self.knows(i),
                self.same_lanes(&before),
                self.same_receivers(&before),
                self.publications == before.publications,
                self.orphaned == before.orphaned,
                self.receiver(i).private@.len() == 0,
                self.receiver(i).local@.len() == n,
                self.staged_by(i) == all.take(n),
                self.receiver(i).cursors == before.receiver(i).cursors,
                self.receiver(i).steal_cursor == before.receiver(i).steal_cursor,
                self.others_stay(&before, i),
                self.same_staged_but(&before, i, i),
                self.left_behind() == before.left_behind(),
                self.contents() == before.contents().add(all.take(n).to_multiset()),
            decreases all.len() - n,
        {
            let ghost now = *self;
            let value = rest.pop_front().unwrap();
            self.stage_one(id, value, Ghost(hand));
            proof {
                assert forall|k: int| k != i implies #[trigger] self.staged_by(k)
                    == before.staged_by(k) by {
                    assert(self.staged_by(k) == now.staged_by(k));
                }
                assert(all.skip(n).drop_first() =~= all.skip(n + 1));
                assert(all.take(n + 1) =~= all.take(n).push(all[n]));
                lemma_bag_push(all.take(n), all[n]);
                assert(self.contents() =~= before.contents().add(all.take(n + 1).to_multiset()))
                    by {
                    assert forall|v: T| self.contents().count(v) == before.contents().add(
                        all.take(n + 1).to_multiset(),
                    ).count(v) by {
                        assert(all.take(n).push(all[n]).to_multiset().count(v) == all.take(
                            n,
                        ).to_multiset().count(v) + if v == all[n] {
                            1nat
                        } else {
                            0nat
                        });
                    }
                }
                n = n + 1;
            }
        }
        assert(all.take(n) =~= all);
    }

    /// Stage one value where competitors can steal it.
    fn stage_one(&mut self, id: usize, value: T, Ghost(hand): Ghost<Option<int>>)
        requires
            old(self).inv(hand),
            old(self).knows(id as int),
            old(self).receiver(id as int).private@.len() == 0,
            old(self).receiver(id as int).local@.len() + 1 < PREFETCH_LIMIT,
        ensures
            final(self).inv(hand),
            final(self).knows(id as int),
            final(self).same_lanes(old(self)),
            final(self).same_receivers(old(self)),
            final(self).publications == old(self).publications,
            final(self).orphaned == old(self).orphaned,
            final(self).receiver(id as int).private@.len() == 0,
            final(self).receiver(id as int).local@.len() == old(self).receiver(
                id as int,
            ).local@.len() + 1,
            final(self).staged_by(id as int) == old(self).staged_by(id as int).push(value),
            final(self).receiver(id as int).cursors == old(self).receiver(id as int).cursors,
            final(self).receiver(id as int).steal_cursor == old(self).receiver(
                id as int,
            ).steal_cursor,
            final(self).others_stay(old(self), id as int),
            final(self).same_staged_but(old(self), id as int, id as int),
            final(self).left_behind() == old(self).left_behind(),
            final(self).contents() == old(self).contents().insert(value),
    {
        let ghost before = *self;
        let ghost i = id as int;
        assert(self.receivers@[i] is Some);
        let ticket: u64 = self.staging.put(value);
        let state = self.receivers[id].as_mut().unwrap();
        state.local.push(ticket);
        proof {
            let old_state = before.receiver(i);
            let state = self.receiver(i);
            assert(self.receivers@ =~= before.receivers@.update(i, Some(state)));
            before.lemma_receiver_replaced(self, i, Some(state));
            before.lemma_receiver_updated(self, i, state);
            before.lemma_found_kept(self, hand);
            lemma_bag_push(old_state.local@, ticket);
            assert forall|t: u64| #[trigger] self.tickets().count(t) == if self.staging.holds(t) {
                1nat
            } else {
                0nat
            } by {
                assert(before.tickets().count(t) == if before.staging.holds(t) {
                    1nat
                } else {
                    0nat
                });
                assert(total(local_bags(self.receivers@)).count(t) + local_bag(
                    before.receivers@[i],
                ).count(t) == total(local_bags(before.receivers@)).count(t) + local_bag(
                    Some(state),
                ).count(t));
                assert(old_state.local@.push(ticket).to_multiset().count(t)
                    == old_state.local@.to_multiset().count(t) + if t == ticket {
                    1nat
                } else {
                    0nat
                });
            }
            assert(self.contents() =~= before.contents().insert(value)) by {
                assert forall|v: T| self.contents().count(v) == before.contents().insert(
                    value,
                ).count(v) by {
                    assert(total(private_bags(self.receivers@)).count(v) + private_bag(
                        before.receivers@[i],
                    ).count(v) == total(private_bags(before.receivers@)).count(v) + private_bag(
                        Some(state),
                    ).count(v));
                }
            }
            before.lemma_tickets_apart();
            before.staging.lemma_put(&self.staging, ticket, old_state.local@);
            assert(self.staged_by(i) =~= before.staged_by(i).push(value));
            assert forall|k: int| k != i implies #[trigger] self.staged_by(k) == before.staged_by(
                k,
            ) by {
                before.lemma_staged_kept(self, ticket, k);
            }
            self.staging.lemma_named(&before.staging, ticket, before.orphaned@);
        }
    }
}

/// Taking nothing gives an empty bag.
proof fn lemma_bag_empty_take<V>(s: Seq<V>)
    ensures
        s.take(0).to_multiset() == Multiset::<V>::empty(),
{
    lemma_bag_empty::<V>();
    assert(s.take(0) =~= Seq::<V>::empty());
}

} // verus!
