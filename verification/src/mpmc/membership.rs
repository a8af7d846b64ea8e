//! Receivers that come and go.
use vstd::multiset::Multiset;
use vstd::prelude::*;

use crate::bags::{
    lemma_bag_concat, lemma_bag_empty, lemma_bag_front, lemma_bag_push, lemma_total_empty,
    lemma_total_push, total,
};
use crate::count::{count, lemma_count_push, lemma_count_update, lemma_count_zero};

use super::staging::lemma_values_empty;
use super::{
    connected, is_unused, lane_bags, local_bag, local_bags, private_bag, private_bags, taken_places, Channel,
    Lane, Receiver, ReceiverState,
};

verus! {

/// What the last receiver's end does to a lane. A lane whose sender is gone too
/// goes with it. Otherwise unread values stay with the sender, or are discarded
/// at once if the channel is coordinated, and a waiting sender is told.
pub open spec fn abandoned<T>(before: Option<Lane<T>>, after: Option<Lane<T>>) -> bool {
    match before {
        None => after is None,
        Some(lane) => if lane.ring.producer_closed {
            after is None
        } else {
            &&& after is Some
            &&& after->Some_0.key == lane.key
            &&& after->Some_0.signal.space_waiter == lane.signal.space_waiter.after_notify()
            &&& after->Some_0.ring.consumer_closed
            &&& !after->Some_0.ring.producer_closed
            &&& after->Some_0.ring@ == if lane.ring.coordinated {
                Seq::<T>::empty()
            } else {
                lane.ring@
            }
        },
    }
}

impl<T> Channel<T> {
    /// Everything but the receivers, the staged work and what moves.
    pub open spec fn same_sending(&self, before: &Channel<T>) -> bool {
        &&& self.lanes == before.lanes
        &&& self.free == before.free
        &&& self.routing == before.routing
        &&& self.registered_lanes == before.registered_lanes
        &&& self.live_senders == before.live_senders
        &&& self.same_channel(before)
    }

    /// What a new receiver brings about: values that the first one kept to
    /// itself become stealable, behind those that already were. The new one has
    /// nothing staged.
    pub open spec fn receiver_added(&self, before: &Channel<T>, from: int, id: int) -> bool {
        &&& id == before.next_receiver()
        &&& self.knows(id)
        &&& !before.knows(id)
        &&& self.staged_by(id).len() == 0
        &&& is_unused(&self.receiver(id))
        &&& self.receiver(from).private@.len() == 0
        &&& self.receiver(from).searches_like(&before.receiver(from))
        &&& self.staged_by(from) == before.stealable(from) + before.receiver(from).private@
        &&& self.same_staged_but(before, from, id)
        &&& self.left_behind() == before.left_behind()
        &&& forall|k: int|
            0 <= k < before.receivers@.len() && k != from && k != id
                ==> #[trigger] self.receivers@[k] == before.receivers@[k]
        &&& self.knows(from)
        &&& self.receivers@.len() == if before.free_receivers@.len() == 0 {
            before.receivers@.len() + 1
        } else {
            before.receivers@.len()
        }
        &&& self.free_receivers@ == if before.free_receivers@.len() == 0 {
            before.free_receivers@
        } else {
            before.free_receivers@.drop_last()
        }
        &&& self.live_receivers == before.live_receivers + 1
        &&& self.receiver_alive == before.receiver_alive
        &&& self.orphaned == before.orphaned
        &&& self.publications == before.publications.after_begin().after_change().after_finish()
        &&& self.data_waiters == before.data_waiters
        &&& self.same_sending(before)
        &&& self.contents() == before.contents()
        &&& self.upkeep() == before.upkeep()
    }

    /// Move the front value that receiver `id` keeps to itself into its queue,
    /// or, with `orphan`, into the shared one.
    fn publish_one(&mut self, id: usize, orphan: bool)
        requires
            old(self).inv(None),
            old(self).knows(id as int),
            old(self).receiver(id as int).private@.len() > 0,
        ensures
            final(self).inv(None),
            final(self).knows(id as int),
            final(self).same_sending(old(self)),
            final(self).same_receivers(old(self)),
            forall|k: int|
                0 <= k < old(self).receivers@.len() && k != id ==> #[trigger] final(
                    self).receivers@[k] == old(self).receivers@[k],
            final(self).free_receivers == old(self).free_receivers,
            final(self).live_receivers == old(self).live_receivers,
            final(self).receiver_alive == old(self).receiver_alive,
            final(self).data_waiters == old(self).data_waiters,
            final(self).publications == old(self).publications,
            final(self).receiver(id as int).searches_like(&old(self).receiver(id as int)),
            final(self).contents() == old(self).contents(),
            final(self).receiver(id as int).private@ == old(self).receiver(
                id as int,
            ).private@.drop_first(),
            final(self).receiver(id as int).local@.len() == old(self).receiver(
                id as int,
            ).local@.len() + if orphan {
                0int
            } else {
                1int
            },
            !orphan ==> final(self).orphaned == old(self).orphaned,
            final(self).stealable(id as int) == if orphan {
                old(self).stealable(id as int)
            } else {
                old(self).stealable(id as int).push(old(self).receiver(id as int).private@[0])
            },
            final(self).left_behind() == if orphan {
                old(self).left_behind().push(old(self).receiver(id as int).private@[0])
            } else {
                old(self).left_behind()
            },
            final(self).same_staged_but(old(self), id as int, id as int),
    {
        let ghost before = *self;
        let ghost i = id as int;
        assert(self.receivers@[i] is Some);
        let state = self.receivers[id].as_mut().unwrap();
        let value = state.private.pop_front().unwrap();
        let ticket: u64 = self.staging.put(value);
        if orphan {
            self.orphaned.push(ticket);
        } else {
            state.local.push(ticket);
        }
        proof {
            let old_state = before.receiver(i);
            let state = self.receiver(i);
            assert(self.receivers@ =~= before.receivers@.update(i, Some(state)));
            before.lemma_receiver_replaced(self, i, Some(state));
            before.lemma_receiver_updated(self, i, state);
            lemma_bag_front(old_state.private@);
            assert(state.private@ =~= old_state.private@.drop_first());
            lemma_bag_push(old_state.local@, ticket);
            lemma_bag_push(before.orphaned@, ticket);
            assert forall|t: u64| #[trigger] self.tickets().count(t) == if self.staging.holds(t) {
                1nat
            } else {
                0nat
            } by {
                assert(before.tickets().count(t) == if before.staging.holds(t) {
                    1nat
                } else {
                    0nat
                });
                assert(total(local_bags(self.receivers@)).count(t) + local_bag(
                    before.receivers@[i],
                ).count(t) == total(local_bags(before.receivers@)).count(t) + local_bag(
                    Some(state),
                ).count(t));
                assert(old_state.local@.push(ticket).to_multiset().count(t)
                    == old_state.local@.to_multiset().count(t) + if t == ticket {
                    1nat
                } else {
                    0nat
                });
                assert(before.orphaned@.push(ticket).to_multiset().count(t)
                    == before.orphaned@.to_multiset().count(t) + if t == ticket {
                    1nat
                } else {
                    0nat
                });
            }
            assert(self.contents() =~= before.contents()) by {
                assert forall|v: T| self.contents().count(v) == before.contents().count(v) by {
                    assert(total(private_bags(self.receivers@)).count(v) + private_bag(
                        before.receivers@[i],
                    ).count(v) == total(private_bags(before.receivers@)).count(v) + private_bag(
                        Some(state),
                    ).count(v));
                }
            }
            before.lemma_found_kept(self, None);
            before.lemma_tickets_apart();
            before.staging.lemma_put(&self.staging, ticket, old_state.local@);
            before.staging.lemma_put(&self.staging, ticket, before.orphaned@);
            assert forall|k: int| k != i implies #[trigger] self.staged_by(k) == before.staged_by(
                k,
            ) by {
                before.lemma_staged_kept(self, ticket, k);
            }
        }
    }

    /// Publish every value that receiver `id` keeps to itself.
    fn publish_private(&mut self, id: usize, orphan: bool)
        requires
            old(self).inv(None),
            old(self).knows(id as int),
        ensures
            final(self).inv(None),
            final(self).knows(id as int),
            final(self).same_sending(old(self)),
            final(self).same_receivers(old(self)),
            forall|k: int|
                0 <= k < old(self).receivers@.len() && k != id ==> #[trigger] final(
                    self).receivers@[k] == old(self).receivers@[k],
            final(self).free_receivers == old(self).free_receivers,
            final(self).live_receivers == old(self).live_receivers,
            final(self).receiver_alive == old(self).receiver_alive,
            final(self).data_waiters == old(self).data_waiters,
            final(self).publications == old(self).publications,
            final(self).receiver(id as int).searches_like(&old(self).receiver(id as int)),
            final(self).contents() == old(self).contents(),
            final(self).receiver(id as int).private@.len() == 0,
            final(self).receiver(id as int).local@.len() == old(self).receiver(
                id as int,
            ).local@.len() + if orphan {
                0int
            } else {
                old(self).receiver(id as int).private@.len() as int
            },
            !orphan ==> final(self).orphaned == old(self).orphaned,
            final(self).stealable(id as int) == if orphan {
                old(self).stealable(id as int)
            } else {
                old(self).stealable(id as int) + old(self).receiver(id as int).private@
            },
            final(self).left_behind() == if orphan {
                old(self).left_behind() + old(self).receiver(id as int).private@
            } else {
                old(self).left_behind()
            },
            final(self).same_staged_but(old(self), id as int, id as int),
    {
        let ghost before = *self;
        let ghost i = id as int;
        let ghost kept = self.receiver(i).private@;
        assert(self.receivers@[i] is Some);
        let mut left: usize = self.receivers[id].as_ref().unwrap().private.len();
        let ghost n = left as int;
        assert(before.stealable(i) =~= before.stealable(i) + kept.take(0));
        assert(before.left_behind() =~= before.left_behind() + kept.take(0));
        assert(kept =~= kept.skip(0));
        while left > 0
            invariant
                i == id,
                kept == before.receiver(i).private@,
                n == kept.len(),
                0 <= left <= n,
                self.inv(None),
                self.knows(i),
                self.same_sending(&before),
                self.same_receivers(&before),
                forall|k: int|
                    0 <= k < before.receivers@.len() && k != i ==> #[trigger] self.receivers@[k]
                        == before.receivers@[k],
                self.free_receivers == before.free_receivers,
                self.live_receivers == before.live_receivers,
                self.receiver_alive == before.receiver_alive,
                self.data_waiters == before.data_waiters,
                self.publications == before.publications,
                self.receiver(i).searches_like(&before.receiver(i)),
                self.contents() == before.contents(),
                self.receiver(i).private@ == kept.skip(n - left),
                self.stealable(i) == if orphan {
                    before.stealable(i)
                } else {
                    before.stealable(i) + kept.take(n - left)
                },
                self.left_behind() == if orphan {
                    before.left_behind() + kept.take(n - left)
                } else {
                    before.left_behind()
                },
                self.same_staged_but(&before, i, i),
                self.receiver(i).local@.len() == before.receiver(i).local@.len() + if orphan {
                    0int
                } else {
                    n - left
                },
                !orphan ==> self.orphaned == before.orphaned,
            decreases left,
        {
            let ghost head = *self;
            self.publish_one(id, orphan);
            proof {
                assert forall|k: int| 0 <= k < before.receivers@.len() && k != i implies
                    #[trigger] self.receivers@[k] == before.receivers@[k] by {
                    assert(head.receivers@[k] == before.receivers@[k]);
                }
                assert forall|k: int| 0 <= k < before.receivers@.len() implies ((
                #[trigger] self.receivers@[k]) is Some <==> before.receivers@[k] is Some) by {
                    assert(head.receivers@[k] is Some <==> before.receivers@[k] is Some);
                }
                assert forall|k: int| k != i implies #[trigger] self.staged_by(k)
                    == before.staged_by(k) by {
                    assert(self.staged_by(k) == head.staged_by(k));
                }
                let m = n - left;
                assert(kept.skip(m).drop_first() =~= kept.skip(m + 1));
                assert(kept.take(m + 1) =~= kept.take(m).push(kept[m]));
                assert(before.stealable(i) + kept.take(m + 1) =~= (before.stealable(i) + kept.take(
                    m,
                )).push(kept[m]));
                assert(before.left_behind() + kept.take(m + 1) =~= (before.left_behind()
                    + kept.take(m)).push(kept[m]));
            }
            left = left - 1;
        }
        assert(kept.take(n) =~= kept);
    }

    /// Give a new receiver a number and a place.
    fn register_receiver(&mut self) -> (id: usize)
        requires
            old(self).inv(None),
            old(self).receiver_alive,
            old(self).receivers@.len() < usize::MAX,
            forall|k: int|
                0 <= k < old(self).receivers@.len() && (#[trigger] old(self).receivers@[k]) is Some
                    ==> old(self).receivers@[k]->Some_0.private@.len() == 0,
        ensures
            final(self).inv(None),
            final(self).same_sending(old(self)),
            id == old(self).next_receiver(),
            !old(self).knows(id as int),
            final(self).knows(id as int),
            is_unused(&final(self).receiver(id as int)),
            forall|k: int|
                0 <= k < old(self).receivers@.len() && k != id ==> #[trigger] final(
                    self).receivers@[k] == old(self).receivers@[k],
            final(self).receivers@.len() == if old(self).free_receivers@.len() == 0 {
                old(self).receivers@.len() + 1
            } else {
                old(self).receivers@.len()
            },
            final(self).free_receivers@ == if old(self).free_receivers@.len() == 0 {
                old(self).free_receivers@
            } else {
                old(self).free_receivers@.drop_last()
            },
            final(self).live_receivers == old(self).live_receivers + 1,
            final(self).receiver_alive == old(self).receiver_alive,
            final(self).orphaned == old(self).orphaned,
            final(self).staging == old(self).staging,
            final(self).data_waiters == old(self).data_waiters,
            final(self).publications == old(self).publications.after_change(),
            final(self).contents() == old(self).contents(),
    {
        let ghost before = *self;
        proof {
            crate::count::lemma_count_bound(taken_places(before.receivers@));
            lemma_bag_empty::<T>();
            lemma_bag_empty::<u64>();
        }
        let state: ReceiverState<T> = ReceiverState::new();
        let id: usize = match self.free_receivers.pop() {
            Some(id) => {
                assert(before.free_receivers@[before.free_receivers@.len() - 1] == id);
                self.receivers.set(id, Some(state));
                proof {
                    before.lemma_receiver_replaced(self, id as int, Some(state));
                    lemma_count_update(taken_places(before.receivers@), id as int, true);
                    assert(private_bags(self.receivers@) =~= private_bags(before.receivers@));
                    assert(local_bags(self.receivers@) =~= local_bags(before.receivers@));
                }
                id
            },
            None => {
                let id: usize = self.receivers.len();
                self.receivers.push(Some(state));
                proof {
                    lemma_count_push(taken_places(before.receivers@), true);
                    assert(taken_places(self.receivers@) =~= taken_places(before.receivers@).push(
                        true,
                    ));
                    lemma_total_push(private_bags(before.receivers@), Multiset::empty());
                    lemma_total_push(local_bags(before.receivers@), Multiset::empty());
                    assert(private_bags(self.receivers@) =~= private_bags(before.receivers@).push(
                        Multiset::empty(),
                    ));
                    assert(local_bags(self.receivers@) =~= local_bags(before.receivers@).push(
                        Multiset::empty(),
                    ));
                }
                id
            },
        };
        self.live_receivers = self.live_receivers + 1;
        self.publications.notify_change();
        proof {
            assert forall|k: int| 0 <= k < before.receivers@.len() && k != id implies
                #[trigger] self.receivers@[k] == before.receivers@[k] by {}
            assert(total(private_bags(self.receivers@)) =~= total(
                private_bags(before.receivers@),
            ));
            assert(total(local_bags(self.receivers@)) =~= total(local_bags(before.receivers@)));
            assert(self.contents() =~= before.contents());
            assert(self.tickets() =~= before.tickets());
            assert forall|t: u64| #[trigger] self.tickets().count(t) == if self.staging.holds(t) {
                1nat
            } else {
                0nat
            } by {
                assert(before.tickets().count(t) == if before.staging.holds(t) {
                    1nat
                } else {
                    0nat
                });
            }
            assert(self.receivers_ok()) by {
                assert forall|k: int|
                    0 <= k < self.receivers@.len() && (#[trigger] self.receivers@[k])
                        is Some implies {
                    &&& self.receivers@[k]->Some_0.wf()
                    &&& self.receivers@[k]->Some_0.private@.len() > 0 ==> self.live_receivers == 1
                } by {
                    if k != id {
                        assert(self.receivers@[k] == before.receivers@[k]);
                    }
                }
                assert forall|k: int| 0 <= k < self.free_receivers@.len() implies (
                #[trigger] self.free_receivers@[k]) < self.receivers@.len()
                    && self.receivers@[self.free_receivers@[k] as int] is None by {
                    assert(self.free_receivers@[k] == before.free_receivers@[k]);
                    assert(before.receivers@[before.free_receivers@[k] as int] is None);
                }
            }
            assert forall|t: int| #[trigger] self.pending(t) == before.pending(t) by {}
            assert forall|t: int| #[trigger] self.routing.slots().contains(t) implies self.pending(
                t,
            ) by {
                assert(before.routing.slots().contains(t));
            }
            assert forall|t: int| #[trigger] self.pending(t) implies self.routing.slots().contains(
                t,
            ) by {
                assert(before.pending(t));
            }
        }
        id
    }
}

impl Receiver {
    /// Add a receiver that competes with this one. Values that this one kept to
    /// itself become stealable first.
    pub fn clone<T>(&self, ch: &mut Channel<T>) -> (rx: Receiver)
        requires
            old(ch).wf(),
            old(ch).receiver_alive,
            old(ch).knows(self.id as int),
            old(ch).receivers@.len() < usize::MAX,
        ensures
            final(ch).wf(),
            final(ch).receiver_added(old(ch), self.id as int, rx.id as int),
            rx.capacity == self.capacity,
    {
        let ghost before = *ch;
        ch.publications.begin();
        proof {
            before.lemma_published(ch, None);
        }
        let ghost begun = *ch;
        ch.publish_private(self.id, false);
        let ghost public = *ch;
        proof {
            assert forall|k: int|
                0 <= k < public.receivers@.len() && (#[trigger] public.receivers@[k])
                    is Some implies public.receivers@[k]->Some_0.private@.len() == 0 by {
                if k != self.id {
                    assert(public.receivers@[k] == begun.receivers@[k]);
                    before.lemma_nothing_private(self.id as int, k);
                }
            }
        }
        let id: usize = ch.register_receiver();
        let ghost added = *ch;
        ch.publications.finish();
        proof {
            added.lemma_published(ch, None);
            assert forall|k: int| 0 <= k < before.receivers@.len() && k != self.id && k
                != id implies #[trigger] ch.receivers@[k] == before.receivers@[k] by {
                assert(public.receivers@[k] == before.receivers@[k]);
            }
            let from = self.id as int;
            assert(ch.receivers@[from] == public.receivers@[from]);
            assert(ch.staged_by(from) =~= before.stealable(from) + before.receiver(from).private@);
            assert forall|k: int| k != from && k != id implies #[trigger] ch.staged_by(k)
                == before.staged_by(k) by {
                assert(public.staged_by(k) == begun.staged_by(k));
            }
        }
        Receiver { id, capacity: self.capacity }
    }
}

impl<T> Channel<T> {
    /// Move every ticket of receiver `id` into the shared queue.
    fn orphan_local(&mut self, id: usize) -> (moved: bool)
        requires
            old(self).inv(None),
            old(self).knows(id as int),
        ensures
            final(self).inv(None),
            final(self).knows(id as int),
            final(self).same_sending(old(self)),
            forall|k: int|
                0 <= k < old(self).receivers@.len() && k != id ==> #[trigger] final(
                    self).receivers@[k] == old(self).receivers@[k],
            final(self).receivers@.len() == old(self).receivers@.len(),
            final(self).free_receivers == old(self).free_receivers,
            final(self).live_receivers == old(self).live_receivers,
            final(self).receiver_alive == old(self).receiver_alive,
            final(self).data_waiters == old(self).data_waiters,
            final(self).publications == old(self).publications,
            final(self).contents() == old(self).contents(),
            final(self).receiver(id as int).private@ == old(self).receiver(id as int).private@,
            final(self).receiver(id as int).local@.len() == 0,
            moved == (old(self).receiver(id as int).local@.len() > 0),
            final(self).left_behind() == old(self).left_behind() + old(self).stealable(id as int),
            final(self).same_staged_but(old(self), id as int, id as int),
    {
        let ghost before = *self;
        let ghost i = id as int;
        assert(self.receivers@[i] is Some);
        let state = self.receivers[id].as_mut().unwrap();
        let moved: bool = state.local.drain_into(&mut self.orphaned);
        proof {
            let old_state = before.receiver(i);
            let state = self.receiver(i);
            assert(self.receivers@ =~= before.receivers@.update(i, Some(state)));
            before.lemma_receiver_replaced(self, i, Some(state));
            before.lemma_receiver_updated(self, i, state);
            lemma_bag_concat(before.orphaned@, old_state.local@);
            lemma_bag_empty::<u64>();
            assert forall|t: u64| #[trigger] self.tickets().count(t) == if self.staging.holds(t) {
                1nat
            } else {
                0nat
            } by {
                assert(before.tickets().count(t) == if before.staging.holds(t) {
                    1nat
                } else {
                    0nat
                });
                assert(total(local_bags(self.receivers@)).count(t) + local_bag(
                    before.receivers@[i],
                ).count(t) == total(local_bags(before.receivers@)).count(t) + local_bag(
                    Some(state),
                ).count(t));
                assert((before.orphaned@ + old_state.local@).to_multiset().count(t)
                    == before.orphaned@.to_multiset().count(t)
                    + old_state.local@.to_multiset().count(t));
            }
            assert(private_bags(self.receivers@) =~= private_bags(before.receivers@));
            before.lemma_found_kept(self, None);
            assert(self.left_behind() =~= before.left_behind() + before.stealable(i));
            assert forall|k: int| k != i implies #[trigger] self.staged_by(k) == before.staged_by(
                k,
            ) by {}
        }
        moved
    }

    /// Take receiver `id`, which holds nothing, out of the table.
    fn unregister_receiver(&mut self, id: usize)
        requires
            old(self).inv(None),
            old(self).receiver_alive,
            old(self).knows(id as int),
            old(self).receiver(id as int).private@.len() == 0,
            old(self).receiver(id as int).local@.len() == 0,
            forall|k: int|
                0 <= k < old(self).receivers@.len() && (#[trigger] old(self).receivers@[k]) is Some
                    ==> old(self).receivers@[k]->Some_0.private@.len() == 0,
        ensures
            final(self).same_sending(old(self)),
            final(self).receivers@ == old(self).receivers@.update(id as int, None),
            final(self).free_receivers@ == old(self).free_receivers@.push(id),
            final(self).live_receivers == old(self).live_receivers - 1,
            final(self).live_receivers == count(taken_places(final(self).receivers@)),
            final(self).receiver_alive == old(self).receiver_alive,
            final(self).orphaned == old(self).orphaned,
            final(self).staging == old(self).staging,
            final(self).data_waiters == old(self).data_waiters,
            final(self).publications == old(self).publications.after_change(),
            final(self).contents() == old(self).contents(),
            final(self).staging_ok(),
            final(self).live_receivers > 0 ==> final(self).inv(None),
    {
        let ghost before = *self;
        let ghost i = id as int;
        proof {
            lemma_count_zero(taken_places(before.receivers@));
            assert(taken_places(before.receivers@)[i]);
            lemma_count_update(taken_places(before.receivers@), i, false);
        }
        self.receivers.set(id, None);
        self.free_receivers.push(id);
        self.live_receivers = self.live_receivers - 1;
        self.publications.notify_change();
        proof {
            before.lemma_receiver_replaced(self, i, None);
            lemma_bag_empty::<T>();
            lemma_bag_empty::<u64>();
            assert(before.receiver(i).private@ =~= Seq::<T>::empty());
            assert(before.receiver(i).local@ =~= Seq::<u64>::empty());
            assert(private_bags(self.receivers@) =~= private_bags(before.receivers@));
            assert(local_bags(self.receivers@) =~= local_bags(before.receivers@));
            assert(self.contents() == before.contents());
            assert(self.tickets() == before.tickets());
            assert forall|t: u64| #[trigger] self.tickets().count(t) == if self.staging.holds(t) {
                1nat
            } else {
                0nat
            } by {
                assert(before.tickets().count(t) == if before.staging.holds(t) {
                    1nat
                } else {
                    0nat
                });
            }
            if self.live_receivers > 0 {
                assert(self.receivers_ok()) by {
                    assert forall|k: int|
                        0 <= k < self.receivers@.len() && (#[trigger] self.receivers@[k])
                            is Some implies {
                        &&& self.receivers@[k]->Some_0.wf()
                        &&& self.receivers@[k]->Some_0.private@.len() > 0 ==> self.live_receivers
                            == 1
                    } by {
                        assert(self.receivers@[k] == before.receivers@[k]);
                    }
                    assert forall|k: int| 0 <= k < self.free_receivers@.len() implies (
                    #[trigger] self.free_receivers@[k]) < self.receivers@.len()
                        && self.receivers@[self.free_receivers@[k] as int] is None by {
                        if k < before.free_receivers@.len() {
                            assert(self.free_receivers@[k] == before.free_receivers@[k]);
                            assert(before.receivers@[before.free_receivers@[k] as int] is None);
                        }
                    }
                    assert forall|k: int, m: int|
                        0 <= k < m < self.free_receivers@.len() implies self.free_receivers@[k]
                        != self.free_receivers@[m] by {
                        assert(self.free_receivers@[k] == before.free_receivers@[k]);
                        assert(before.receivers@[before.free_receivers@[k] as int] is None);
                        if m < before.free_receivers@.len() {
                            assert(self.free_receivers@[m] == before.free_receivers@[m]);
                        }
                    }
                }
                assert forall|t: int| #[trigger] self.pending(t) == before.pending(t) by {}
                assert forall|t: int| #[trigger] self.routing.slots().contains(t) implies
                    self.pending(t) by {
                    assert(before.routing.slots().contains(t));
                }
                assert forall|t: int| #[trigger] self.pending(t) implies
                    self.routing.slots().contains(t) by {
                    assert(before.pending(t));
                }
            }
        }
    }

    /// What the end of receiver `id` brings about. While others are alive,
    /// nothing is lost: what it had staged is left behind for them. The last one
    /// closes every lane and drops staged values.
    pub open spec fn receiver_removed(&self, before: &Channel<T>, id: int) -> bool {
        let staged = before.staged_by(id).len() > 0;
        let last = before.live_receivers == 1;
        &&& self.receivers@ == before.receivers@.update(id, None)
        &&& self.free_receivers@ == before.free_receivers@.push(id as usize)
        &&& self.live_receivers == before.live_receivers - 1
        &&& self.receiver_alive == !last
        &&& self.free == before.free
        &&& self.routing == before.routing
        &&& self.registered_lanes == before.registered_lanes
        &&& self.live_senders == before.live_senders
        &&& self.same_channel(before)
        &&& self.publications == before.publications.after_begin().after_change().after_finish()
        &&& self.data_waiters == if last || staged || before.live_senders == 0 {
            before.data_waiters.after_notify_all()
        } else {
            before.data_waiters
        }
        &&& self.same_staged_but(before, id, id)
        &&& !last ==> {
            &&& self.lanes == before.lanes
            &&& self.contents() == before.contents()
            &&& self.left_behind() == before.left_behind() + before.staged_by(id)
        }
        &&& last ==> {
            &&& self.left_behind().len() == 0
            &&& self.lanes@.len() == before.lanes@.len()
            &&& forall|t: int|
                0 <= t < before.lanes@.len() ==> abandoned(
                    before.lanes@[t],
                    #[trigger] self.lanes@[t],
                )
            &&& self.contents() == total(lane_bags(self.lanes@))
        }
    }

    /// Close every lane and drop what was staged.
    fn close_all_receivers(&mut self)
        requires
            old(self).receiver_alive,
            old(self).lanes_ok(),
            old(self).free_ok(),
            old(self).live_senders == count(connected(old(self).lanes@)),
            old(self).staging_ok(),
            old(self).covered(),
            old(self).data_waiters.wf(),
            old(self).publications.in_flight == 0,
            old(self).live_receivers == 0,
            old(self).live_receivers == count(taken_places(old(self).receivers@)),
            forall|i: int|
                0 <= i < old(self).free_receivers@.len() ==> (#[trigger] old(
                    self).free_receivers@[i]) < old(self).receivers@.len(),
            forall|i: int, j: int|
                0 <= i < j < old(self).free_receivers@.len() ==> old(self).free_receivers@[i]
                    != old(self).free_receivers@[j],
        ensures
            final(self).wf(),
            final(self).receivers == old(self).receivers,
            final(self).free_receivers == old(self).free_receivers,
            final(self).live_receivers == old(self).live_receivers,
            !final(self).receiver_alive,
            final(self).free == old(self).free,
            final(self).routing == old(self).routing,
            final(self).registered_lanes == old(self).registered_lanes,
            final(self).live_senders == old(self).live_senders,
            final(self).same_channel(old(self)),
            final(self).publications == old(self).publications,
            final(self).data_waiters == old(self).data_waiters.after_notify_all(),
            final(self).lanes@.len() == old(self).lanes@.len(),
            forall|t: int|
                0 <= t < old(self).lanes@.len() ==> abandoned(
                    old(self).lanes@[t],
                    #[trigger] final(self).lanes@[t],
                ),
            final(self).contents() == total(lane_bags(final(self).lanes@)),
            final(self).left_behind().len() == 0,
    {
        let ghost before = *self;
        self.receiver_alive = false;
        let count: usize = self.lanes.len();
        let mut i: usize = 0;
        while i < count
            invariant
                before.lanes_ok(),
                before.receiver_alive,
                i <= count,
                count == before.lanes@.len(),
                *self == (Channel { lanes: self.lanes, receiver_alive: false, ..before }),
                self.lanes@.len() == before.lanes@.len(),
                forall|t: int|
                    i <= t < before.lanes@.len() ==> #[trigger] self.lanes@[t] == before.lanes@[t],
                forall|t: int|
                    0 <= t < i ==> abandoned(before.lanes@[t], #[trigger] self.lanes@[t]) && (
                    self.lanes@[t] is Some ==> self.lanes@[t]->Some_0.wf(t, self.capacity as nat)
                        && self.lanes@[t]->Some_0.ring.coordinated == self.coordinated),
            decreases count - i,
        {
            assert(self.lanes@[i as int] == before.lanes@[i as int]);
            assert(before.lanes@[i as int] is Some ==> before.lane(i as int).wf(
                i as int,
                before.capacity as nat,
            ));
            let gone: bool = match &self.lanes[i] {
                Some(lane) => lane.ring.is_disconnected(),
                None => true,
            };
            if gone {
                self.lanes.set(i, None);
            } else {
                let lane = self.lanes[i].as_mut().unwrap();
                lane.ring.close_consumer();
                let _ = lane.signal.space_waiter.notify();
                assert(before.lane(i as int).ring@.skip(before.lane(i as int).ring@.len() as int)
                    =~= Seq::<T>::empty());
            }
            i += 1;
        }
        let ghost closed = *self;
        proof {
            assert forall|t: int| 0 <= t < before.lanes@.len() implies connected(self.lanes@)[t]
                == connected(before.lanes@)[t] by {
                assert(abandoned(before.lanes@[t], self.lanes@[t]));
            }
            assert(connected(self.lanes@) =~= connected(before.lanes@));
            assert forall|j: int| 0 <= j < self.free@.len() implies (
            #[trigger] self.free@[j]).slot < self.lanes@.len()
                && self.lanes@[self.free@[j].slot as int] is None by {
                let t = before.free@[j].slot as int;
                assert(before.lanes@[t] is None);
                assert(abandoned(before.lanes@[t], self.lanes@[t]));
            }
            lemma_count_zero(taken_places(before.receivers@));
            assert forall|k: int| 0 <= k < before.receivers@.len() implies (
            #[trigger] before.receivers@[k]) is None by {
                assert(!taken_places(before.receivers@)[k]);
            }
            assert(self.tickets() == before.tickets());
            assert forall|t: u64| #[trigger] self.tickets().count(t) == if self.staging.holds(t) {
                1nat
            } else {
                0nat
            } by {
                assert(before.tickets().count(t) == if before.staging.holds(t) {
                    1nat
                } else {
                    0nat
                });
            }
        }
        let mut open: bool = true;
        while open
            invariant
                self.inv(None),
                self.publications == before.publications,
                self.lanes == closed.lanes,
                self.receivers == before.receivers,
                self.free_receivers == before.free_receivers,
                self.live_receivers == before.live_receivers,
                !self.receiver_alive,
                self.free == before.free,
                self.routing == before.routing,
                self.registered_lanes == before.registered_lanes,
                self.live_senders == before.live_senders,
                self.same_channel(&before),
                self.data_waiters == before.data_waiters,
                !open ==> self.orphaned@.len() == 0,
            decreases self.orphaned@.len() + if open {
                1int
            } else {
                0int
            },
        {
            match self.pop_orphaned() {
                Some(_) => {},
                None => {
                    open = false;
                },
            }
        }
        let ghost drained = *self;
        let _ = self.data_waiters.notify_all();
        proof {
            drained.lemma_waiters_changed(self);
            self.lemma_nothing_staged();
        }
    }

    /// Without receivers and tickets only the lanes hold values.
    proof fn lemma_nothing_staged(&self)
        requires
            self.inv(None),
            self.live_receivers == 0,
            self.orphaned@.len() == 0,
        ensures
            self.contents() == total(lane_bags(self.lanes@)),
    {
        lemma_count_zero(taken_places(self.receivers@));
        assert forall|k: int| 0 <= k < self.receivers@.len() implies (
        #[trigger] self.receivers@[k]) is None by {
            assert(!taken_places(self.receivers@)[k]);
        }
        lemma_bag_empty::<T>();
        lemma_bag_empty::<u64>();
        assert(self.orphaned@ =~= Seq::<u64>::empty());
        assert forall|k: int| 0 <= k < local_bags(self.receivers@).len() implies #[trigger] local_bags(
            self.receivers@,
        )[k] == Multiset::<u64>::empty() by {
            assert(self.receivers@[k] is None);
        }
        assert forall|k: int|
            0 <= k < private_bags(self.receivers@).len() implies #[trigger] private_bags(
            self.receivers@,
        )[k] == Multiset::<T>::empty() by {
            assert(self.receivers@[k] is None);
        }
        lemma_total_empty(local_bags(self.receivers@));
        lemma_total_empty(private_bags(self.receivers@));
        lemma_values_empty(self.staging.places@);
        assert forall|k: int| 0 <= k < self.staging.places@.len() implies (
        #[trigger] self.staging.places@[k]) is None by {
            if self.staging.places@[k] is Some {
                assert(self.staging.places.len() == self.staging.places@.len());
                assert(self.staging.holds(k as u64));
                assert(self.tickets().count(k as u64) == 1);
            }
        }
        assert(self.staging.values() =~= Multiset::<T>::empty());
        assert(self.contents() =~= total(lane_bags(self.lanes@)));
    }
}

impl Receiver {
    /// Drop the receiver. Its staged values stay reachable for the others.
    pub fn close<T>(self, ch: &mut Channel<T>)
        requires
            old(ch).wf(),
            old(ch).receiver_alive,
            old(ch).knows(self.id as int),
        ensures
            final(ch).wf(),
            final(ch).receiver_removed(old(ch), self.id as int),
    {
        let ghost before = *ch;
        let ghost i = self.id as int;
        let id: usize = self.id;
        assert(ch.receivers@[i] is Some);
        ch.publications.begin();
        proof {
            before.lemma_published(ch, None);
        }
        let ghost begun = *ch;
        let kept: bool = ch.receivers[id].as_ref().unwrap().private.len() > 0;
        ch.publish_private(id, true);
        let ghost shared = *ch;
        let moved: bool = ch.orphan_local(id);
        let ghost empty = *ch;
        let published: bool = kept || moved;
        proof {
            assert forall|k: int|
                0 <= k < empty.receivers@.len() && (#[trigger] empty.receivers@[k])
                    is Some implies empty.receivers@[k]->Some_0.private@.len() == 0 by {
                if k != i {
                    assert(empty.receivers@[k] == shared.receivers@[k]);
                    assert(shared.receivers@[k] == before.receivers@[k]);
                    before.lemma_nothing_private(i, k);
                }
            }
        }
        ch.unregister_receiver(id);
        let ghost gone = *ch;
        ch.publications.finish();
        proof {
            assert(ch.receivers@ =~= before.receivers@.update(i, None)) by {
                assert forall|k: int| 0 <= k < before.receivers@.len() && k != i implies
                    ch.receivers@[k] == before.receivers@[k] by {
                    assert(empty.receivers@[k] == shared.receivers@[k]);
                    assert(shared.receivers@[k] == before.receivers@[k]);
                }
            }
            assert(ch.tickets() == gone.tickets());
            assert forall|t: u64| #[trigger] ch.tickets().count(t) == if ch.staging.holds(t) {
                1nat
            } else {
                0nat
            } by {
                assert(gone.tickets().count(t) == if gone.staging.holds(t) {
                    1nat
                } else {
                    0nat
                });
            }
            assert(ch.contents() == gone.contents());
            assert(shared.left_behind() == before.left_behind() + before.receiver(i).private@);
            assert(ch.left_behind() =~= before.left_behind() + before.staged_by(i));
            assert forall|k: int| k != i implies #[trigger] ch.staged_by(k) == before.staged_by(
                k,
            ) by {
                assert(empty.staged_by(k) == shared.staged_by(k));
                assert(shared.staged_by(k) == begun.staged_by(k));
            }
        }
        let ghost left = *ch;
        if ch.live_receivers == 0 {
            proof {
                assert forall|k: int, m: int|
                    0 <= k < m < ch.free_receivers@.len() implies ch.free_receivers@[k]
                    != ch.free_receivers@[m] by {
                    assert(ch.free_receivers@[k] == before.free_receivers@[k]);
                    assert(before.receivers@[before.free_receivers@[k] as int] is None);
                    if m < before.free_receivers@.len() {
                        assert(ch.free_receivers@[m] == before.free_receivers@[m]);
                    }
                }
                assert forall|k: int| 0 <= k < ch.free_receivers@.len() implies (
                #[trigger] ch.free_receivers@[k]) < ch.receivers@.len() by {
                    if k < before.free_receivers@.len() {
                        assert(ch.free_receivers@[k] == before.free_receivers@[k]);
                    }
                }
            }
            ch.close_all_receivers();
            proof {
                lemma_count_zero(taken_places(ch.receivers@));
                assert forall|k: int| k != i implies #[trigger] ch.staged_by(k) == before.staged_by(
                    k,
                ) by {
                    assert(left.staged_by(k) == before.staged_by(k));
                    if ch.knows(k) {
                        assert(taken_places(ch.receivers@)[k]);
                    }
                }
            }
        } else {
            proof {
                gone.lemma_published(ch, None);
            }
            if published || ch.live_senders == 0 {
                let ghost quiet = *ch;
                let _ = ch.data_waiters.notify_all();
                proof {
                    quiet.lemma_waiters_changed(ch);
                    assert forall|k: int| k != i implies #[trigger] ch.staged_by(k)
                        == before.staged_by(k) by {
                        assert(quiet.staged_by(k) == before.staged_by(k));
                    }
                }
            }
        }
    }
}

} // verus!
