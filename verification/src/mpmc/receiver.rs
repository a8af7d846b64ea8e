//! The receiving side: looking for a value, and blocking.
use vstd::multiset::Multiset;
use vstd::prelude::*;

use crate::bags::{lemma_bag_empty, lemma_total_empty};
use crate::count::{count, lemma_count_zero};
use crate::error::{RecvError, RecvTimeoutError, TryRecvError};
use crate::key::LaneKey;
use crate::publication::{later, lemma_later, next_generation};
use crate::ready::LaneSignal;
use crate::wait::{without_one, with_waiter, MultiWaitCell, MultiWaitRegistration};

use super::drain::{
    freed, held, lane_kept, more_room, same_room, undisturbed, Effects, LaneDrain, Wake,
};
use super::routing::{turns, Cursors, Routing};
use super::staged::WorkPop;
use super::{
    connected, dry, lane_bags, taken_places, Channel, Lane, Receiver, PARK_SPINS, TRY_RECV_RETRIES,
};

verus! {

/// What an empty scan means.
#[derive(Debug, Clone, Copy, PartialEq, Eq, Structural)]
pub enum EmptyScan {
    /// Work moved meanwhile.
    Changed,
    /// Work is moving.
    Publishing,
    /// Nothing is there, but senders or lanes are.
    Open,
    /// Nothing is there and nothing will come.
    Drained,
}

/// Where a receiver stands: how the lanes are routed, where it looks next, the
/// keys for new lanes, how often work was moved, and where it next steals.
pub struct Way {
    /// The marked and the queued lanes.
    pub routing: Routing,
    /// Where the receiver looks next.
    pub cursors: Cursors,
    /// The keys for new lanes.
    pub free: Seq<LaneKey>,
    /// Completed publications.
    pub generation: usize,
    /// Where the receiver next searches for work to steal.
    pub steal: usize,
}

impl Way {
    /// How often work is moved in a turn that comes to the lane in `slot`, or to
    /// none: once for every stale listing, and once for the lane.
    pub open spec fn moves(self, slot: Option<usize>) -> int {
        self.routing.stale_met(self.cursors, slot) + if slot is Some {
            1int
        } else {
            0
        }
    }
}

impl<T> Channel<T> {
    /// Whether every lane is idle, so that the next value in any of them is
    /// announced.
    pub open spec fn at_rest(&self) -> bool {
        forall|slot: int| !#[trigger] self.pending(slot)
    }

    /// Whether no ring holds a value.
    pub open spec fn rings_empty(&self) -> bool {
        forall|slot: int| (#[trigger] self.unread_in(slot)).len() == 0
    }

    /// Whether receiver `id` comes to the lane in `slot` first, or to none, and
    /// moves its cursors to `to`.
    pub open spec fn leads_to(&self, id: int, slot: Option<usize>, to: Cursors) -> bool {
        exists|routing: Routing| #[trigger]
            routing.routed(&self.routing, self.receiver(id).cursors, to, slot)
    }

    /// Whether the lane that receiver `id` comes to first, if any, holds no
    /// value.
    pub open spec fn comes_up_dry(&self, id: int) -> bool {
        exists|slot: Option<usize>, to: Cursors| #[trigger]
            self.leads_to(id, slot, to) && (slot matches Some(slot) ==> self.unread_in(
                slot as int,
            ).len() == 0)
    }

    /// Whether receiver `id` served the lane in `slot` in its turn: it is the
    /// one that it came to first, unless that one held no value.
    pub open spec fn served(&self, before: &Channel<T>, id: int, slot: int) -> bool {
        ||| before.comes_up_dry(id)
        ||| before.leads_to(id, Some(slot as usize), self.receiver(id).cursors)
    }

    /// One turn of a receiver that came up dry: it found no lane, or one without
    /// a value, and moved on. With no lane in sight it searched for work to steal.
    pub open spec fn dry_turn(&self, from: Way, to: Way, slot: Option<usize>) -> bool {
        &&& to.routing.routed(&from.routing, from.cursors, to.cursors, slot)
        &&& match slot {
            Some(slot) => {
                &&& self.present(slot as int)
                &&& self.unread_in(slot as int).len() == 0
                &&& to.free == freed(from.free, self.lane(slot as int))
            },
            None => to.free == from.free,
        }
        &&& later(from.generation, to.generation, from.moves(slot))
        &&& to.steal == if from.routing.in_sight() {
            from.steal as int
        } else {
            self.past_search(from.steal)
        }
    }

    /// Where receiver `id` stands.
    pub open spec fn way(&self, id: int) -> Way {
        Way {
            routing: self.routing,
            cursors: self.receiver(id).cursors,
            free: self.free@,
            generation: self.publications.generation,
            steal: self.receiver(id).steal_cursor,
        }
    }

    /// Where `turns` turns that came up dry lead receiver `id`.
    pub open spec fn goes_round(&self, id: int, turns: nat, to: Way) -> bool
        decreases turns,
    {
        if turns == 0 {
            to == self.way(id)
        } else {
            exists|from: Way, slot: Option<usize>|
                self.goes_round(id, (turns - 1) as nat, from) && #[trigger] self.dry_turn(
                    from,
                    to,
                    slot,
                )
        }
    }

    /// How receiver `id` came to drain the lane in `slot`: after some turns that
    /// came up dry it was the next one. It is put down behind the other lanes of
    /// its page.
    pub open spec fn came_to(
        &self,
        before: &Channel<T>,
        id: int,
        slot: int,
        value: T,
        turns: nat,
        at: Way,
        taken: Routing,
    ) -> bool {
        &&& before.goes_round(id, turns, at)
        &&& taken.routed(&at.routing, at.cursors, self.receiver(id).cursors, Some(slot as usize))
        &&& self.drained(before, id, slot, value)
        &&& self.put_down(&taken, at.free, before, slot)
        &&& later(
            at.generation,
            self.publications.generation,
            at.moves(Some(slot as usize)),
        )
        &&& self.receiver(id).steal_cursor == at.steal
    }

    /// Whether receiver `id` stands where its turns led it. To steal a value is to
    /// move work once more, and to go on behind the victim.
    pub open spec fn stays(
        &self,
        before: &Channel<T>,
        id: int,
        at: Way,
        result: Result<T, TryRecvError>,
    ) -> bool {
        let stolen = result is Ok && before.nothing_own(id);
        &&& self.way(id) == Way {
            generation: self.publications.generation,
            steal: self.receiver(id).steal_cursor,
            ..at
        }
        &&& self.publications.generation == if stolen {
            next_generation(at.generation)
        } else {
            at.generation
        }
        &&& !stolen ==> self.receiver(id).steal_cursor == at.steal
    }

    /// The way of receiver `id` through the lanes in at most `most` turns: where
    /// its cursors end, and how the lanes are routed.
    pub open spec fn traced(
        &self,
        before: &Channel<T>,
        id: int,
        result: Result<T, TryRecvError>,
        most: nat,
    ) -> bool {
        &&& self.others_stay(before, id)
        &&& !before.nothing_own(id) ==> self.receiver(id).cursors == before.receiver(id).cursors
        &&& {
            ||| {
                &&& result is Ok ==> self.same_unread(before)
                &&& exists|turns: nat, at: Way|
                    turns <= most && #[trigger] before.goes_round(id, turns, at) && self.stays(
                        before,
                        id,
                        at,
                        result,
                    )
            }
            ||| result is Ok && exists|
                slot: int,
                turns: nat,
                at: Way,
                taken: Routing,
            |
                turns < most && #[trigger] self.came_to(
                    before,
                    id,
                    slot,
                    result->Ok_0,
                    turns,
                    at,
                    taken,
                )
        }
    }

    /// More turns that came up dry.
    proof fn lemma_round_further(
        &self,
        mid: &Channel<T>,
        id: int,
        k: nat,
        j: nat,
        to: Way,
    )
        requires
            self.goes_round(id, k, mid.way(id)),
            mid.goes_round(id, j, to),
            mid.kept(self),
            mid.same_unread(self),
        ensures
            self.goes_round(id, k + j, to),
        decreases j,
    {
        if j > 0 {
            let (from, slot) = choose|from: Way, slot: Option<usize>|
                mid.goes_round(id, (j - 1) as nat, from) && #[trigger] mid.dry_turn(from, to, slot);
            self.lemma_round_further(mid, id, k, (j - 1) as nat, from);
            self.lemma_alive_same(mid);
            if let Some(slot) = slot {
                assert(mid.unread_in(slot as int) == self.unread_in(slot as int));
                assert(lane_kept(self.lanes@[slot as int], mid.lanes@[slot as int]));
            }
            assert(self.dry_turn(from, to, slot));
        }
    }

    /// The way of a receiver goes on where turns that came up dry led it.
    #[verifier::rlimit(60)]
    #[verifier::spinoff_prover]
    proof fn lemma_traced_further(
        &self,
        mid: &Channel<T>,
        after: &Channel<T>,
        id: int,
        result: Result<T, TryRecvError>,
        k: nat,
        most: nat,
    )
        requires
            mid.kept(self),
            mid.still(self, id),
            *mid == *self || self.nothing_own(id),
            mid.others_stay(self, id),
            self.goes_round(id, k, mid.way(id)),
            after.traced(mid, id, result, most),
        ensures
            after.traced(self, id, result, k + most),
    {
        assert(mid.staged_by(id) == self.staged_by(id));
        assert(mid.same_unread(self));
        if result is Ok && exists|
            slot: int,
            turns: nat,
            at: Way,
            taken: Routing,
        |
            turns < most && #[trigger] after.came_to(
                mid,
                id,
                slot,
                result->Ok_0,
                turns,
                at,
                taken,
            ) {
            let (slot, turns, at, taken) = choose|
                slot: int,
                turns: nat,
                at: Way,
                taken: Routing,
            |
                turns < most && #[trigger] after.came_to(
                    mid,
                    id,
                    slot,
                    result->Ok_0,
                    turns,
                    at,
                    taken,
                );
            self.lemma_round_further(mid, id, k, turns, at);
            self.lemma_drained_since(mid, after, id, slot, result->Ok_0);
            assert(mid.unread_in(slot) == self.unread_in(slot));
            assert(mid.lanes@[slot] == self.lanes@[slot]);
            assert(after.came_to(self, id, slot, result->Ok_0, k + turns, at, taken));
        } else {
            let (turns, at) = choose|turns: nat, at: Way|
                turns <= most && #[trigger] mid.goes_round(id, turns, at) && after.stays(
                    mid,
                    id,
                    at,
                    result,
                );
            self.lemma_round_further(mid, id, k, turns, at);
            assert(after.stays(self, id, at, result));
            assert forall|t: int| result is Ok implies #[trigger] after.unread_in(t)
                == self.unread_in(t) by {
                assert(mid.unread_in(t) == self.unread_in(t));
            }
        }
    }

    /// A receiver that found nothing stands where its turns led it.
    proof fn lemma_stays(
        &self,
        after: &Channel<T>,
        id: int,
        result: Result<T, TryRecvError>,
        most: nat,
    ) -> (turns: nat)
        requires
            after.traced(self, id, result, most),
            result is Err,
        ensures
            turns <= most,
            self.goes_round(id, turns, after.way(id)),
    {
        let (turns, at) = choose|turns: nat, at: Way|
            turns <= most && #[trigger] self.goes_round(id, turns, at) && after.stays(
                self,
                id,
                at,
                result,
            );
        assert(after.way(id) == at);
        turns
    }

    /// More turns are allowed.
    proof fn lemma_traced_within(
        &self,
        after: &Channel<T>,
        id: int,
        result: Result<T, TryRecvError>,
        n: nat,
        m: nat,
    )
        requires
            after.traced(self, id, result, n),
            n <= m,
        ensures
            after.traced(self, id, result, m),
    {
        if result is Ok && exists|
            slot: int,
            turns: nat,
            at: Way,
            taken: Routing,
        |
            turns < n && #[trigger] after.came_to(
                self,
                id,
                slot,
                result->Ok_0,
                turns,
                at,
                taken,
            ) {
        } else {
            let (turns, at) = choose|turns: nat, at: Way|
                turns <= n && #[trigger] self.goes_round(id, turns, at) && after.stays(
                    self,
                    id,
                    at,
                    result,
                );
            assert(turns <= m);
        }
    }

    /// Carrying out effects does not change where a receiver stands.
    proof fn lemma_traced_carried(
        &self,
        mid: &Channel<T>,
        after: &Channel<T>,
        id: int,
        result: Result<T, TryRecvError>,
        effects: Effects,
        most: nat,
    )
        requires
            mid.traced(self, id, result, most),
            after.carried_out(mid, effects),
            after.same_unread(mid),
            after.same_staged(mid),
        ensures
            after.traced(self, id, result, most),
    {
        assert(after.others_stay(self, id));
        if result is Ok && exists|
            slot: int,
            turns: nat,
            at: Way,
            taken: Routing,
        |
            turns < most && #[trigger] mid.came_to(
                self,
                id,
                slot,
                result->Ok_0,
                turns,
                at,
                taken,
            ) {
            let (slot, turns, at, taken) = choose|
                slot: int,
                turns: nat,
                at: Way,
                taken: Routing,
            |
                turns < most && #[trigger] mid.came_to(
                    self,
                    id,
                    slot,
                    result->Ok_0,
                    turns,
                    at,
                    taken,
                );
            self.lemma_drained_further(mid, after, id, slot, result->Ok_0);
            assert(after.came_to(self, id, slot, result->Ok_0, turns, at, taken));
        } else {
            let (turns, at) = choose|turns: nat, at: Way|
                turns <= most && #[trigger] self.goes_round(id, turns, at) && mid.stays(
                    self,
                    id,
                    at,
                    result,
                );
            assert(self.goes_round(id, turns, at) && after.stays(self, id, at, result));
            assert forall|t: int| result is Ok implies #[trigger] after.unread_in(t)
                == self.unread_in(t) by {
                assert(mid.unread_in(t) == self.unread_in(t));
            }
        }
    }

    /// Where receiver `id` takes a value from. Staged work comes first: its own,
    /// then what was left behind. Next it drains a batch from a ring. Only when
    /// the rings are empty does it steal.
    pub open spec fn took(&self, before: &Channel<T>, id: int, value: T) -> bool {
        ||| {
            &&& self.took_staged(before, id, value)
            &&& self.same_unread(before)
            &&& before.nothing_own(id) ==> before.rings_empty()
            &&& !before.nothing_own(id) ==> self.lanes@ == before.lanes@ && self.routing
                == before.routing
            &&& self.settled(before, None)
            &&& self.upkeep() <= before.upkeep()
        }
        ||| {
            &&& before.nothing_own(id)
            &&& exists|slot: int| #[trigger]
                self.drained(before, id, slot, value) && self.served(before, id, slot)
                    && self.settled(before, Some(slot))
            &&& self.upkeep() <= before.upkeep() + 1
        }
    }

    /// What a look for a value returns and does.
    ///
    /// A value leaves the channel. `Disconnected` is final: nothing is left and
    /// no sender is alive. `Empty` is exact while a sender is alive, nothing is
    /// there and every lane is idle; otherwise it is transient and has reduced
    /// the upkeep that stands between receivers and values. A receiver that
    /// finds nothing had nothing staged and left nothing behind unseen.
    pub open spec fn looked(
        &self,
        before: &Channel<T>,
        id: int,
        result: Result<T, TryRecvError>,
    ) -> bool {
        &&& self.kept(before)
        &&& self.dry_lanes() <= before.dry_lanes()
        &&& result is Err ==> before.nothing_own(id) && self.settled(before, None)
        &&& match result {
            Ok(value) => self.gave(before, value) && self.took(before, id, value),
            Err(TryRecvError::Empty) => {
                &&& self.contents() == before.contents()
                &&& self.same_staged(before)
                &&& self.same_unread(before)
                &&& self.upkeep() <= before.upkeep()
                &&& self.upkeep() < before.upkeep() || (before.contents() == Multiset::<
                    T,
                >::empty() && before.live_senders > 0 && self.at_rest())
            },
            Err(TryRecvError::Disconnected) => {
                &&& self.contents() == before.contents()
                &&& self.same_staged(before)
                &&& self.same_unread(before)
                &&& before.contents() == Multiset::<T>::empty()
                &&& before.live_senders == 0
                &&& self.registered_lanes == 0
                &&& self.upkeep() == 0
            },
        }
    }

    /// Whether all senders are gone and every lane is retired.
    fn is_drained(&self) -> (drained: bool)
        ensures
            drained == (self.live_senders == 0 && self.registered_lanes == 0),
    {
        self.live_senders == 0 && self.registered_lanes == 0
    }

    /// Judge a scan that found nothing since the generation was read.
    fn empty_scan_state(&self, generation: usize) -> (scan: EmptyScan)
        ensures
            scan == (if self.publications.generation != generation {
                EmptyScan::Changed
            } else if self.publications.in_flight != 0 {
                EmptyScan::Publishing
            } else if self.live_senders == 0 && self.registered_lanes == 0 {
                EmptyScan::Drained
            } else {
                EmptyScan::Open
            }),
    {
        if self.publications.changed_since(generation) {
            return EmptyScan::Changed;
        }
        if self.publications.is_in_flight() {
            return EmptyScan::Publishing;
        }
        if !self.is_drained() {
            return EmptyScan::Open;
        }
        if self.publications.is_in_flight() {
            return EmptyScan::Publishing;
        }
        if self.publications.changed_since(generation) {
            return EmptyScan::Changed;
        }
        EmptyScan::Drained
    }

    /// When no lane is in sight and nothing is staged, the channel is empty, and
    /// no lane is left once the last sender is gone.
    proof fn lemma_nothing_there(&self)
        requires
            self.inv(None),
            self.receiver_alive,
            self.routing.ready@ == Set::<int>::empty(),
            self.routing.idle(),
            self.unstaged(),
        ensures
            self.contents() == Multiset::<T>::empty(),
            self.live_senders == 0 ==> self.registered_lanes == 0,
            self.at_rest(),
    {
        assert forall|slot: int| !self.routing.slots().contains(slot) by {
            if self.routing.queued(slot) {
                let p = slot / 64;
                let lanes = self.routing.pages@[p].lanes@;
                let i = choose|i: int| 0 <= i < lanes.len() && lanes[i] == slot;
                assert(lanes.len() > 0);
                assert(self.routing.listed(p));
                assert(self.routing.work_groups@[p / 64].bits == 0);
                crate::bits::lemma_zero();
            }
        }
        assert forall|slot: int| !#[trigger] self.pending(slot) by {
            if self.pending(slot) {
                assert(self.routing.slots().contains(slot));
            }
        }
        lemma_bag_empty::<T>();
        assert forall|k: int| 0 <= k < lane_bags(self.lanes@).len() implies #[trigger] lane_bags(
            self.lanes@,
        )[k] == Multiset::<T>::empty() by {
            if self.lanes@[k] is Some {
                assert(!self.pending(k));
                assert(self.lanes@[k]->Some_0.ring@ =~= Seq::<T>::empty());
            }
        }
        lemma_total_empty(lane_bags(self.lanes@));
        assert(self.contents() =~= Multiset::<T>::empty());
        if self.live_senders == 0 {
            lemma_count_zero(connected(self.lanes@));
            assert forall|i: int| 0 <= i < taken_places(
                self.lanes@,
            ).len() implies !#[trigger] taken_places(self.lanes@)[i] by {
                if self.lanes@[i] is Some {
                    assert(!connected(self.lanes@)[i]);
                    assert(!self.pending(i));
                }
            }
            lemma_count_zero(taken_places(self.lanes@));
        }
    }

    /// What looking for a value has left as it was.
    pub open spec fn still(&self, start: &Channel<T>, id: int) -> bool {
        &&& self.lanes@.len() == start.lanes@.len()
        &&& self.settled(start, None)
        &&& self.same_staged(start)
        &&& self.untouched(start)
        &&& self.receiver(id).steal_cursor == start.receiver(id).steal_cursor
    }

    /// What is drained after a look that took nothing might have been drained at
    /// once.
    proof fn lemma_drained_since(
        &self,
        mid: &Channel<T>,
        after: &Channel<T>,
        id: int,
        slot: int,
        value: T,
    )
        requires
            mid.kept(self),
            mid.still(self, id),
            after.drained(mid, id, slot, value),
        ensures
            after.drained(self, id, slot, value),
    {
        assert(mid.unread_in(slot) == self.unread_in(slot));
        assert(mid.lanes@[slot] == self.lanes@[slot]);
        assert forall|t: int| t != slot implies #[trigger] after.unread_in(t) == self.unread_in(
            t,
        ) by {
            assert(mid.unread_in(t) == self.unread_in(t));
        }
        assert forall|k: int| k != id implies #[trigger] after.staged_by(k) == self.staged_by(
            k,
        ) by {
            assert(mid.staged_by(k) == self.staged_by(k));
        }
    }

    /// What is taken after a look that took nothing might have been taken at
    /// once.
    proof fn lemma_took_further(&self, mid: &Channel<T>, after: &Channel<T>, id: int, value: T)
        requires
            mid.kept(self),
            mid.still(self, id),
            *mid == *self || (self.comes_up_dry(id) && self.nothing_own(id)),
            mid.upkeep() <= self.upkeep(),
            after.took(mid, id, value),
        ensures
            after.took(self, id, value),
    {
        assert(mid.staged_by(id) == self.staged_by(id));
        if mid.nothing_own(id) && after.upkeep() <= mid.upkeep() + 1 && exists|slot: int|
            #[trigger] after.drained(mid, id, slot, value) && after.served(mid, id, slot)
                && after.settled(mid, Some(slot)) {
            let slot = choose|slot: int| #[trigger]
                after.drained(mid, id, slot, value) && after.served(mid, id, slot)
                    && after.settled(mid, Some(slot));
            self.lemma_drained_since(mid, after, id, slot, value);
            self.lemma_settled_further(mid, after, None, Some(slot));
            assert(after.served(self, id, slot));
        } else {
            self.lemma_settled_further(mid, after, None, None);
            assert forall|t: int| #[trigger] after.unread_in(t) == self.unread_in(t) by {
                assert(mid.unread_in(t) == self.unread_in(t));
            }
            assert forall|k: int| #[trigger] mid.staged_by(k) == self.staged_by(k) by {}
            if self.nothing_own(id) {
                assert forall|t: int| (#[trigger] self.unread_in(t)).len() == 0 by {
                    assert(mid.unread_in(t) == self.unread_in(t));
                }
                let p = choose|p: int| #[trigger] after.stole_from(mid, id, p, value);
                self.lemma_alive_same(mid);
                let victim = self.alive()[p];
                let n = self.alive().len() as int;
                let start = self.receiver(id).steal_cursor as int % n;
                assert forall|q: int|
                    #![trigger self.alive()[q]]
                    0 <= q < n && self.alive()[q] != id && turns(start, q, n) < turns(
                        start,
                        p,
                        n,
                    ) implies self.staged_by(self.alive()[q]).len() == 0 by {
                    assert(mid.staged_by(mid.alive()[q]).len() == 0);
                }
                assert(self.is_victim(id, p));
                assert forall|k: int| k != id && k != victim implies #[trigger] after.staged_by(k)
                    == self.staged_by(k) by {
                    assert(mid.staged_by(k) == self.staged_by(k));
                }
                assert(mid.staged_by(victim) == self.staged_by(victim));
                assert(after.stole(self, id, victim, value));
                assert(after.stole_from(self, id, p, value));
            } else {
                assert forall|k: int| k != id implies #[trigger] after.staged_by(k)
                    == self.staged_by(k) || self.staged_by(id).len() == 0 by {
                    assert(mid.staged_by(k) == self.staged_by(k));
                }
                assert forall|k: int| k != -1 && self.staged_by(id).len() == 0 implies
                    #[trigger] after.staged_by(k) == self.staged_by(k) by {
                    assert(mid.staged_by(k) == self.staged_by(k));
                }
            }
        }
    }

    /// The same lanes hold the same values.
    proof fn lemma_same_lanes_unread(&self, after: &Channel<T>)
        requires
            after.lanes == self.lanes,
        ensures
            after.untouched(self),
    {
        assert forall|t: int| #[trigger] after.unread_in(t) == self.unread_in(t) by {}
    }

    /// Idle lanes hold no values.
    proof fn lemma_rings_empty(&self)
        requires
            self.inv(None),
            self.receiver_alive,
            self.at_rest(),
        ensures
            self.rings_empty(),
    {
        assert forall|slot: int| (#[trigger] self.unread_in(slot)).len() == 0 by {
            if self.present(slot) {
                assert(!self.pending(slot));
                assert(self.lanes@[slot] is Some);
            }
        }
    }

    /// Steps that leave things as they were, one after the other.
    proof fn lemma_still_further(&self, mid: &Channel<T>, after: &Channel<T>, id: int)
        requires
            mid.still(self, id),
            after.still(mid, id),
        ensures
            after.still(self, id),
    {
        self.lemma_settled_further(mid, after, None, None);
        assert forall|k: int| #[trigger] after.staged_by(k) == self.staged_by(k) by {
            assert(mid.staged_by(k) == self.staged_by(k));
        }
        assert forall|t: int| #[trigger] after.unread_in(t) == self.unread_in(t) by {
            assert(mid.unread_in(t) == self.unread_in(t));
        }
        assert forall|t: int| self.unread_in(t).len() > 0 implies #[trigger] after.lanes@[t]
            == self.lanes@[t] by {
            assert(mid.unread_in(t) == self.unread_in(t));
            assert(mid.lanes@[t] == self.lanes@[t]);
        }
    }

    /// A drain whose publication has ended.
    proof fn lemma_drained_further(
        &self,
        mid: &Channel<T>,
        after: &Channel<T>,
        id: int,
        slot: int,
        value: T,
    )
        requires
            mid.drained(self, id, slot, value),
            after.receivers == mid.receivers,
            after.staging == mid.staging,
            after.same_staged(mid),
            after.same_unread(mid),
        ensures
            after.drained(self, id, slot, value),
    {
        assert(after.unread_in(slot) == mid.unread_in(slot));
        assert forall|t: int| t != slot implies #[trigger] after.unread_in(t) == self.unread_in(
            t,
        ) by {
            assert(mid.unread_in(t) == self.unread_in(t));
        }
        assert(after.staged_by(id) == mid.staged_by(id));
        assert forall|k: int| k != id implies #[trigger] after.staged_by(k) == self.staged_by(
            k,
        ) by {
            assert(mid.staged_by(k) == self.staged_by(k));
        }
    }

    /// A look that found nothing after others that found nothing.
    proof fn lemma_missed_further(&self, mid: &Channel<T>, after: &Channel<T>, id: int)
        requires
            mid.still(self, id),
            after.same_staged(mid),
            after.same_unread(mid),
            after.settled(mid, None),
        ensures
            after.same_staged(self),
            after.same_unread(self),
            after.settled(self, None),
            mid.nothing_own(id) == self.nothing_own(id),
    {
        self.lemma_settled_further(mid, after, None, None);
        assert(mid.staged_by(id) == self.staged_by(id));
        assert forall|k: int| #[trigger] after.staged_by(k) == self.staged_by(k) by {
            assert(mid.staged_by(k) == self.staged_by(k));
        }
        assert forall|t: int| #[trigger] after.unread_in(t) == self.unread_in(t) by {
            assert(mid.unread_in(t) == self.unread_in(t));
        }
    }

    /// Carrying out effects leaves every value where it is.
    proof fn lemma_carried(&self, after: &Channel<T>, effects: Effects)
        requires
            after.carried_out(self, effects),
            effects.released matches Some(slot) ==> slot < self.lanes@.len(),
        ensures
            after.same_unread(self),
            after.same_staged(self),
            after.settled(self, None),
            (effects.released matches Some(slot) ==> self.unread_in(slot as int).len() == 0)
                ==> after.untouched(self),
    {
        self.lemma_same_staged(after);
        assert forall|t: int| #[trigger] after.unread_in(t) == self.unread_in(t) by {}
        assert forall|t: int| 0 <= t < self.lanes@.len() implies undisturbed(
            self.lanes@[t],
            #[trigger] after.lanes@[t],
        ) by {}
    }

    /// What looking for a value has done so far without finding one.
    spec fn missed(&self, start: &Channel<T>, id: int, looks: int) -> bool {
        &&& self.kept(start)
        &&& self.still(start, id)
        &&& self.contents() == start.contents()
        &&& self.data_waiters == start.data_waiters
        &&& self.upkeep() + looks <= start.upkeep()
    }

    /// A turn that came up dry follows others.
    proof fn lemma_turned(&self, id: int, k: nat, from: Way, to: Way, slot: Option<usize>)
        requires
            self.goes_round(id, k, from),
            self.dry_turn(from, to, slot),
        ensures
            self.goes_round(id, k + 1, to),
    {
        assert((k + 1 - 1) as nat == k);
    }

    /// A receiver that found no lane has made a turn.
    proof fn lemma_no_lane(
        &self,
        head: &Channel<T>,
        searched: &Channel<T>,
        after: &Channel<T>,
        id: int,
        k: nat,
    )
        requires
            head.kept(self),
            self.goes_round(id, k, head.way(id)),
            searched.routing == head.routing,
            searched.free == head.free,
            searched.publications == head.publications,
            searched.receiver(id).cursors == head.receiver(id).cursors,
            searched.receiver(id).steal_cursor == if head.lane_in_sight() {
                head.receiver(id).steal_cursor as int
            } else {
                head.past_search(head.receiver(id).steal_cursor)
            },
            after.free == searched.free,
            after.receiver(id).steal_cursor == searched.receiver(id).steal_cursor,
            after.routing.routed(
                &searched.routing,
                searched.receiver(id).cursors,
                after.receiver(id).cursors,
                None,
            ),
            later(
                searched.publications.generation,
                after.publications.generation,
                searched.way(id).moves(None),
            ),
        ensures
            self.goes_round(id, k + 1, after.way(id)),
    {
        self.lemma_alive_same(head);
        assert(self.dry_turn(head.way(id), after.way(id), None));
        self.lemma_turned(id, k, head.way(id), after.way(id), None);
    }

    /// A receiver that came to a lane without a value has made a turn.
    proof fn lemma_dry_lane(
        &self,
        at: Way,
        looked: &Channel<T>,
        emptied: &Channel<T>,
        after: &Channel<T>,
        id: int,
        slot: usize,
        k: nat,
    )
        requires
            looked.kept(self),
            looked.present(slot as int),
            self.goes_round(id, k, at),
            at.routing.in_sight(),
            looked.routing.routed(
                &at.routing,
                at.cursors,
                looked.receiver(id).cursors,
                Some(slot),
            ),
            later(
                at.generation,
                looked.publications.generation,
                at.routing.stale_met(at.cursors, Some(slot)) as int,
            ),
            looked.free@ == at.free,
            looked.receiver(id).steal_cursor == at.steal,
            self.unread_in(slot as int).len() == 0,
            emptied.routing == looked.routing,
            emptied.publications == looked.publications,
            emptied.free@ == freed(looked.free@, looked.lane(slot as int)),
            emptied.receivers == looked.receivers,
            *after == (Channel { publications: looked.publications.after_finish(), ..*emptied }),
        ensures
            self.goes_round(id, k + 1, after.way(id)),
    {
        at.routing.lemma_stale_met(at.cursors, Some(slot));
        lemma_later(
            at.generation,
            looked.publications.generation,
            at.routing.stale_met(at.cursors, Some(slot)) as int,
        );
        assert(lane_kept(self.lanes@[slot as int], looked.lanes@[slot as int]));
        assert(self.dry_turn(at, after.way(id), Some(slot)));
        self.lemma_turned(id, k, at, after.way(id), Some(slot));
    }

    /// How a receiver came to the lane that it drained.
    proof fn lemma_came_to(
        &self,
        at: Way,
        looked: &Channel<T>,
        emptied: &Channel<T>,
        after: &Channel<T>,
        id: int,
        slot: usize,
        value: T,
        k: nat,
        most: nat,
    )
        requires
            self.goes_round(id, k, at),
            k < most,
            self.nothing_own(id),
            looked.routing.routed(
                &at.routing,
                at.cursors,
                looked.receiver(id).cursors,
                Some(slot),
            ),
            later(
                at.generation,
                looked.publications.generation,
                at.routing.stale_met(at.cursors, Some(slot)) as int,
            ),
            looked.free@ == at.free,
            looked.receiver(id).steal_cursor == at.steal,
            looked.unread_in(slot as int) == self.unread_in(slot as int),
            looked.lanes@[slot as int] == self.lanes@[slot as int],
            emptied.put_down(&looked.routing, looked.free@, looked, slot as int),
            emptied.publications == looked.publications,
            emptied.receiver(id).cursors == looked.receiver(id).cursors,
            emptied.receiver(id).steal_cursor == looked.receiver(id).steal_cursor,
            *after == (Channel { publications: looked.publications.after_finish(), ..*emptied }),
            after.drained(self, id, slot as int, value),
            after.others_stay(self, id),
        ensures
            after.traced(self, id, Ok(value), most),
    {
        at.routing.lemma_stale_met(at.cursors, Some(slot));
        lemma_later(
            at.generation,
            looked.publications.generation,
            at.routing.stale_met(at.cursors, Some(slot)) as int,
        );
        let result: Result<T, TryRecvError> = Ok(value);
        assert(after.came_to(self, id, slot as int, result->Ok_0, k, at, looked.routing));
    }

    /// The way of a receiver that found nothing.
    proof fn lemma_found_nothing(&self, after: &Channel<T>, id: int, k: nat, most: nat)
        requires
            self.goes_round(id, k, after.way(id)),
            k <= most,
            self.nothing_own(id),
            after.others_stay(self, id),
        ensures
            forall|error: TryRecvError| #[trigger] after.traced(self, id, Err(error), most),
    {
        assert forall|error: TryRecvError| #[trigger] after.traced(self, id, Err(error), most) by {
            let result: Result<T, TryRecvError> = Err(error);
            assert(after.stays(self, id, after.way(id), result));
        }
    }

    /// The way of a receiver that took staged work.
    proof fn lemma_found_work(
        &self,
        head: &Channel<T>,
        after: &Channel<T>,
        id: int,
        value: T,
        k: nat,
        most: nat,
    )
        requires
            self.goes_round(id, k, head.way(id)),
            k <= most,
            *head == *self || self.nothing_own(id),
            head.nothing_own(id) == self.nothing_own(id),
            head.same_unread(self),
            after.same_unread(head),
            head.receivers@.len() == self.receivers@.len(),
            head.others_stay(self, id),
            after.others_stay(head, id),
            after.routing == head.routing,
            after.free == head.free,
            after.receiver(id).cursors == head.receiver(id).cursors,
            after.publications == if head.nothing_own(id) {
                head.publications.after_change()
            } else {
                head.publications
            },
            !head.nothing_own(id) ==> after.receiver(id).steal_cursor == head.receiver(
                id,
            ).steal_cursor,
        ensures
            after.traced(self, id, Ok(value), most),
    {
        let result: Result<T, TryRecvError> = Ok(value);
        assert(after.stays(self, id, head.way(id), result));
        assert(after.same_unread(self)) by {
            assert forall|t: int| #[trigger] after.unread_in(t) == self.unread_in(t) by {
                assert(head.unread_in(t) == self.unread_in(t));
            }
        }
        assert(after.others_stay(self, id)) by {
            assert forall|j: int|
                0 <= j < self.receivers@.len() && j != id && self.receivers@[j] is Some implies {
                &&& (#[trigger] after.receivers@[j]) is Some
                &&& after.receiver(j).cursors == self.receiver(j).cursors
                &&& after.receiver(j).steal_cursor == self.receiver(j).steal_cursor
            } by {
                assert(head.receivers@[j] is Some);
            }
        }
    }

    /// Look for a value: staged work first, then lanes.
    #[verifier::rlimit(40)]
    pub fn try_recv_inner(&mut self, id: usize) -> (r: (Result<T, TryRecvError>, Effects))
        requires
            old(self).wf(),
            old(self).receiver_alive,
            old(self).knows(id as int),
        ensures
            final(self).wf(),
            final(self).looked(old(self), id as int, r.0),
            final(self).traced(old(self), id as int, r.0, TRY_RECV_RETRIES as nat + 1),
            final(self).data_waiters == old(self).data_waiters,
            final(self).owes(old(self), r.1),
            !old(self).nothing_own(id as int) ==> r.1.released is None && r.1.wake is Nobody,
            r.0 == Err::<T, TryRecvError>(TryRecvError::Empty) && r.1.released is None
                && r.1.wake is Nobody ==> {
                ||| final(self).upkeep() + TRY_RECV_RETRIES + 1 <= old(self).upkeep()
                ||| {
                    &&& old(self).contents() == Multiset::<T>::empty()
                    &&& old(self).live_senders > 0
                    &&& final(self).at_rest()
                }
            },
            r.0 is Err ==> {
                &&& r.1.released matches Some(slot) ==> {
                    &&& final(self).unread_in(slot as int).len() == 0
                    &&& final(self).present(slot as int) ==> held(final(self).lane(slot as int))
                        == 0
                }
                &&& (r.1.released is Some || !(r.1.wake is Nobody)) ==> final(self).still(
                    old(self),
                    id as int,
                ) && old(self).comes_up_dry(id as int) && final(self).upkeep() < old(self).upkeep()
            },
    {
        let ghost start = *self;
        let ghost nothing = Effects { released: None, wake: Wake::Nobody };
        let mut attempt: usize = 0;
        proof {
            start.lemma_kept_same(self);
            start.lemma_owes_nothing(self, nothing);
        }
        while attempt <= TRY_RECV_RETRIES
            invariant
                start == *old(self),
                start.wf(),
                start.receiver_alive,
                start.knows(id as int),
                attempt <= TRY_RECV_RETRIES + 1,
                self.wf(),
                self.missed(&start, id as int, attempt as int),
                nothing == (Effects { released: None, wake: Wake::Nobody }),
                self.owes(&start, nothing),
                attempt == 0 ==> *self == start,
                attempt > 0 ==> start.nothing_own(id as int) && start.comes_up_dry(id as int),
                self.others_stay(&start, id as int),
                start.goes_round(id as int, attempt as nat, self.way(id as int)),
            decreases TRY_RECV_RETRIES + 1 - attempt,
        {
            let ghost head = *self;
            assert(self.receivers@[id as int] is Some <==> start.receivers@[id as int] is Some);
            let work = self.pop_work(id);
            proof {
                head.lemma_kept_same(self);
                head.lemma_owes_nothing(self, nothing);
                start.lemma_owes_further(&head, self, nothing);
                start.lemma_kept_further(&head, self);
            }
            let generation: usize = match work {
                WorkPop::Item(value) => {
                    proof {
                        head.lemma_same_lanes_unread(self);
                        head.lemma_settled_same(self);
                        start.lemma_settled_further(&head, self, None, None);
                        start.lemma_settled_dry(self, None);
                        if head.nothing_own(id as int) {
                            head.lemma_out_of_sight();
                            head.lemma_rings_empty();
                        }
                        start.lemma_took_further(&head, self, id as int, value);
                        assert(head.staged_by(id as int) == start.staged_by(id as int));
                        start.lemma_found_work(
                            &head,
                            self,
                            id as int,
                            value,
                            attempt as nat,
                            TRY_RECV_RETRIES as nat + 1,
                        );
                    }
                    return (Ok(value), Effects::none());
                },
                WorkPop::Empty { generation } => generation,
            };
            let ghost searched = *self;
            proof {
                head.lemma_same_lanes_unread(self);
                assert(head.staged_by(id as int) == start.staged_by(id as int));
            }
            let acquired = self.acquire_lane(id);
            let ghost looked = *self;
            proof {
                searched.lemma_same_lanes_unread(self);
                assert forall|k: int| #[trigger] self.staged_by(k) == head.staged_by(k) by {
                    assert(searched.staged_by(k) == head.staged_by(k));
                }
                assert(self.lanes == head.lanes);
                head.lemma_same_lanes_unread(self);
                head.lemma_settled_same(self);
                start.lemma_settled_further(&head, self, None, None);
                start.lemma_settled_dry(self, None);
                start.lemma_missed_further(&head, self, id as int);
                if !searched.lane_in_sight() {
                    searched.lemma_out_of_sight();
                    if let Some(slot) = acquired {
                        assert(looked.pending(slot as int));
                        assert(searched.pending(slot as int));
                    }
                } else {
                    start.lemma_still_further(&head, self, id as int);
                    let i = id as int;
                    if attempt == 0 {
                        assert(self.routing.routed(
                            &start.routing,
                            start.receiver(i).cursors,
                            self.receiver(i).cursors,
                            acquired,
                        ));
                        assert(start.leads_to(i, acquired, self.receiver(i).cursors));
                    }
                    assert(acquired is None ==> start.comes_up_dry(i));
                    if let Some(slot) = acquired {
                        assert(self.pending(slot as int));
                        assert(self.unread_in(slot as int) == start.unread_in(slot as int));
                    }
                }
                searched.lemma_kept_same(self);
                searched.lemma_owes_nothing(self, nothing);
                start.lemma_owes_further(&searched, self, nothing);
                start.lemma_kept_further(&searched, self);
            }
            match acquired {
                None => {
                    proof {
                        let i = id as int;
                        let most = TRY_RECV_RETRIES as nat + 1;
                        start.lemma_no_lane(&head, &searched, self, i, attempt as nat);
                        start.lemma_found_nothing(self, i, attempt as nat + 1, most);
                    }
                    match self.empty_scan_state(generation) {
                        EmptyScan::Changed => {
                            if attempt == TRY_RECV_RETRIES {
                                return (Err(TryRecvError::Empty), Effects::none());
                            }
                        },
                        EmptyScan::Publishing => {
                            return (Err(TryRecvError::Empty), Effects::none());
                        },
                        EmptyScan::Open => {
                            proof {
                                searched.lemma_nothing_there();
                                assert forall|t: int| !#[trigger] self.pending(t) by {
                                    assert(!searched.pending(t));
                                }
                            }
                            return (Err(TryRecvError::Empty), Effects::none());
                        },
                        EmptyScan::Drained => {
                            proof {
                                searched.lemma_nothing_there();
                                searched.lemma_out_of_sight();
                            }
                            return (Err(TryRecvError::Disconnected), Effects::none());
                        },
                    }
                },
                Some(slot) => {
                    let drained = self.drain_lane(id, slot);
                    let ghost emptied = *self;
                    self.publications.finish();
                    proof {
                        emptied.lemma_published(self, None);
                        emptied.lemma_kept_same(self);
                        start.lemma_kept_further(&looked, &emptied);
                        start.lemma_kept_further(&emptied, self);
                        emptied.lemma_same_staged(self);
                        emptied.lemma_same_lanes_unread(self);
                        emptied.lemma_settled_same(self);
                        start.lemma_due_same(&emptied, self);
                    }
                    match drained {
                        LaneDrain::Item { value, effects } => {
                            proof {
                                let i = id as int;
                                let s = slot as int;
                                looked.lemma_drained_further(&emptied, self, i, s, value);
                                start.lemma_drained_since(&looked, self, i, s, value);
                                looked.lemma_settled_further(&emptied, self, Some(s), None);
                                looked.lemma_settled_dry(self, Some(s));
                                start.lemma_settled_further(&looked, self, None, Some(s));
                                start.lemma_settled_dry(self, Some(s));
                                assert(self.served(&start, i, s));
                                start.lemma_owes_further(&looked, &emptied, effects);
                                assert(looked.unread_in(s) == start.unread_in(s));
                                assert(looked.lanes@[s] == start.lanes@[s]);
                                start.lemma_came_to(
                                    head.way(i),
                                    &looked,
                                    &emptied,
                                    self,
                                    i,
                                    slot,
                                    value,
                                    attempt as nat,
                                    TRY_RECV_RETRIES as nat + 1,
                                );
                            }
                            return (Ok(value), effects);
                        },
                        LaneDrain::Empty(effects) => {
                            proof {
                                assert forall|k: int| #[trigger] self.staged_by(k)
                                    == looked.staged_by(k) by {
                                    assert(emptied.staged_by(k) == looked.staged_by(k));
                                }
                                assert forall|t: int| #[trigger] self.unread_in(t)
                                    == looked.unread_in(t) by {
                                    assert(emptied.unread_in(t) == looked.unread_in(t));
                                }
                                looked.lemma_settled_further(&emptied, self, None, None);
                                start.lemma_still_further(&looked, self, id as int);
                                start.lemma_settled_dry(self, None);
                                start.lemma_owes_further(&looked, &emptied, effects);
                                let i = id as int;
                                let s = slot as int;
                                assert(looked.pending(s));
                                assert(looked.unread_in(s) == start.unread_in(s));
                                start.lemma_dry_lane(
                                    head.way(i),
                                    &looked,
                                    &emptied,
                                    self,
                                    i,
                                    slot,
                                    attempt as nat,
                                );
                                let most = TRY_RECV_RETRIES as nat + 1;
                                start.lemma_found_nothing(self, i, attempt as nat + 1, most);
                            }
                            if effects.has_effect() {
                                return (Err(TryRecvError::Empty), effects);
                            }
                        },
                    }
                },
            }
            attempt += 1;
        }
        proof {
            start.lemma_settled_dry(self, None);
        }
        (Err(TryRecvError::Empty), Effects::none())
    }
}

impl<T> Channel<T> {
    /// What carrying out the effects of a drain does: the sender of the released
    /// lane is told, and receivers are woken.
    pub open spec fn carried_out(&self, before: &Channel<T>, effects: Effects) -> bool {
        &&& self.lanes@ == match effects.released {
            Some(slot) => match before.lanes@[slot as int] {
                Some(lane) => before.lanes@.update(
                    slot as int,
                    Some(
                        Lane {
                            signal: LaneSignal {
                                space_waiter: lane.signal.space_waiter.after_notify(),
                                ..lane.signal
                            },
                            ..lane
                        },
                    ),
                ),
                None => before.lanes@,
            },
            None => before.lanes@,
        }
        &&& self.data_waiters == effects.wake.told(before.data_waiters)
        &&& self.free == before.free
        &&& self.routing == before.routing
        &&& self.receivers == before.receivers
        &&& self.free_receivers == before.free_receivers
        &&& self.staging == before.staging
        &&& self.orphaned == before.orphaned
        &&& self.publications == before.publications
        &&& self.registered_lanes == before.registered_lanes
        &&& self.live_senders == before.live_senders
        &&& self.live_receivers == before.live_receivers
        &&& self.receiver_alive == before.receiver_alive
        &&& self.same_channel(before)
    }

    /// A lane's space waiter does not matter to the invariant.
    pub(super) proof fn lemma_signal_changed(
        &self,
        after: &Channel<T>,
        slot: int,
        signal: LaneSignal,
    )
        requires
            self.wf(),
            self.present(slot),
            signal.pending == self.lane(slot).signal.pending,
            signal.page == self.lane(slot).signal.page,
            signal.bit == self.lane(slot).signal.bit,
            after.lanes@ == self.lanes@.update(
                slot,
                Some(Lane { signal, ..self.lane(slot) }),
            ),
            after.data_waiters.wf(),
            after.data_waiters.waiters == self.data_waiters.waiters,
            after.free == self.free,
            after.routing == self.routing,
            after.receivers == self.receivers,
            after.free_receivers == self.free_receivers,
            after.staging == self.staging,
            after.orphaned == self.orphaned,
            after.publications == self.publications,
            after.registered_lanes == self.registered_lanes,
            after.live_senders == self.live_senders,
            after.live_receivers == self.live_receivers,
            after.receiver_alive == self.receiver_alive,
            after.same_channel(self),
        ensures
            after.wf(),
            after.contents() == self.contents(),
            after.upkeep() == self.upkeep(),
            after.kept(self),
    {
        assert(self.lanes@[slot] is Some);
        assert(connected(after.lanes@) =~= connected(self.lanes@));
        assert(taken_places(after.lanes@) =~= taken_places(self.lanes@));
        assert(dry(after.lanes@) =~= dry(self.lanes@));
        assert(lane_bags(after.lanes@) =~= lane_bags(self.lanes@));
        assert(after.tickets() == self.tickets());
        assert forall|t: u64| #[trigger] after.tickets().count(t) == if after.staging.holds(t) {
            1nat
        } else {
            0nat
        } by {
            assert(self.tickets().count(t) == if self.staging.holds(t) {
                1nat
            } else {
                0nat
            });
        }
        assert forall|i: int| 0 <= i < after.free@.len() implies (
        #[trigger] after.free@[i]).slot < after.lanes@.len()
            && after.lanes@[after.free@[i].slot as int] is None by {
            assert(self.lanes@[self.free@[i].slot as int] is None);
        }
        assert forall|t: int| #[trigger] after.pending(t) == self.pending(t) by {}
        if self.receiver_alive {
            assert forall|t: int| #[trigger] after.routing.slots().contains(t) implies
                after.pending(t) by {
                assert(self.routing.slots().contains(t));
            }
            assert forall|t: int| #[trigger] after.pending(t) implies
                after.routing.slots().contains(t) by {
                assert(self.pending(t));
            }
        }
        assert forall|t: int| 0 <= t < self.lanes@.len() implies lane_kept(
            self.lanes@[t],
            #[trigger] after.lanes@[t],
        ) by {
            if self.lanes@[t] is Some {
                let values = self.lanes@[t]->Some_0.ring@;
                assert(values =~= values.skip(0));
            }
        }
    }

    /// Who waits for data does not matter to the rest of the invariant.
    pub(super) proof fn lemma_waiters_changed(&self, after: &Channel<T>)
        requires
            self.wf(),
            *after == (Channel { data_waiters: after.data_waiters, ..*self }),
            after.data_waiters.wf(),
        ensures
            after.wf(),
            after.contents() == self.contents(),
            after.upkeep() == self.upkeep(),
            after.data_waiters.waiters == self.data_waiters.waiters ==> after.kept(self),
    {
        assert forall|t: int| #[trigger] after.pending(t) == self.pending(t) by {}
        if self.receiver_alive {
            assert forall|t: int| #[trigger] after.routing.slots().contains(t) implies
                after.pending(t) by {
                assert(self.routing.slots().contains(t));
            }
            assert forall|t: int| #[trigger] after.pending(t) implies
                after.routing.slots().contains(t) by {
                assert(self.pending(t));
            }
        }
        assert(after.tickets() == self.tickets());
        assert forall|t: u64| #[trigger] after.tickets().count(t) == if after.staging.holds(t) {
            1nat
        } else {
            0nat
        } by {
            assert(self.tickets().count(t) == if self.staging.holds(t) {
                1nat
            } else {
                0nat
            });
        }
        if after.data_waiters.waiters == self.data_waiters.waiters {
            self.lemma_kept_same(after);
        }
    }

    /// Carry out the effects of a drain.
    fn apply_effects(&mut self, effects: Effects)
        requires
            old(self).wf(),
            effects.released matches Some(slot) ==> slot < old(self).lanes@.len(),
        ensures
            final(self).wf(),
            final(self).carried_out(old(self), effects),
            final(self).contents() == old(self).contents(),
            final(self).upkeep() == old(self).upkeep(),
            final(self).kept(old(self)),
    {
        let ghost before = *self;
        proof {
            before.lemma_kept_same(self);
        }
        if let Some(slot) = effects.released {
            let gone: bool = self.lanes[slot].is_none();
            if !gone {
                let lane = self.lanes[slot].as_mut().unwrap();
                let _ = lane.signal.space_waiter.notify();
                proof {
                    let s = slot as int;
                    let signal = self.lane(s).signal;
                    assert(self.lanes@ =~= before.lanes@.update(
                        s,
                        Some(Lane { signal, ..before.lane(s) }),
                    ));
                    before.lemma_signal_changed(self, s, signal);
                }
            }
        }
        let ghost told = *self;
        match effects.wake {
            Wake::Nobody => {},
            Wake::One => {
                let _ = self.data_waiters.notify_one();
                proof {
                    told.lemma_waiters_changed(self);
                    before.lemma_kept_further(&told, self);
                }
            },
            Wake::All => {
                let _ = self.data_waiters.notify_all();
                proof {
                    told.lemma_waiters_changed(self);
                    before.lemma_kept_further(&told, self);
                }
            },
        }
    }

    /// Receive one value without blocking. A look that only did upkeep is
    /// repeated once.
    fn try_recv(&mut self, id: usize) -> (result: Result<T, TryRecvError>)
        requires
            old(self).wf(),
            old(self).receiver_alive,
            old(self).knows(id as int),
        ensures
            final(self).wf(),
            final(self).answers(old(self), id as int, result),
    {
        let ghost start = *self;
        proof {
            start.lemma_kept_same(self);
            start.lemma_announced_nothing(self);
        }
        let mut attempt: usize = 0;
        let ghost mut turns: nat = 0;
        while attempt < TRY_RECV_RETRIES
            invariant
                start == *old(self),
                start.wf(),
                start.receiver_alive,
                start.knows(id as int),
                attempt <= TRY_RECV_RETRIES,
                self.wf(),
                self.kept(&start),
                self.announced(&start),
                self.gave_all_back(&start),
                self.contents() == start.contents(),
                self.upkeep() + attempt <= start.upkeep(),
                attempt == 0 ==> *self == start,
                attempt > 0 ==> start.comes_up_dry(id as int) && start.nothing_own(id as int),
                self.still(&start, id as int),
                self.others_stay(&start, id as int),
                start.goes_round(id as int, turns, self.way(id as int)),
                attempt == 0 ==> turns == 0,
                turns <= TRY_RECV_RETRIES + 1,
            decreases TRY_RECV_RETRIES - attempt,
        {
            let ghost head = *self;
            assert(self.receivers@[id as int] is Some <==> start.receivers@[id as int] is Some);
            let (result, effects) = self.try_recv_inner(id);
            let ghost looked = *self;
            self.apply_effects(effects);
            proof {
                head.lemma_kept_further(&looked, self);
                start.lemma_kept_further(&head, self);
                start.lemma_announced(&head, &looked, self, effects);
                looked.lemma_rest_kept(self, effects);
                start.lemma_answer_carried(&head, &looked, self, id as int, result, effects);
                looked.lemma_carried(self, effects);
                let most = TRY_RECV_RETRIES as nat + 1;
                start.lemma_traced_further(&head, &looked, id as int, result, turns, most);
                start.lemma_traced_carried(&looked, self, id as int, result, effects, most);
                start.lemma_traced_within(self, id as int, result, most, 2 * most);
                if result is Err {
                    turns =
                    start.lemma_stays(self, id as int, result, most);
                }
            }
            match result {
                Ok(value) => {
                    return Ok(value);
                },
                Err(TryRecvError::Disconnected) => {
                    return Err(TryRecvError::Disconnected);
                },
                Err(TryRecvError::Empty) => {
                    if !effects.has_effect() {
                        return Err(TryRecvError::Empty);
                    }
                },
            }
            attempt += 1;
        }
        let ghost head = *self;
        assert(self.receivers@[id as int] is Some <==> start.receivers@[id as int] is Some);
        let (result, effects) = self.try_recv_inner(id);
        let ghost looked = *self;
        self.apply_effects(effects);
        proof {
            head.lemma_kept_further(&looked, self);
            start.lemma_kept_further(&head, self);
            start.lemma_announced(&head, &looked, self, effects);
            looked.lemma_rest_kept(self, effects);
            start.lemma_answer_carried(&head, &looked, self, id as int, result, effects);
            looked.lemma_carried(self, effects);
            let most = TRY_RECV_RETRIES as nat + 1;
            start.lemma_traced_further(&head, &looked, id as int, result, turns, most);
            start.lemma_traced_carried(&looked, self, id as int, result, effects, turns + most);
            start.lemma_traced_within(self, id as int, result, turns + most, 2 * most);
        }
        result
    }

    /// The answer of a look stands when its effects have been carried out.
    proof fn lemma_answer_carried(
        &self,
        head: &Channel<T>,
        looked: &Channel<T>,
        after: &Channel<T>,
        id: int,
        result: Result<T, TryRecvError>,
        effects: Effects,
    )
        requires
            head.kept(self),
            head.still(self, id),
            *head == *self || (self.comes_up_dry(id) && self.nothing_own(id)),
            head.upkeep() <= self.upkeep(),
            !head.nothing_own(id) ==> effects.released is None && effects.wake is Nobody,
            looked.looked(head, id, result),
            after.upkeep() == looked.upkeep(),
            effects.released matches Some(slot) ==> slot < looked.lanes@.len(),
            result is Err ==> {
                &&& effects.released matches Some(slot) ==> looked.unread_in(
                    slot as int,
                ).len() == 0
                &&& (effects.released is Some || !(effects.wake is Nobody)) ==> looked.still(
                    head,
                    id,
                )
            },
            after.carried_out(looked, effects),
        ensures
            match result {
                Ok(value) => after.took(self, id, value),
                Err(_) => {
                    &&& self.nothing_own(id)
                    &&& after.settled(self, None)
                    &&& after.same_staged(self)
                    &&& after.same_unread(self)
                    &&& (effects.released is Some || !(effects.wake is Nobody)) ==> after.still(
                        self,
                        id,
                    )
                },
            },
            after.dry_lanes() <= self.dry_lanes(),
    {
        looked.lemma_carried(after, effects);
        self.lemma_settled_dry(head, None);
        looked.lemma_settled_dry(after, None);
        assert forall|t: int| #[trigger] after.unread_in(t) == looked.unread_in(t) by {}
        assert forall|k: int| #[trigger] after.staged_by(k) == looked.staged_by(k) by {}
        match result {
            Ok(value) => {
                self.lemma_took_further(head, looked, id, value);
                self.lemma_took_carried(looked, after, id, value);
            },
            Err(_) => {
                self.lemma_missed_further(head, looked, id);
                self.lemma_settled_further(looked, after, None, None);
                assert forall|k: int| #[trigger] after.staged_by(k) == self.staged_by(k) by {
                    assert(looked.staged_by(k) == self.staged_by(k));
                }
                assert forall|t: int| #[trigger] after.unread_in(t) == self.unread_in(t) by {
                    assert(looked.unread_in(t) == self.unread_in(t));
                }
                if effects.released is Some || !(effects.wake is Nobody) {
                    self.lemma_still_further(head, looked, id);
                    self.lemma_still_further(looked, after, id);
                }
            },
        }
    }

    /// Where a value was taken from stands when nothing moves any more.
    proof fn lemma_took_carried(&self, mid: &Channel<T>, after: &Channel<T>, id: int, value: T)
        requires
            mid.took(self, id, value),
            after.same_staged(mid),
            after.same_unread(mid),
            after.receivers == mid.receivers,
            after.staging == mid.staging,
            after.settled(mid, None),
            mid.lanes@.len() == self.lanes@.len(),
            after.upkeep() == mid.upkeep(),
            !self.nothing_own(id) ==> after.lanes@ == mid.lanes@ && after.routing == mid.routing,
        ensures
            after.took(self, id, value),
    {
        if self.nothing_own(id) && mid.upkeep() <= self.upkeep() + 1 && exists|slot: int|
            #[trigger] mid.drained(self, id, slot, value) && mid.served(self, id, slot)
                && mid.settled(self, Some(slot)) {
            let slot = choose|slot: int| #[trigger]
                mid.drained(self, id, slot, value) && mid.served(self, id, slot) && mid.settled(
                    self,
                    Some(slot),
                );
            self.lemma_settled_further(mid, after, Some(slot), None);
            self.lemma_drained_further(mid, after, id, slot, value);
            assert(after.served(self, id, slot));
        } else {
            self.lemma_settled_further(mid, after, None, None);
            assert forall|t: int| #[trigger] after.unread_in(t) == self.unread_in(t) by {
                assert(mid.unread_in(t) == self.unread_in(t));
            }
            assert forall|k: int| #[trigger] after.staged_by(k) == mid.staged_by(k) by {}
            if self.nothing_own(id) {
                let p = choose|p: int| #[trigger] mid.stole_from(self, id, p, value);
                let victim = self.alive()[p];
                assert(after.staged_by(victim) == mid.staged_by(victim));
                assert(after.staged_by(id) == mid.staged_by(id));
                assert forall|k: int| k != id && k != victim implies #[trigger] after.staged_by(k)
                    == self.staged_by(k) by {
                    assert(mid.staged_by(k) == self.staged_by(k));
                }
                assert(after.stole(self, id, victim, value));
                assert(after.stole_from(self, id, p, value));
            } else {
                assert(after.staged_by(id) == mid.staged_by(id));
                assert forall|k: int| k != id && self.staged_by(id).len() > 0 implies
                    #[trigger] after.staged_by(k) == self.staged_by(k) by {
                    assert(mid.staged_by(k) == self.staged_by(k));
                }
                assert forall|k: int| k != -1 && self.staged_by(id).len() == 0 implies
                    #[trigger] after.staged_by(k) == self.staged_by(k) by {
                    assert(mid.staged_by(k) == self.staged_by(k));
                }
            }
        }
    }
}

/// The sender of the lane heard of new room once if there is any, and nothing
/// otherwise.
pub open spec fn lane_told<T>(before: Lane<T>, after: Lane<T>) -> bool {
    ||| same_room(before, after)
    ||| {
        &&& held(after) < held(before)
        &&& after.signal.space_waiter == before.signal.space_waiter.after_notify()
    }
}

impl<T> Channel<T> {
    /// Senders heard once of new room in their lanes. Receivers heard once of values
    /// that were staged or left in a lane, or of the end of the last lane, and as
    /// many of them are to be signalled as are due. Nobody else heard anything.
    pub open spec fn announced(&self, before: &Channel<T>) -> bool {
        &&& forall|t: int|
            0 <= t < before.lanes@.len() && before.lanes@[t] is Some && (
            #[trigger] self.lanes@[t]) is Some ==> lane_told(before.lane(t), self.lane(t))
        &&& self.data_waiters == self.wake_due(before).told(before.data_waiters)
    }

    /// What a receive by receiver `id` that does not block returns and does. It
    /// misses a value only if each of its looks met upkeep.
    pub open spec fn answers(
        &self,
        before: &Channel<T>,
        id: int,
        result: Result<T, TryRecvError>,
    ) -> bool {
        &&& self.looked(before, id, result)
        &&& self.traced(before, id, result, 2 * (TRY_RECV_RETRIES as nat + 1))
        &&& self.announced(before)
        &&& result == Err::<T, TryRecvError>(TryRecvError::Empty) ==> {
            ||| self.upkeep() + TRY_RECV_RETRIES + 1 <= before.upkeep()
            ||| {
                &&& before.contents() == Multiset::<T>::empty()
                &&& before.contents().len() == 0
                &&& before.live_senders > 0
                &&& self.at_rest()
            }
        }
    }

    /// Nothing to announce where nothing happened.
    proof fn lemma_announced_nothing(&self, after: &Channel<T>)
        requires
            *after == *self,
        ensures
            after.announced(self),
            after.gave_all_back(self),
    {
        assert(after.wake_due(self) is Nobody);
    }

    /// A lane with more room has all of it.
    spec fn gave_all_back(&self, before: &Channel<T>) -> bool {
        forall|t: int|
            0 <= t < before.lanes@.len() && before.lanes@[t] is Some && (
            #[trigger] self.lanes@[t]) is Some && held(self.lane(t)) < held(before.lane(t))
                ==> held(self.lane(t)) == 0
    }

    /// Carrying out effects keeps lanes idle.
    proof fn lemma_rest_kept(&self, after: &Channel<T>, effects: Effects)
        requires
            after.carried_out(self, effects),
            effects.released matches Some(slot) ==> slot < self.lanes@.len(),
        ensures
            self.at_rest() ==> after.at_rest(),
    {
        if self.at_rest() {
            assert forall|t: int| !#[trigger] after.pending(t) by {
                assert(!self.pending(t));
            }
        }
    }

    /// A look and carrying out its effects announce what they should, after looks
    /// that found nothing.
    proof fn lemma_announced(
        &self,
        head: &Channel<T>,
        looked: &Channel<T>,
        after: &Channel<T>,
        effects: Effects,
    )
        requires
            head.wf(),
            head.receiver_alive,
            head.kept(self),
            head.announced(self),
            head.gave_all_back(self),
            forall|t: int| #[trigger] head.unread_in(t) == self.unread_in(t),
            looked.kept(head),
            looked.owes(head, effects),
            looked.data_waiters == head.data_waiters,
            after.kept(looked),
            after.carried_out(looked, effects),
        ensures
            after.announced(self),
            (effects.released matches Some(slot) ==> looked.present(slot as int) ==> held(
                looked.lane(slot as int),
            ) == 0) ==> after.gave_all_back(self),
    {
        assert forall|t: int|
            0 <= t < self.lanes@.len() && self.lanes@[t] is Some && (
            #[trigger] after.lanes@[t]) is Some implies lane_told(self.lane(t), after.lane(t)) && {
            ||| effects.released == Some(t as usize) && held(after.lane(t)) == held(looked.lane(t))
            ||| held(after.lane(t)) == held(head.lane(t))
        } by {
            assert(self.lanes.len() == self.lanes@.len());
            assert(lane_kept(looked.lanes@[t], after.lanes@[t]));
            assert(lane_kept(head.lanes@[t], looked.lanes@[t]));
            assert(lane_told(self.lane(t), head.lane(t)));
            if effects.released == Some(t as usize) {
                assert(more_room(head.lane(t), looked.lane(t)));
            } else {
                assert(same_room(head.lane(t), looked.lane(t)));
            }
        }
        assert forall|t: int| #[trigger] after.unread_in(t) == looked.unread_in(t) by {}
        assert(after.wake_due(self) == looked.wake_due(self)) by {
            self.lemma_due_same(looked, after);
        }
        if head.last_retired(self) {
            lemma_count_zero(taken_places(head.lanes@));
            assert forall|t: int| #[trigger] head.unread_in(t).len() == 0 by {
                if head.present(t) {
                    assert(taken_places(head.lanes@)[t]);
                }
            }
            assert forall|t: int| !#[trigger] looked.gave_many(head, t) by {
                assert(head.unread_in(t).len() == 0);
            }
            assert forall|t: int| !#[trigger] looked.gave_some(head, t) by {
                assert(head.unread_in(t).len() == 0);
            }
        } else {
            assert forall|t: int| !#[trigger] head.gave_many(self, t) by {
                assert(head.unread_in(t) == self.unread_in(t));
            }
            assert forall|t: int| !#[trigger] head.gave_some(self, t) by {
                assert(head.unread_in(t) == self.unread_in(t));
            }
            self.lemma_due_further(head, looked);
        }
    }

    /// What is due depends on the unread values and the counts alone.
    proof fn lemma_due_same(&self, mid: &Channel<T>, after: &Channel<T>)
        requires
            forall|t: int| #[trigger] after.unread_in(t) == mid.unread_in(t),
            after.registered_lanes == mid.registered_lanes,
            after.live_senders == mid.live_senders,
        ensures
            after.wake_due(self) == mid.wake_due(self),
    {
        assert forall|t: int|
            #![trigger after.gave_many(self, t)]
            #![trigger mid.gave_many(self, t)]
            after.gave_many(self, t) == mid.gave_many(self, t) by {
            assert(after.unread_in(t) == mid.unread_in(t));
        }
        assert forall|t: int|
            #![trigger after.gave_some(self, t)]
            #![trigger mid.gave_some(self, t)]
            after.gave_some(self, t) == mid.gave_some(self, t) by {
            assert(after.unread_in(t) == mid.unread_in(t));
        }
        if exists|t: int| #[trigger] after.gave_many(self, t) {
            let t = choose|t: int| #[trigger] after.gave_many(self, t);
            assert(mid.gave_many(self, t));
        }
        if exists|t: int| #[trigger] mid.gave_many(self, t) {
            let t = choose|t: int| #[trigger] mid.gave_many(self, t);
            assert(after.gave_many(self, t));
        }
        if exists|t: int| #[trigger] after.gave_some(self, t) {
            let t = choose|t: int| #[trigger] after.gave_some(self, t);
            assert(mid.gave_some(self, t));
        }
        if exists|t: int| #[trigger] mid.gave_some(self, t) {
            let t = choose|t: int| #[trigger] mid.gave_some(self, t);
            assert(after.gave_some(self, t));
        }
    }
}

/// How a blocking receive goes on.
pub enum RecvProgress<T> {
    /// It is over.
    Done(Result<T, RecvError>),
    /// Try again soon.
    Spin,
    /// Sleep until data is announced, then try again.
    Park(MultiWaitRegistration),
}

/// How a receive with a deadline goes on.
pub enum RecvDeadlineProgress<T> {
    /// It is over.
    Done(Result<T, RecvTimeoutError>),
    /// Try again at once: upkeep stood before the values.
    Again,
    /// Sleep until data is announced or the deadline passes, then try again.
    Park(MultiWaitRegistration),
}

impl<T> Channel<T> {
    /// A receiver has found nothing and registered for data. The channel is
    /// empty, a sender is alive, and every lane is idle.
    pub open spec fn awaits_data(
        &self,
        before: &Channel<T>,
        id: int,
        wait: MultiWaitRegistration,
    ) -> bool {
        &&& before.contents() == Multiset::<T>::empty()
        &&& before.live_senders > 0
        &&& self.at_rest()
        &&& self.data_waiters.waiters == before.data_waiters.waiters + 1
        &&& wait.snapshot == self.data_waiters.state
        &&& exists|looked: Channel<T>| #[trigger]
            looked.answers(before, id, Err(TryRecvError::Empty)) && *self == (Channel {
                data_waiters: MultiWaitCell {
                    state: with_waiter(looked.data_waiters.state),
                    waiters: self.data_waiters.waiters,
                    signals: looked.data_waiters.signals,
                },
                ..looked
            })
    }

    /// What try number `attempt` of a blocking receive does.
    pub open spec fn recv_went(
        &self,
        before: &Channel<T>,
        id: int,
        attempt: usize,
        r: RecvProgress<T>,
    ) -> bool {
        match r {
            RecvProgress::Done(Ok(value)) => self.answers(before, id, Ok(value)),
            RecvProgress::Done(Err(_)) => self.answers(
                before,
                id,
                Err(TryRecvError::Disconnected),
            ),
            RecvProgress::Spin => (attempt <= PARK_SPINS || before.lane_in_sight())
                && self.answers(before, id, Err(TryRecvError::Empty)),
            RecvProgress::Park(wait) => attempt > PARK_SPINS && !before.lane_in_sight()
                && self.awaits_data(before, id, wait),
        }
    }

    /// No upkeep stands before the values when no lane is in sight.
    proof fn lemma_out_of_sight(&self)
        requires
            self.inv(None),
            self.receiver_alive,
            !self.lane_in_sight(),
        ensures
            self.upkeep() == 0,
            self.at_rest(),
    {
        assert forall|p: int| 0 <= p < self.routing.pages@.len() implies !#[trigger] self.routing.listed(
            p,
        ) by {
            assert(self.routing.work_groups@[p / 64].bits == 0);
            crate::bits::lemma_zero();
        }
        assert forall|slot: int| !#[trigger] self.pending(slot) by {
            if self.pending(slot) {
                assert(self.routing.slots().contains(slot));
                if self.routing.queued(slot) {
                    let p = slot / 64;
                    let lanes = self.routing.pages@[p].lanes@;
                    let i = choose|i: int| 0 <= i < lanes.len() && lanes[i] == slot;
                    assert(lanes.len() > 0);
                    assert(self.routing.listed(p));
                }
            }
        }
        assert forall|i: int| 0 <= i < dry(self.lanes@).len() implies !#[trigger] dry(
            self.lanes@,
        )[i] by {
            assert(!self.pending(i));
        }
        lemma_count_zero(dry(self.lanes@));
        lemma_count_zero(self.routing.stale_flags());
    }

    /// Look for a value. Also tells whether an empty result may be transient
    /// because lanes were in sight.
    fn look(&mut self, id: usize) -> (r: (Result<T, TryRecvError>, bool))
        requires
            old(self).wf(),
            old(self).receiver_alive,
            old(self).knows(id as int),
        ensures
            final(self).wf(),
            final(self).answers(old(self), id as int, r.0),
            r.1 == old(self).lane_in_sight(),
            r.0 == Err::<T, TryRecvError>(TryRecvError::Empty) && !r.1 ==> {
                &&& old(self).contents() == Multiset::<T>::empty()
                &&& old(self).live_senders > 0
                &&& final(self).at_rest()
            },
    {
        let in_sight: bool = self.routing.has_ready();
        proof {
            if !in_sight {
                self.lemma_out_of_sight();
            }
        }
        (self.try_recv(id), in_sight)
    }

    /// How many sleeping receivers are to be signalled now. They count as
    /// signalled from here on.
    pub fn take_signals(&mut self) -> (n: usize)
        requires
            old(self).wf(),
        ensures
            final(self).wf(),
            n == old(self).data_waiters.signals,
            *final(self) == (Channel {
                data_waiters: MultiWaitCell { signals: 0, ..old(self).data_waiters },
                ..*old(self)
            }),
    {
        let ghost before = *self;
        let n: usize = self.data_waiters.take_signals();
        proof {
            before.lemma_waiters_changed(self);
        }
        n
    }

    /// Register a receiver for data.
    fn await_data(&mut self) -> (wait: MultiWaitRegistration)
        requires
            old(self).wf(),
            old(self).data_waiters.waiters < usize::MAX,
        ensures
            final(self).wf(),
            *final(self) == (Channel {
                data_waiters: MultiWaitCell {
                    state: with_waiter(old(self).data_waiters.state),
                    waiters: (old(self).data_waiters.waiters + 1) as usize,
                    signals: old(self).data_waiters.signals,
                },
                ..*old(self)
            }),
            wait.snapshot == final(self).data_waiters.state,
    {
        let ghost before = *self;
        let wait = self.data_waiters.prepare();
        proof {
            before.lemma_waiters_changed(self);
        }
        wait
    }
}

impl Receiver {
    /// Try to receive one value.
    pub fn try_recv<T>(&mut self, ch: &mut Channel<T>) -> (result: Result<T, TryRecvError>)
        requires
            old(ch).wf(),
            old(ch).receiver_alive,
            old(ch).knows(old(self).id as int),
        ensures
            *final(self) == *old(self),
            final(ch).wf(),
            final(ch).answers(old(ch), old(self).id as int, result),
    {
        ch.try_recv(self.id)
    }

    /// Receive one value, blocking while the channel is empty. `attempt` counts
    /// the earlier tries.
    ///
    /// A receiver parks only when the channel is empty and every lane is idle.
    /// The last look and the registration for data are one step, so that no
    /// publication can come between them.
    pub fn recv<T>(&mut self, ch: &mut Channel<T>, attempt: usize) -> (r: RecvProgress<T>)
        requires
            old(ch).wf(),
            old(ch).receiver_alive,
            old(ch).knows(old(self).id as int),
            old(ch).data_waiters.waiters < usize::MAX,
        ensures
            *final(self) == *old(self),
            final(ch).wf(),
            final(ch).recv_went(old(ch), old(self).id as int, attempt, r),
    {
        let (result, in_sight) = ch.look(self.id);
        let ghost looked = *ch;
        match result {
            Ok(value) => RecvProgress::Done(Ok(value)),
            Err(TryRecvError::Disconnected) => RecvProgress::Done(Err(RecvError)),
            Err(TryRecvError::Empty) => {
                if attempt <= PARK_SPINS || in_sight {
                    RecvProgress::Spin
                } else {
                    let wait = ch.await_data();
                    proof {
                        assert forall|t: int| !#[trigger] ch.pending(t) by {
                            assert(!looked.pending(t));
                        }
                    }
                    RecvProgress::Park(wait)
                }
            },
        }
    }

    /// Receive one value, blocking until the deadline while the channel is
    /// empty. `expired` tells whether the deadline has passed.
    pub fn recv_deadline<T>(&mut self, ch: &mut Channel<T>, expired: bool) -> (r:
        RecvDeadlineProgress<T>)
        requires
            old(ch).wf(),
            old(ch).receiver_alive,
            old(ch).knows(old(self).id as int),
            old(ch).data_waiters.waiters < usize::MAX,
        ensures
            *final(self) == *old(self),
            final(ch).wf(),
            ({
                let id = old(self).id as int;
                match r {
                    RecvDeadlineProgress::Done(Ok(value)) => final(ch).answers(
                        old(ch),
                        id,
                        Ok(value),
                    ),
                    RecvDeadlineProgress::Done(Err(RecvTimeoutError::Disconnected)) => final(
                        ch).answers(old(ch), id, Err(TryRecvError::Disconnected)),
                    RecvDeadlineProgress::Done(Err(RecvTimeoutError::Timeout)) => expired && old(
                        ch).contents() == Multiset::<T>::empty() && old(ch).live_senders > 0
                        && final(ch).answers(old(ch), id, Err(TryRecvError::Empty)),
                    RecvDeadlineProgress::Again => old(ch).lane_in_sight() && final(ch).answers(
                        old(ch),
                        id,
                        Err(TryRecvError::Empty),
                    ),
                    RecvDeadlineProgress::Park(wait) => !expired && final(ch).awaits_data(
                        old(ch),
                        id,
                        wait,
                    ),
                }
            }),
    {
        let (result, in_sight) = ch.look(self.id);
        let ghost looked = *ch;
        match result {
            Ok(value) => RecvDeadlineProgress::Done(Ok(value)),
            Err(TryRecvError::Disconnected) => RecvDeadlineProgress::Done(
                Err(RecvTimeoutError::Disconnected),
            ),
            Err(TryRecvError::Empty) => {
                if in_sight {
                    RecvDeadlineProgress::Again
                } else if expired {
                    RecvDeadlineProgress::Done(Err(RecvTimeoutError::Timeout))
                } else {
                    let wait = ch.await_data();
                    proof {
                        assert forall|t: int| !#[trigger] ch.pending(t) by {
                            assert(!looked.pending(t));
                        }
                    }
                    RecvDeadlineProgress::Park(wait)
                }
            },
        }
    }

    /// Decide whether a parked receiver goes on sleeping. Otherwise its
    /// registration ends.
    pub fn park<T>(&mut self, ch: &mut Channel<T>, wait: &MultiWaitRegistration) -> (sleep: bool)
        requires
            old(ch).wf(),
            old(ch).data_waiters.waiters > 0,
        ensures
            *final(self) == *old(self),
            final(ch).wf(),
            sleep == (old(ch).data_waiters.state == wait.snapshot),
            *final(ch) == (Channel {
                data_waiters: if sleep {
                    old(ch).data_waiters
                } else {
                    without_one(old(ch).data_waiters)
                },
                ..*old(ch)
            }),
    {
        let ghost before = *ch;
        let sleep: bool = wait.wait(&mut ch.data_waiters);
        proof {
            before.lemma_waiters_changed(ch);
        }
        sleep
    }

    /// End the registration of a receiver that slept until its deadline.
    pub fn unpark<T>(&mut self, ch: &mut Channel<T>, wait: &MultiWaitRegistration)
        requires
            old(ch).wf(),
            old(ch).data_waiters.waiters > 0,
        ensures
            *final(self) == *old(self),
            final(ch).wf(),
            *final(ch) == (Channel { data_waiters: without_one(old(ch).data_waiters), ..*old(ch) }),
    {
        let ghost before = *ch;
        wait.wake_up(&mut ch.data_waiters);
        proof {
            before.lemma_waiters_changed(ch);
        }
    }

    /// Whether all senders have been dropped.
    pub fn is_disconnected<T>(&self, ch: &Channel<T>) -> (closed: bool)
        ensures
            closed == (ch.live_senders == 0),
    {
        ch.live_senders == 0
    }

    /// Per-sender capacity after rounding.
    pub fn capacity_per_sender(&self) -> (capacity: usize)
        ensures
            capacity == self.capacity,
    {
        self.capacity
    }

    /// How many senders are alive.
    pub fn sender_count<T>(&self, ch: &Channel<T>) -> (senders: usize)
        ensures
            senders == ch.live_senders,
    {
        ch.live_senders
    }

    /// How many receivers are alive.
    pub fn receiver_count<T>(&self, ch: &Channel<T>) -> (receivers: usize)
        ensures
            receivers == ch.live_receivers,
    {
        ch.live_receivers
    }
}

} // verus!
