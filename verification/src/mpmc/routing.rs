//! Finding lanes with work.
//!
//! A lane that turns pending is marked in the ready index. A receiver that
//! claims a page of the index takes one lane and queues the others on the page.
//! A lane that is not drained is queued there again. Work groups summarize the
//! pages with queued lanes.
use vstd::prelude::*;

use crate::bits::{bit, distance, first_from, lemma_zero, pop_lowest, single};
use crate::count::{
    count, lemma_count_bound, lemma_count_push, lemma_count_update, lemma_count_zero,
};
use crate::publication::{later, PublicationTracker};
use crate::ready::{LaneSignal, ReadyGroup, ReadyIndex, LANES_PER_PAGE, PAGES_PER_GROUP};

use super::queue::TicketQueue;

verus! {

/// Lanes queued on one page.
pub struct LanePage {
    /// The queued slots.
    pub lanes: TicketQueue,
    /// The bit of this page in its work group.
    pub work_bit: u64,
}

/// Where a receiver looks next.
#[derive(Debug, PartialEq, Eq, Structural)]
pub struct Cursors {
    /// The next group.
    pub group: usize,
    /// The next page within a group.
    pub page: usize,
    /// The next page for a direct look.
    pub direct: usize,
    /// Whether queued lanes come before marked ones.
    pub prefer_work: bool,
}

impl Cursors {
    /// The page cursor stays within a group.
    pub open spec fn wf(&self) -> bool {
        self.page < PAGES_PER_GROUP
    }

    /// Start at the front.
    pub fn new() -> (cursors: Cursors)
        ensures
            cursors.wf(),
            cursors.group == 0,
            cursors.page == 0,
            cursors.direct == 0,
            !cursors.prefer_work,
    {
        Cursors { group: 0, page: 0, direct: 0, prefer_work: false }
    }

    /// The other kind of lane comes first.
    pub open spec fn turned(self) -> Cursors {
        Cursors { prefer_work: !self.prefer_work, ..self }
    }

    /// Whether the next look starts behind page `p`, of as many groups and pages.
    pub open spec fn behind(&self, before: &Cursors, p: int, groups: int, pages: int) -> bool {
        &&& self.group == following(p / 64, groups)
        &&& self.page == following(p % 64, 64)
        &&& self.direct == following(p, pages)
        &&& self.prefer_work == before.prefer_work
    }
}

/// The place behind `place`, going round after `n`.
pub open spec fn following(place: int, n: int) -> int {
    if place + 1 == n {
        0
    } else {
        place + 1
    }
}

/// How many turns it takes from `start` to `place`, going round after `n`.
pub open spec fn turns(start: int, place: int, n: int) -> int {
    if place >= start {
        place - start
    } else {
        place + n - start
    }
}

/// Whether `slot` stands in a queue.
pub open spec fn in_queue(lanes: Seq<u64>, slot: int) -> bool {
    exists|i: int| 0 <= i < lanes.len() && lanes[i] == slot
}

/// Whether a queue names its lanes in rising order.
pub open spec fn rising(lanes: Seq<u64>) -> bool {
    forall|i: int, j: int| 0 <= i < j < lanes.len() ==> lanes[i] < lanes[j]
}

/// The ready index, the page queues and their summary.
pub struct Routing {
    /// Marked lanes.
    pub ready: ReadyIndex,
    /// Queued lanes by page.
    pub pages: Vec<LanePage>,
    /// Pages with queued lanes.
    pub work_groups: Vec<ReadyGroup>,
}

impl Routing {
    /// Slots covered.
    pub open spec fn span(&self) -> int {
        self.ready.span()
    }

    /// Whether the lane in `slot` is queued on its page.
    pub open spec fn queued(&self, slot: int) -> bool {
        0 <= slot < self.span() && in_queue(self.pages@[slot / 64].lanes@, slot)
    }

    /// The slots that are marked or queued.
    pub open spec fn slots(&self) -> Set<int> {
        Set::new(|slot: int| self.ready@.contains(slot) || self.queued(slot))
    }

    /// Whether the work groups list page `p`.
    pub open spec fn listed(&self, p: int) -> bool {
        bit(self.work_groups@[p / 64].bits, p % 64)
    }

    /// The lanes queued on page `p`, the one queued first in front.
    pub open spec fn queue(&self, p: int) -> Seq<u64> {
        self.pages@[p].lanes@
    }

    /// Whether every page but `p` holds the same queue.
    pub open spec fn same_queues_but(&self, before: &Routing, p: int) -> bool {
        forall|q: int|
            0 <= q < before.pages@.len() && q != p ==> #[trigger] self.queue(q) == before.queue(q)
    }

    /// Whether every page but `p` is listed as before.
    pub open spec fn same_listing_but(&self, before: &Routing, p: int) -> bool {
        forall|q: int|
            0 <= q < before.pages@.len() && q != p ==> #[trigger] self.listed(q)
                == before.listed(q)
    }

    /// Pages that are listed without a queued lane.
    pub open spec fn stale_flags(&self) -> Seq<bool> {
        Seq::new(
            self.pages@.len(),
            |p: int| self.listed(p) && self.pages@[p].lanes@.len() == 0,
        )
    }

    /// How many pages are listed without a queued lane.
    pub open spec fn stale(&self) -> nat {
        count(self.stale_flags())
    }

    /// The queue of page `p` holds slots of that page, each once, and none that
    /// is marked.
    pub open spec fn page_ok(&self, p: int) -> bool {
        let page = self.pages@[p];
        &&& page.lanes.wf()
        &&& page.lanes.limit() == Some(64nat)
        &&& forall|j: int| #[trigger] bit(page.work_bit, j) <==> j == p % 64
        &&& forall|i: int|
            0 <= i < page.lanes@.len() ==> (#[trigger] page.lanes@[i]) as int / 64 == p
                && !self.ready@.contains(page.lanes@[i] as int)
        &&& forall|i: int, j: int|
            0 <= i < j < page.lanes@.len() ==> page.lanes@[i] != page.lanes@[j]
    }

    /// Groups and pages fit together.
    pub open spec fn placed(&self) -> bool {
        &&& self.ready.wf()
        &&& self.pages@.len() == self.ready.pages@.len()
        &&& self.work_groups@.len() == self.ready.groups@.len()
        &&& forall|g: int|
            0 <= g < self.work_groups@.len() ==> (#[trigger] self.work_groups@[g]).id == g
        &&& forall|g: int, j: int|
            0 <= g < self.work_groups@.len() && #[trigger] bit(self.work_groups@[g].bits, j) ==> g
                * 64 + j < self.pages@.len()
        &&& forall|p: int| 0 <= p < self.pages@.len() ==> #[trigger] self.page_ok(p)
    }

    /// Every page with a queued lane is listed.
    pub open spec fn wf(&self) -> bool {
        &&& self.placed()
        &&& forall|p: int|
            0 <= p < self.pages@.len() && (#[trigger] self.pages@[p]).lanes@.len() > 0
                ==> self.listed(p)
    }

    /// Whether two states cover the same slots.
    pub open spec fn same_size(&self, other: &Routing) -> bool {
        self.ready.same_size(&other.ready)
    }

    /// One empty page.
    pub fn new() -> (routing: Routing)
        ensures
            routing.wf(),
            routing.slots() == Set::<int>::empty(),
            routing.stale() == 0,
            routing.ready.pages@.len() == 1,
    {
        let mut pages: Vec<LanePage> = Vec::new();
        pages.push(
            LanePage { lanes: TicketQueue::bounded(LANES_PER_PAGE), work_bit: single(0) },
        );
        let mut work_groups: Vec<ReadyGroup> = Vec::new();
        work_groups.push(ReadyGroup::new(0));
        let routing = Routing { ready: ReadyIndex::new(), pages, work_groups };
        proof {
            lemma_zero();
            assert(routing.slots() =~= Set::<int>::empty());
            assert(routing.stale_flags() =~= Seq::<bool>::empty().push(false));
            lemma_count_push(Seq::<bool>::empty(), false);
        }
        routing
    }

    /// Whether some lane is marked or some page is listed.
    pub fn has_ready(&self) -> (any: bool)
        requires
            self.wf(),
        ensures
            any == (self.ready@ != Set::<int>::empty() || exists|g: int|
                0 <= g < self.work_groups@.len() && (#[trigger] self.work_groups@[g]).bits != 0),
    {
        if self.ready.has_ready() {
            return true;
        }
        let mut g: usize = 0;
        while g < self.work_groups.len()
            invariant
                g <= self.work_groups@.len(),
                forall|h: int| 0 <= h < g ==> (#[trigger] self.work_groups@[h]).bits == 0,
            decreases self.work_groups@.len() - g,
        {
            if self.work_groups[g].has_ready() {
                return true;
            }
            g += 1;
        }
        false
    }

    /// A page whose queue lacks one of its slots has room for it.
    proof fn lemma_room(&self, slot: int)
        requires
            self.placed(),
            0 <= slot < self.span(),
            !self.queued(slot),
        ensures
            self.pages@[slot / 64].lanes.has_room(1),
    {
        let p = slot / 64;
        assert(self.page_ok(p));
        let lanes = self.pages@[p].lanes@;
        let all = lanes.to_set();
        assert(lanes.no_duplicates());
        lanes.unique_seq_to_set();
        let places = vstd::set_lib::set_int_range(p * 64, p * 64 + 64).remove(slot);
        vstd::set_lib::lemma_int_range(p * 64, p * 64 + 64);
        let numbers = all.map(|ticket: u64| ticket as int);
        assert(numbers.len() == all.len()) by {
            vstd::set_lib::lemma_map_size(all, numbers, |ticket: u64| ticket as int);
        }
        assert(numbers.subset_of(places)) by {
            assert forall|n: int| numbers.contains(n) implies places.contains(n) by {
                let ticket = choose|ticket: u64| all.contains(ticket) && ticket as int == n;
                let i = choose|i: int| 0 <= i < lanes.len() && lanes[i] == ticket;
                assert(lanes[i] == ticket);
            }
        }
        vstd::set_lib::lemma_len_subset(numbers, places);
    }
}

impl Routing {
    /// What a queue of page `p` holds decides only about slots of that page.
    proof fn lemma_queue_changed(&self, after: &Routing, p: int, slot: int, added: bool)
        requires
            self.wf(),
            0 <= p < self.pages@.len(),
            slot / 64 == p,
            0 <= slot < self.span(),
            after.ready == self.ready,
            after.pages@.len() == self.pages@.len(),
            forall|q: int|
                0 <= q < self.pages@.len() && q != p ==> #[trigger] after.pages@[q]
                    == self.pages@[q],
            forall|t: int| #[trigger]
                in_queue(after.pages@[p].lanes@, t) <==> if added {
                    in_queue(self.pages@[p].lanes@, t) || t == slot
                } else {
                    in_queue(self.pages@[p].lanes@, t) && t != slot
                },
            !self.ready@.contains(slot),
        ensures
            added ==> after.slots() == self.slots().insert(slot),
            !added ==> after.slots() == self.slots().remove(slot),
    {
        assert forall|t: int| #[trigger] after.queued(t) <==> if added {
            self.queued(t) || t == slot
        } else {
            self.queued(t) && t != slot
        } by {
            if 0 <= t < self.span() && t / 64 != p {
                assert(after.pages@[t / 64] == self.pages@[t / 64]);
            }
            if self.queued(t) && t / 64 == p {
                assert(in_queue(self.pages@[p].lanes@, t));
            }
        }
        if added {
            assert(after.slots() =~= self.slots().insert(slot));
        } else {
            assert(after.slots() =~= self.slots().remove(slot));
        }
    }

    /// What queueing the lane in `slot` does: it comes last on its page, and the
    /// page is listed.
    pub open spec fn requeued(&self, before: &Routing, slot: int) -> bool {
        &&& self.ready == before.ready
        &&& self.queue(slot / 64) == before.queue(slot / 64).push(slot as u64)
        &&& self.same_queues_but(before, slot / 64)
        &&& self.listed(slot / 64)
        &&& self.same_listing_but(before, slot / 64)
    }

    /// Queue the lane in `slot` on its page and list the page.
    pub fn requeue(&mut self, slot: usize)
        requires
            old(self).wf(),
            slot < old(self).span(),
            !old(self).slots().contains(slot as int),
        ensures
            final(self).wf(),
            final(self).same_size(old(self)),
            final(self).slots() == old(self).slots().insert(slot as int),
            final(self).stale() <= old(self).stale(),
            final(self).requeued(old(self), slot as int),
    {
        let ghost before = *self;
        let page_id: usize = slot / LANES_PER_PAGE;
        let group_id: usize = page_id / PAGES_PER_GROUP;
        let ghost p = page_id as int;
        proof {
            self.lemma_room(slot as int);
            assert(self.page_ok(p));
        }
        self.pages[page_id].lanes.push(slot as u64);
        let work_bit: u64 = self.pages[page_id].work_bit;
        self.work_groups[group_id].mark(work_bit);
        proof {
            let queue = before.pages@[p].lanes@;
            assert(self.pages@[p].lanes@ == queue.push(slot as u64));
            assert forall|t: int| #[trigger] in_queue(self.pages@[p].lanes@, t) <==> in_queue(
                queue,
                t,
            ) || t == slot by {
                if in_queue(queue, t) {
                    let i = choose|i: int| 0 <= i < queue.len() && queue[i] == t;
                    assert(self.pages@[p].lanes@[i] == t);
                }
                if t == slot {
                    assert(self.pages@[p].lanes@[queue.len() as int] == t);
                }
                if in_queue(self.pages@[p].lanes@, t) && t != slot {
                    let i = choose|i: int|
                        0 <= i < self.pages@[p].lanes@.len() && self.pages@[p].lanes@[i] == t;
                    assert(queue[i] == t);
                }
            }
            before.lemma_queue_changed(self, p, slot as int, true);
            before.lemma_listing(self, p, true);
            assert(self.page_ok(p)) by {
                assert forall|i: int, j: int|
                    0 <= i < j < self.pages@[p].lanes@.len() implies self.pages@[p].lanes@[i]
                    != self.pages@[p].lanes@[j] by {
                    if j == queue.len() && queue[i] == slot {
                        assert(in_queue(queue, slot as int));
                        assert(before.queued(slot as int));
                    }
                }
            }
            assert forall|q: int| 0 <= q < self.pages@.len() implies #[trigger] self.page_ok(q) by {
                if q != p {
                    assert(before.page_ok(q));
                }
            }
            assert(self.wf());
            lemma_count_update(before.stale_flags(), p, false);
            assert(self.stale_flags() =~= before.stale_flags().update(p, false));
        }
    }

    /// Listing or unlisting page `p` leaves the other pages alone.
    proof fn lemma_listing(&self, after: &Routing, p: int, listed: bool)
        requires
            self.placed(),
            0 <= p < self.pages@.len(),
            after.pages@.len() == self.pages@.len(),
            after.work_groups@.len() == self.work_groups@.len(),
            forall|g: int|
                0 <= g < self.work_groups@.len() && g != p / 64 ==> #[trigger] after.work_groups@[g]
                    == self.work_groups@[g],
            forall|j: int| #[trigger]
                bit(after.work_groups@[p / 64].bits, j) <==> if j == p % 64 {
                    listed
                } else {
                    bit(self.work_groups@[p / 64].bits, j)
                },
        ensures
            forall|q: int|
                0 <= q < self.pages@.len() ==> #[trigger] after.listed(q) == if q == p {
                    listed
                } else {
                    self.listed(q)
                },
            forall|g: int, j: int|
                0 <= g < after.work_groups@.len() && #[trigger] bit(after.work_groups@[g].bits, j)
                    ==> g * 64 + j < self.pages@.len(),
    {
        assert forall|q: int| 0 <= q < self.pages@.len() implies #[trigger] after.listed(q)
            == if q == p {
            listed
        } else {
            self.listed(q)
        } by {
            if q / 64 != p / 64 {
                assert(after.work_groups@[q / 64] == self.work_groups@[q / 64]);
            }
        }
        assert forall|g: int, j: int|
            0 <= g < after.work_groups@.len() && #[trigger] bit(
                after.work_groups@[g].bits,
                j,
            ) implies g * 64 + j < self.pages@.len() by {
            if g != p / 64 {
                assert(after.work_groups@[g] == self.work_groups@[g]);
                assert(bit(self.work_groups@[g].bits, j));
            } else if j != p % 64 {
                assert(bit(self.work_groups@[g].bits, j));
            }
        }
    }
}

impl Routing {
    /// Take the front lane of page `page_id`. The page stays listed.
    pub fn pop_direct(&mut self, page_id: usize) -> (slot: Option<usize>)
        requires
            old(self).wf(),
            page_id < old(self).pages@.len(),
        ensures
            final(self).wf(),
            final(self).same_size(old(self)),
            final(self).ready == old(self).ready,
            final(self).work_groups == old(self).work_groups,
            match slot {
                None => {
                    &&& old(self).queue(page_id as int).len() == 0
                    &&& final(self).queue(page_id as int) == old(self).queue(page_id as int)
                    &&& final(self).slots() == old(self).slots()
                    &&& final(self).stale() == old(self).stale()
                },
                Some(slot) => {
                    &&& old(self).queue(page_id as int).len() > 0
                    &&& old(self).queue(page_id as int)[0] == slot
                    &&& final(self).queue(page_id as int) == old(self).queue(
                        page_id as int,
                    ).drop_first()
                    &&& old(self).slots().contains(slot as int)
                    &&& final(self).slots() == old(self).slots().remove(slot as int)
                    &&& final(self).stale() <= old(self).stale() + 1
                },
            },
            final(self).same_queues_but(old(self), page_id as int),
    {
        let ghost before = *self;
        let ghost p = page_id as int;
        let ghost queue = self.pages@[p].lanes@;
        assert(self.page_ok(p));
        let ticket = self.pages[page_id].lanes.pop();
        let slot: Option<usize> = match ticket {
            Some(ticket) => {
                assert(ticket as int / 64 == p);
                Some(ticket as usize)
            },
            None => None,
        };
        proof {
            assert forall|q: int| 0 <= q < self.pages@.len() && q != p implies #[trigger] self.pages@[q]
                == before.pages@[q] by {}
            assert forall|q: int| 0 <= q < self.pages@.len() implies #[trigger] self.listed(q)
                == before.listed(q) by {}
            assert(self.page_ok(p)) by {
                let rest = self.pages@[p].lanes@;
                if queue.len() > 0 {
                    assert forall|i: int| 0 <= i < rest.len() implies #[trigger] rest[i] == queue[i
                        + 1] by {}
                }
            }
            assert forall|q: int| 0 <= q < self.pages@.len() implies #[trigger] self.page_ok(q) by {
                if q != p {
                    assert(before.page_ok(q));
                }
            }
            assert forall|q: int|
                0 <= q < self.pages@.len() && (#[trigger] self.pages@[q]).lanes@.len() > 0 implies
                self.listed(q) by {
                assert(before.pages@[q].lanes@.len() > 0);
            }
            match slot {
                Some(slot) => {
                    let s = slot as int;
                    assert(queue[0] == s);
                    assert(in_queue(queue, s));
                    assert(before.queued(s));
                    assert(before.slots().contains(s));
                    let rest = queue.drop_first();
                    assert(self.pages@[p].lanes@ == rest);
                    assert forall|t: int| #[trigger] in_queue(rest, t) <==> in_queue(queue, t) && t
                        != s by {
                        if in_queue(rest, t) {
                            let i = choose|i: int| 0 <= i < rest.len() && rest[i] == t;
                            assert(queue[i + 1] == t);
                        }
                        if in_queue(queue, t) && t != s {
                            let i = choose|i: int| 0 <= i < queue.len() && queue[i] == t;
                            assert(rest[i - 1] == t);
                        }
                    }
                    before.lemma_queue_changed(self, p, s, false);
                    let now = self.listed(p) && rest.len() == 0;
                    lemma_count_update(before.stale_flags(), p, now);
                    assert(self.stale_flags() =~= before.stale_flags().update(p, now));
                },
                None => {
                    assert forall|t: int| #[trigger] self.queued(t) == before.queued(t) by {
                        if 0 <= t < self.span() && t / 64 != p {
                            assert(self.pages@[t / 64] == before.pages@[t / 64]);
                        }
                    }
                    assert(self.slots() =~= before.slots());
                    assert(self.stale_flags() =~= before.stale_flags());
                },
            }
        }
        slot
    }

    /// Claim a listed page of group `g`, the first one at or after `start`, and
    /// take its front lane. The page is listed again before the lane is taken,
    /// unless nothing is queued there.
    fn claim_work(&mut self, g: usize, start: usize) -> (claim: Option<(usize, Option<usize>)>)
        requires
            old(self).wf(),
            g < old(self).work_groups@.len(),
            start < PAGES_PER_GROUP,
        ensures
            final(self).wf(),
            final(self).same_size(old(self)),
            final(self).ready == old(self).ready,
            forall|h: int|
                0 <= h < old(self).work_groups@.len() && h != g ==> #[trigger] final(
                    self).work_groups@[h] == old(self).work_groups@[h],
            match claim {
                None => {
                    &&& old(self).work_groups@[g as int].bits == 0
                    &&& *final(self) == *old(self)
                },
                Some((place, slot)) => {
                    let p = g * 64 + place;
                    &&& place < PAGES_PER_GROUP
                    &&& p < old(self).pages@.len()
                    &&& first_from(
                        old(self).work_groups@[g as int].bits,
                        start as int,
                        place as int,
                    )
                    &&& final(self).same_queues_but(old(self), p)
                    &&& match slot {
                        None => {
                            &&& old(self).queue(p).len() == 0
                            &&& final(self).queue(p) == old(self).queue(p)
                            &&& !final(self).listed(p)
                            &&& final(self).same_listing_but(old(self), p)
                            &&& final(self).slots() == old(self).slots()
                            &&& final(self).stale() + 1 == old(self).stale()
                        },
                        Some(slot) => {
                            &&& old(self).queue(p).len() > 0
                            &&& old(self).queue(p)[0] == slot
                            &&& final(self).queue(p) == old(self).queue(p).drop_first()
                            &&& final(self).same_listing_but(old(self), -1)
                            &&& old(self).slots().contains(slot as int)
                            &&& final(self).slots() == old(self).slots().remove(slot as int)
                            &&& final(self).stale() <= old(self).stale() + 1
                        },
                    }
                },
            },
    {
        let ghost before = *self;
        if !self.work_groups[g].has_ready() {
            return None;
        }
        let claimed = self.work_groups[g].take_one_from(start);
        let place: usize = claimed.unwrap();
        assert(bit(before.work_groups@[g as int].bits, place as int));
        let page_id: usize = g * PAGES_PER_GROUP + place;
        let ghost p = page_id as int;
        proof {
            before.lemma_listing(self, p, false);
            assert(before.listed(p));
            assert(before.page_ok(p));
        }
        if !self.pages[page_id].lanes.is_empty() {
            let work_bit: u64 = self.pages[page_id].work_bit;
            self.work_groups[g].mark(work_bit);
            proof {
                before.lemma_listing(self, p, true);
                before.lemma_same_pages(self);
            }
            let ghost marked = *self;
            let slot = self.pop_direct(page_id);
            proof {
                assert forall|q: int| 0 <= q < before.pages@.len() implies #[trigger] self.listed(q)
                    == before.listed(q) by {
                    assert(self.listed(q) == marked.listed(q));
                }
                assert forall|q: int| 0 <= q < before.pages@.len() && q != p implies
                    #[trigger] self.queue(q) == before.queue(q) by {
                    assert(marked.queue(q) == before.queue(q));
                }
                assert(marked.queue(p) == before.queue(p));
            }
            Some((place, slot))
        } else {
            proof {
                before.lemma_same_pages(self);
                lemma_count_update(before.stale_flags(), p, false);
                assert(self.stale_flags() =~= before.stale_flags().update(p, false));
            }
            Some((place, None))
        }
    }

    /// With the same pages and index, a change of the work groups matters only
    /// for what is listed.
    proof fn lemma_same_pages(&self, after: &Routing)
        requires
            self.wf(),
            after.ready == self.ready,
            after.pages == self.pages,
            after.work_groups@.len() == self.work_groups@.len(),
            forall|g: int|
                0 <= g < after.work_groups@.len() ==> (#[trigger] after.work_groups@[g]).id == g,
            forall|g: int, j: int|
                0 <= g < after.work_groups@.len() && #[trigger] bit(after.work_groups@[g].bits, j)
                    ==> g * 64 + j < self.pages@.len(),
            forall|p: int|
                0 <= p < self.pages@.len() && self.pages@[p].lanes@.len() > 0
                    ==> #[trigger] after.listed(p),
        ensures
            after.wf(),
            after.slots() == self.slots(),
            (forall|p: int|
                0 <= p < self.pages@.len() ==> #[trigger] after.listed(p) == self.listed(p))
                ==> after.stale() == self.stale(),
    {
        assert forall|p: int| 0 <= p < after.pages@.len() implies #[trigger] after.page_ok(p) by {
            assert(self.page_ok(p));
        }
        assert forall|t: int| #[trigger] after.queued(t) == self.queued(t) by {}
        assert(after.slots() =~= self.slots());
        if forall|p: int|
            0 <= p < self.pages@.len() ==> #[trigger] after.listed(p) == self.listed(p) {
            assert(after.stale_flags() =~= self.stale_flags());
        }
    }
}

/// The remainder of a cursor by the number of places it runs over.
pub(super) fn wrap(cursor: usize, n: usize) -> (place: usize)
    requires
        n > 0,
    ensures
        place < n,
        place == cursor as int % n as int,
        cursor < n ==> place == cursor,
{
    proof {
        vstd::arithmetic::div_mod::lemma_mod_bound(cursor as int, n as int);
        if cursor < n {
            vstd::arithmetic::div_mod::lemma_small_mod(cursor as nat, n as nat);
        }
    }
    cursor % n
}

/// The place `offset` steps behind `start`, going round after `n`.
pub(super) fn step(start: usize, offset: usize, n: usize) -> (place: usize)
    requires
        start < n,
        offset < n,
    ensures
        place < n,
        place == if start + offset < n {
            start + offset
        } else {
            start + offset - n
        },
{
    if offset < n - start {
        start + offset
    } else {
        offset - (n - start)
    }
}

/// The place behind `place`, going round after `n`.
pub(super) fn next(place: usize, n: usize) -> (behind: usize)
    requires
        place < n,
    ensures
        behind < n,
        behind == following(place as int, n as int),
{
    if place == n - 1 {
        0
    } else {
        place + 1
    }
}

impl Routing {
    /// Whether no page is listed.
    pub open spec fn idle(&self) -> bool {
        forall|g: int|
            0 <= g < self.work_groups@.len() ==> (#[trigger] self.work_groups@[g]).bits == 0
    }

    /// Whether some lane is marked or some page is listed.
    pub open spec fn in_sight(&self) -> bool {
        self.ready@ != Set::<int>::empty() || !self.idle()
    }

    /// What acquiring a lane does, apart from where it looks next. A lane that
    /// was acquired leaves one publication in flight. A look that only met stale
    /// listings has removed some and counted a change.
    pub open spec fn acquired(
        &self,
        before: &Routing,
        slot: Option<usize>,
        tracker: PublicationTracker,
        earlier: PublicationTracker,
    ) -> bool {
        &&& self.wf()
        &&& self.same_size(before)
        &&& match slot {
            Some(slot) => {
                &&& before.slots().contains(slot as int)
                &&& self.slots() == before.slots().remove(slot as int)
                &&& self.stale() <= before.stale() + 1
                &&& tracker.in_flight == earlier.in_flight + 1
            },
            None => {
                &&& self.slots() == before.slots()
                &&& tracker.in_flight == earlier.in_flight
                &&& {
                    ||| self.stale() == before.stale() && tracker == earlier && before.idle()
                    ||| self.stale() < before.stale() && tracker.generation != earlier.generation
                }
            },
        }
    }

    /// Whether page `p` is the first one that its group lists at or after place
    /// `start`.
    pub open spec fn claims(&self, start: int, p: int) -> bool {
        &&& 0 <= p < self.pages@.len()
        &&& first_from(self.work_groups@[p / 64].bits, start, p % 64)
    }

    /// How many groups a look from `cursors` passes before group `g`.
    pub open spec fn passed(&self, cursors: &Cursors, g: int) -> int {
        let n = self.work_groups@.len() as int;
        turns(cursors.group as int % n, g, n)
    }

    /// Whether a look from `cursors` for queued lanes has claimed page `q`
    /// before it comes to the group at distance `n`.
    pub open spec fn claimed_before(&self, cursors: &Cursors, n: int, q: int) -> bool {
        self.claims(cursors.page as int, q) && self.passed(cursors, q / 64) < n
    }

    /// How many pages a look from `cursors` for queued lanes has claimed before it
    /// comes to the group at distance `n`.
    pub open spec fn claimed(&self, cursors: &Cursors, n: int) -> nat {
        count(Seq::new(self.pages@.len(), |q: int| self.claimed_before(cursors, n, q)))
    }

    /// How many stale listings a look from `from` meets that comes to the lane in
    /// `slot`, or to none.
    pub open spec fn stale_met(&self, from: Cursors, slot: Option<usize>) -> nat {
        let turned = from.turned();
        let groups = self.work_groups@.len() as int;
        if !from.prefer_work && self.ready@ != Set::<int>::empty() || self.queue(
            from.direct as int % self.pages@.len() as int,
        ).len() > 0 {
            0
        } else {
            match slot {
                Some(slot) if !self.ready@.contains(slot as int) => self.claimed(
                    &turned,
                    self.passed(&turned, slot as int / 4096),
                ),
                _ => self.claimed(&turned, groups),
            }
        }
    }

    /// No look meets more stale listings than there are pages.
    pub proof fn lemma_stale_met(&self, from: Cursors, slot: Option<usize>)
        ensures
            self.stale_met(from, slot) <= usize::MAX,
    {
        let turned = from.turned();
        let groups = self.work_groups@.len() as int;
        lemma_count_bound(
            Seq::new(self.pages@.len(), |q: int| self.claimed_before(&turned, groups, q)),
        );
        if let Some(slot) = slot {
            let n = self.passed(&turned, slot as int / 4096);
            lemma_count_bound(
                Seq::new(self.pages@.len(), |q: int| self.claimed_before(&turned, n, q)),
            );
        }
        assert(self.pages.len() <= usize::MAX);
    }

    /// Nothing is claimed before the first group.
    proof fn lemma_claimed_start(&self, cursors: &Cursors)
        requires
            0 < self.work_groups@.len(),
        ensures
            self.claimed(cursors, 0) == 0,
    {
        let flags = Seq::new(self.pages@.len(), |q: int| self.claimed_before(cursors, 0, q));
        assert forall|q: int| 0 <= q < flags.len() implies !#[trigger] flags[q] by {
            assert(!self.claimed_before(cursors, 0, q));
        }
        lemma_count_zero(flags);
    }

    /// A group that lists no page claims none.
    proof fn lemma_claimed_none(&self, cursors: &Cursors, g: int)
        requires
            self.wf(),
            cursors.wf(),
            0 <= g < self.work_groups@.len(),
            self.work_groups@[g].bits == 0,
        ensures
            self.claimed(cursors, self.passed(cursors, g) + 1) == self.claimed(
                cursors,
                self.passed(cursors, g),
            ),
    {
        let n = self.passed(cursors, g);
        lemma_zero();
        let flags = Seq::new(self.pages@.len(), |q: int| self.claimed_before(cursors, n, q));
        let more = Seq::new(self.pages@.len(), |q: int| self.claimed_before(cursors, n + 1, q));
        assert forall|q: int| 0 <= q < flags.len() implies #[trigger] flags[q] == more[q] by {
            if self.claimed_before(cursors, n + 1, q) && self.passed(cursors, q / 64) == n {
                assert(q / 64 == g);
            }
        }
        assert(flags =~= more);
    }

    /// A group that lists a page claims one.
    proof fn lemma_claimed_one(&self, cursors: &Cursors, p: int)
        requires
            self.wf(),
            cursors.wf(),
            self.claims(cursors.page as int, p),
        ensures
            self.claimed(cursors, self.passed(cursors, p / 64) + 1) == self.claimed(
                cursors,
                self.passed(cursors, p / 64),
            ) + 1,
    {
        let n = self.passed(cursors, p / 64);
        let flags = Seq::new(self.pages@.len(), |q: int| self.claimed_before(cursors, n, q));
        let more = Seq::new(self.pages@.len(), |q: int| self.claimed_before(cursors, n + 1, q));
        assert forall|q: int| 0 <= q < flags.len() implies #[trigger] more[q] == flags.update(
            p,
            true,
        )[q] by {
            if self.claimed_before(cursors, n + 1, q) && self.passed(cursors, q / 64) == n {
                assert(q / 64 == p / 64);
                self.lemma_one_claim(cursors.page as int, p, q);
            }
        }
        assert(more =~= flags.update(p, true));
        assert(!flags[p]);
        lemma_count_update(flags, p, true);
    }

    /// What looking for queued lanes has done before it comes to the group at
    /// distance `n`: the pages it claimed hold no lane and are not listed any
    /// more.
    pub open spec fn missed_queued(
        &self,
        before: &Routing,
        from: &Cursors,
        to: &Cursors,
        n: int,
    ) -> bool {
        &&& self.ready == before.ready
        &&& self.pages@.len() == before.pages@.len()
        &&& self.work_groups@.len() == before.work_groups@.len()
        &&& self.same_queues_but(before, -1)
        &&& forall|q: int| #[trigger]
            before.claimed_before(from, n, q) ==> before.queue(q).len() == 0
        &&& forall|q: int|
            0 <= q < before.pages@.len() ==> #[trigger] self.listed(q) == (before.listed(q)
                && !before.claimed_before(from, n, q))
        &&& {
            ||| *to == *from && forall|q: int| !#[trigger] before.claimed_before(from, n, q)
            ||| exists|p: int| #[trigger]
                before.claimed_before(from, n, p) && to.behind(
                    from,
                    p,
                    before.work_groups@.len() as int,
                    before.pages@.len() as int,
                ) && forall|q: int| #[trigger]
                    before.claimed_before(from, n, q) ==> before.passed(from, q / 64)
                        <= before.passed(from, p / 64)
        }
    }

    /// What taking a queued lane does. Groups come in turn, and in each the
    /// first page listed at or after the page cursor. The first of these pages
    /// that holds a lane gives its front one.
    pub open spec fn took_queued(
        &self,
        before: &Routing,
        from: &Cursors,
        to: &Cursors,
        slot: int,
    ) -> bool {
        let p = slot / 64;
        let n = before.passed(from, p / 64);
        &&& before.claims(from.page as int, p)
        &&& before.queue(p).len() > 0
        &&& before.queue(p)[0] == slot
        &&& self.ready == before.ready
        &&& self.queue(p) == before.queue(p).drop_first()
        &&& self.same_queues_but(before, p)
        &&& forall|q: int| #[trigger]
            before.claimed_before(from, n, q) ==> before.queue(q).len() == 0
        &&& forall|q: int|
            0 <= q < before.pages@.len() ==> #[trigger] self.listed(q) == (before.listed(q)
                && !before.claimed_before(from, n, q))
        &&& to.behind(from, p, before.work_groups@.len() as int, before.pages@.len() as int)
    }

    /// A group claims one page at most.
    proof fn lemma_one_claim(&self, start: int, p: int, q: int)
        requires
            0 <= start < 64,
            self.claims(start, p),
            self.claims(start, q),
            p / 64 == q / 64,
        ensures
            p == q,
    {
        let bits = self.work_groups@[p / 64].bits;
        assert(bit(bits, p % 64) && bit(bits, q % 64));
    }

    /// The group in turn lists no page.
    proof fn lemma_missed_none(&self, head: &Routing, from: &Cursors, at: &Cursors, g: int)
        requires
            self.wf(),
            from.wf(),
            0 <= g < self.work_groups@.len(),
            self.work_groups@[g].bits == 0,
            head.missed_queued(self, from, at, self.passed(from, g)),
        ensures
            head.missed_queued(self, from, at, self.passed(from, g) + 1),
    {
        let n = self.passed(from, g);
        lemma_zero();
        assert forall|q: int| #[trigger] self.claimed_before(from, n + 1, q)
            == self.claimed_before(from, n, q) by {
            if self.claimed_before(from, n + 1, q) && self.passed(from, q / 64) == n {
                assert(q / 64 == g);
            }
        }
        if exists|p: int| #[trigger]
            self.claimed_before(from, n, p) && at.behind(
                from,
                p,
                self.work_groups@.len() as int,
                self.pages@.len() as int,
            ) && forall|q: int| #[trigger]
                self.claimed_before(from, n, q) ==> self.passed(from, q / 64) <= self.passed(
                    from,
                    p / 64,
                ) {
            let p = choose|p: int| #[trigger]
                self.claimed_before(from, n, p) && at.behind(
                    from,
                    p,
                    self.work_groups@.len() as int,
                    self.pages@.len() as int,
                ) && forall|q: int| #[trigger]
                    self.claimed_before(from, n, q) ==> self.passed(from, q / 64) <= self.passed(
                        from,
                        p / 64,
                    );
            assert(self.claimed_before(from, n + 1, p));
        }
    }

    /// The page that the group in turn claims holds no lane.
    proof fn lemma_missed_queued(
        &self,
        head: &Routing,
        after: &Routing,
        from: &Cursors,
        at: &Cursors,
        to: &Cursors,
        p: int,
    )
        requires
            self.wf(),
            from.wf(),
            head.same_size(self),
            head.pages@.len() == self.pages@.len(),
            head.missed_queued(self, from, at, self.passed(from, p / 64)),
            self.claims(from.page as int, p),
            self.queue(p).len() == 0,
            after.ready == head.ready,
            after.pages@.len() == head.pages@.len(),
            after.work_groups@.len() == head.work_groups@.len(),
            after.same_queues_but(head, p),
            after.queue(p) == head.queue(p),
            !after.listed(p),
            after.same_listing_but(head, p),
            to.behind(from, p, self.work_groups@.len() as int, self.pages@.len() as int),
        ensures
            after.missed_queued(self, from, to, self.passed(from, p / 64) + 1),
    {
        let n = self.passed(from, p / 64);
        assert forall|q: int| #[trigger] self.claimed_before(from, n + 1, q) == (
        self.claimed_before(from, n, q) || q == p) by {
            if self.claimed_before(from, n + 1, q) && self.passed(from, q / 64) == n {
                assert(q / 64 == p / 64);
                self.lemma_one_claim(from.page as int, p, q);
            }
        }
        assert forall|q: int| 0 <= q < self.pages@.len() && q != -1 implies #[trigger] after.queue(
            q,
        ) == self.queue(q) by {
            assert(head.queue(q) == self.queue(q));
            if q != p {
                assert(after.queue(q) == head.queue(q));
            }
        }
        assert forall|q: int| 0 <= q < self.pages@.len() implies #[trigger] after.listed(q) == (
        self.listed(q) && !self.claimed_before(from, n + 1, q)) by {
            assert(self.claimed_before(from, n + 1, q) == (self.claimed_before(from, n, q) || q
                == p));
            if q != p {
                assert(after.listed(q) == head.listed(q));
            }
        }
        assert(self.claimed_before(from, n + 1, p));
    }

    /// The page that the group in turn claims gives its front lane.
    proof fn lemma_took_queued(
        &self,
        head: &Routing,
        after: &Routing,
        from: &Cursors,
        at: &Cursors,
        to: &Cursors,
        p: int,
        slot: int,
    )
        requires
            self.wf(),
            from.wf(),
            head.same_size(self),
            head.pages@.len() == self.pages@.len(),
            head.missed_queued(self, from, at, self.passed(from, p / 64)),
            self.claims(from.page as int, p),
            self.queue(p).len() > 0,
            self.queue(p)[0] == slot,
            after.ready == head.ready,
            after.same_queues_but(head, p),
            after.queue(p) == head.queue(p).drop_first(),
            after.same_listing_but(head, -1),
            to.behind(from, p, self.work_groups@.len() as int, self.pages@.len() as int),
        ensures
            after.took_queued(self, from, to, slot),
    {
        assert(self.page_ok(p));
        assert(slot / 64 == p);
        assert(head.queue(p) == self.queue(p));
        let n = self.passed(from, p / 64);
        assert forall|q: int| 0 <= q < self.pages@.len() && q != p implies #[trigger] after.queue(q)
            == self.queue(q) by {
            assert(head.queue(q) == self.queue(q));
            assert(after.queue(q) == head.queue(q));
        }
        assert forall|q: int| 0 <= q < self.pages@.len() implies #[trigger] after.listed(q) == (
        self.listed(q) && !self.claimed_before(from, n, q)) by {
            assert(after.listed(q) == head.listed(q));
        }
    }

    /// Take a lane that is queued on a listed page.
    fn acquire_work_lane(
        &mut self,
        cursors: &mut Cursors,
        tracker: &mut PublicationTracker,
    ) -> (slot: Option<usize>)
        requires
            old(self).wf(),
            old(cursors).wf(),
            old(tracker).in_flight < usize::MAX,
        ensures
            final(self).acquired(old(self), slot, *final(tracker), *old(tracker)),
            final(self).ready == old(self).ready,
            final(cursors).wf(),
            final(cursors).prefer_work == old(cursors).prefer_work,
            later(
                old(tracker).generation,
                final(tracker).generation,
                match slot {
                    Some(slot) => old(self).claimed(
                        old(cursors),
                        old(self).passed(old(cursors), slot as int / 4096),
                    ),
                    None => old(self).claimed(old(cursors), old(self).work_groups@.len() as int),
                } as int,
            ),
            match slot {
                Some(slot) => final(self).took_queued(
                    old(self),
                    old(cursors),
                    final(cursors),
                    slot as int,
                ),
                None => final(self).missed_queued(
                    old(self),
                    old(cursors),
                    final(cursors),
                    old(self).work_groups@.len() as int,
                ),
            },
    {
        let ghost before = *self;
        let ghost from = *cursors;
        let ghost earlier = *tracker;
        let group_count: usize = self.work_groups.len();
        let start: usize = wrap(cursors.group, group_count);
        let page_start: usize = cursors.page;
        let page_count: usize = self.pages.len();
        let ghost mut n: int = 0;
        let mut offset: usize = 0;
        proof {
            assert forall|q: int| !#[trigger] before.claimed_before(&from, 0, q) by {}
            before.lemma_claimed_start(&from);
        }
        while offset < group_count
            invariant
                self.missed_queued(&before, &from, cursors, offset as int),
                forall|g: int|
                    0 <= g < group_count && before.passed(&from, g) >= offset
                        ==> #[trigger] self.work_groups@[g] == before.work_groups@[g],
                from == *old(cursors),
                start == from.group as int % group_count as int,
                page_start == from.page,
                before.wf(),
                self.wf(),
                self.same_size(&before),
                self.ready == before.ready,
                self.slots() == before.slots(),
                self.stale() + n == before.stale(),
                before == *old(self),
                earlier == *old(tracker),
                0 <= n <= offset <= group_count,
                start < group_count,
                group_count == self.work_groups@.len(),
                page_count == self.pages@.len(),
                page_start < PAGES_PER_GROUP,
                cursors.wf(),
                cursors.prefer_work == old(cursors).prefer_work,
                tracker.in_flight == earlier.in_flight,
                earlier.in_flight < usize::MAX,
                later(earlier.generation, tracker.generation, n),
                n == before.claimed(&from, offset as int),
                n == 0 ==> *self == before && *tracker == earlier,
                n == 0 ==> forall|g: int|
                    0 <= g < group_count && (if g >= start {
                        g - start
                    } else {
                        g + group_count - start
                    }) < offset ==> (#[trigger] before.work_groups@[g]).bits == 0,
            decreases group_count - offset,
        {
            let group_index: usize = step(start, offset, group_count);
            let ghost head = *self;
            let ghost at = *cursors;
            assert(before.passed(&from, group_index as int) == offset);
            assert(self.work_groups@[group_index as int] == before.work_groups@[group_index as int]);
            if self.work_groups[group_index].has_ready() {
                tracker.begin();
                match self.claim_work(group_index, page_start) {
                    Some((place, slot)) => {
                        cursors.group = next(group_index, group_count);
                        cursors.page = next(place, PAGES_PER_GROUP);
                        let page_id: usize = group_index * PAGES_PER_GROUP + place;
                        cursors.direct = next(page_id, page_count);
                        proof {
                            let p = page_id as int;
                            assert(p / 64 == group_index && p % 64 == place);
                            assert(before.claims(page_start as int, p));
                            assert(head.queue(p) == before.queue(p));
                        }
                        if slot.is_some() {
                            proof {
                                before.lemma_took_queued(
                                    &head,
                                    self,
                                    &from,
                                    &at,
                                    cursors,
                                    page_id as int,
                                    slot->Some_0 as int,
                                );
                            }
                            return slot;
                        }
                        proof {
                            n = n + 1;
                            before.lemma_claimed_one(&from, page_id as int);
                            before.lemma_missed_queued(
                                &head,
                                self,
                                &from,
                                &at,
                                cursors,
                                page_id as int,
                            );
                        }
                    },
                    None => {},
                }
                tracker.finish();
            } else {
                proof {
                    lemma_zero();
                    before.lemma_claimed_none(&from, group_index as int);
                    before.lemma_missed_none(self, &from, cursors, group_index as int);
                }
            }
            offset += 1;
        }
        proof {
            if n == 0 {
                assert(before.idle());
            }
        }
        None
    }

    /// Whether the lane in `slot` is the next marked one for a look from
    /// `cursors`: groups come in turn, in each the pages in turn, and on a page
    /// the lowest lane.
    pub open spec fn next_marked(&self, cursors: &Cursors, slot: int) -> bool {
        let page = cursors.page as int;
        &&& self.ready@.contains(slot)
        &&& forall|t: int| #[trigger]
            self.ready@.contains(t) ==> {
                ||| self.passed(cursors, slot / 4096) < self.passed(cursors, t / 4096)
                ||| slot / 4096 == t / 4096 && distance(page, (slot / 64) % 64) < distance(
                    page,
                    (t / 64) % 64,
                )
                ||| slot / 64 == t / 64 && slot <= t
            }
    }

    /// What taking a marked lane does: the other marked lanes of its page are
    /// queued there, the lowest first, and the page is listed for them.
    pub open spec fn took_marked(
        &self,
        before: &Routing,
        from: &Cursors,
        to: &Cursors,
        slot: int,
    ) -> bool {
        let p = slot / 64;
        let others = self.queue(p).skip(before.queue(p).len() as int);
        &&& before.next_marked(from, slot)
        &&& forall|t: int| #[trigger]
            self.ready@.contains(t) <==> before.ready@.contains(t) && t / 64 != p
        &&& before.queue(p).is_prefix_of(self.queue(p))
        &&& rising(others)
        &&& forall|t: int| #[trigger]
            in_queue(others, t) <==> before.ready@.contains(t) && t / 64 == p && t != slot
        &&& self.same_queues_but(before, p)
        &&& self.listed(p) == (before.listed(p) || others.len() > 0)
        &&& self.same_listing_but(before, p)
        &&& to.behind(from, p, before.work_groups@.len() as int, before.pages@.len() as int)
    }

    /// Take the lowest of the claimed lanes of page `page_id` and queue the
    /// others there.
    fn take_ready_lane(&mut self, page_id: usize, lanes: u64) -> (slot: usize)
        requires
            old(self).wf(),
            page_id < old(self).pages@.len(),
            lanes != 0,
            forall|j: int| #[trigger]
                bit(lanes, j) ==> !old(self).slots().contains(page_id * 64 + j),
        ensures
            final(self).wf(),
            final(self).same_size(old(self)),
            final(self).ready == old(self).ready,
            final(self).stale() <= old(self).stale(),
            slot / 64 == page_id,
            bit(lanes, slot as int % 64),
            forall|t: int| #[trigger]
                final(self).slots().contains(t) <==> old(self).slots().contains(t) || (t / 64
                    == page_id && bit(lanes, t % 64) && t != slot),
            forall|j: int| #[trigger] bit(lanes, j) ==> slot <= page_id * 64 + j,
            ({
                let p = page_id as int;
                let others = final(self).queue(p).skip(old(self).queue(p).len() as int);
                &&& old(self).queue(p).is_prefix_of(final(self).queue(p))
                &&& rising(others)
                &&& forall|t: int| #[trigger]
                    in_queue(others, t) <==> t / 64 == p && bit(lanes, t % 64) && t != slot
                &&& final(self).same_queues_but(old(self), p)
                &&& final(self).listed(p) == (old(self).listed(p) || others.len() > 0)
                &&& final(self).same_listing_but(old(self), p)
            }),
    {
        let ghost before = *self;
        let ghost p = page_id as int;
        let ghost base = self.queue(p).len() as int;
        let (lowest, others) = pop_lowest(lanes);
        let slot: usize = page_id * LANES_PER_PAGE + lowest;
        let mut rest: u64 = others;
        assert(self.queue(p).skip(base) =~= Seq::<u64>::empty());
        while rest != 0
            invariant
                before.wf(),
                p == page_id,
                base == before.queue(p).len(),
                before.queue(p).is_prefix_of(self.queue(p)),
                rising(self.queue(p).skip(base)),
                forall|t: int| #[trigger]
                    in_queue(self.queue(p).skip(base), t) <==> t / 64 == p && bit(lanes, t % 64)
                        && t != slot && !bit(rest, t % 64),
                forall|i: int, j: int|
                    0 <= i < self.queue(p).len() - base && #[trigger] bit(rest, j)
                        ==> #[trigger] self.queue(p).skip(base)[i] < p * 64 + j,
                self.same_queues_but(&before, p),
                self.listed(p) == (before.listed(p) || self.queue(p).len() > base),
                self.same_listing_but(&before, p),
                forall|j: int| #[trigger] bit(lanes, j) ==> j >= lowest,
                self.wf(),
                self.same_size(&before),
                self.ready == before.ready,
                self.stale() <= before.stale(),
                before == *old(self),
                page_id < self.pages@.len(),
                slot == page_id * 64 + lowest,
                lowest < 64,
                forall|j: int| #[trigger] bit(rest, j) ==> bit(lanes, j) && j != lowest,
                forall|j: int| #[trigger]
                    bit(lanes, j) ==> !before.slots().contains(page_id * 64 + j),
                forall|t: int| #[trigger]
                    self.slots().contains(t) <==> before.slots().contains(t) || (t / 64 == page_id
                        && bit(lanes, t % 64) && t != slot && !bit(rest, t % 64)),
            decreases rest,
        {
            let ghost held = rest;
            let (place, remaining) = pop_lowest(rest);
            let other: usize = page_id * LANES_PER_PAGE + place;
            let ghost now = *self;
            proof {
                assert(bit(rest, place as int));
                assert(bit(lanes, place as int));
                assert(other as int % 64 == place && other as int / 64 == page_id);
                assert(!before.slots().contains(page_id * 64 + place));
                assert(!self.slots().contains(other as int));
            }
            self.requeue(other);
            rest = remaining;
            proof {
                let queued = now.queue(p).skip(base);
                let longer = self.queue(p).skip(base);
                assert(other as int / 64 == p);
                assert(self.queue(p) == now.queue(p).push(other as u64));
                assert(longer =~= queued.push(other as u64));
                assert forall|t: int| #[trigger] in_queue(longer, t) <==> in_queue(queued, t) || t
                    == other by {
                    if in_queue(queued, t) {
                        let i = choose|i: int| 0 <= i < queued.len() && queued[i] == t;
                        assert(longer[i] == t);
                    }
                    if t == other {
                        assert(longer[queued.len() as int] == t);
                    }
                    if in_queue(longer, t) && t != other {
                        let i = choose|i: int| 0 <= i < longer.len() && longer[i] == t;
                        assert(queued[i] == t);
                    }
                }
                assert forall|t: int| #[trigger] in_queue(longer, t) <==> t / 64 == p && bit(
                    lanes,
                    t % 64,
                ) && t != slot && !bit(rest, t % 64) by {
                    assert(in_queue(queued, t) <==> t / 64 == p && bit(lanes, t % 64) && t != slot
                        && !bit(held, t % 64));
                    assert(bit(rest, t % 64) <==> bit(held, t % 64) && t % 64 != place);
                    if t / 64 == p && t % 64 == place {
                        assert(t == other);
                    }
                }
                assert forall|i: int, j: int| 0 <= i < j < longer.len() implies longer[i]
                    < longer[j] by {
                    if j == queued.len() {
                        assert(bit(held, place as int));
                        assert(queued[i] < p * 64 + place);
                    } else {
                        assert(queued[i] < queued[j]);
                    }
                }
                assert forall|i: int, j: int|
                    0 <= i < self.queue(p).len() - base && #[trigger] bit(rest, j) implies
                    #[trigger] longer[i] < p * 64 + j by {
                    assert(bit(held, j));
                    if i < queued.len() {
                        assert(longer[i] == queued[i]);
                    }
                }
                assert forall|q: int| 0 <= q < before.pages@.len() && q != p implies
                    #[trigger] self.queue(q) == before.queue(q) by {
                    assert(now.queue(q) == before.queue(q));
                }
                assert forall|q: int| 0 <= q < before.pages@.len() && q != p implies
                    #[trigger] self.listed(q) == before.listed(q) by {
                    assert(now.listed(q) == before.listed(q));
                }
                assert forall|t: int| #[trigger]
                    self.slots().contains(t) <==> before.slots().contains(t) || (t / 64 == page_id
                        && bit(lanes, t % 64) && t != slot && !bit(rest, t % 64)) by {
                    assert(self.slots().contains(t) <==> now.slots().contains(t) || t == other);
                    assert(bit(rest, t % 64) <==> bit(held, t % 64) && t % 64 != place);
                    if t / 64 == page_id && t % 64 == place {
                        assert(t == other);
                    }
                }
            }
        }
        proof {
            lemma_zero();
            assert forall|t: int| #[trigger]
                self.slots().contains(t) <==> before.slots().contains(t) || (t / 64 == page_id
                    && bit(lanes, t % 64) && t != slot) by {}
        }
        slot
    }

    /// Take a marked lane.
    fn acquire_ready_lane(
        &mut self,
        cursors: &mut Cursors,
        tracker: &mut PublicationTracker,
    ) -> (slot: Option<usize>)
        requires
            old(self).wf(),
            old(cursors).wf(),
            old(tracker).in_flight < usize::MAX,
        ensures
            final(self).wf(),
            final(self).same_size(old(self)),
            final(cursors).wf(),
            final(cursors).prefer_work == old(cursors).prefer_work,
            slot is None <==> old(self).ready@ == Set::<int>::empty(),
            match slot {
                Some(slot) => {
                    &&& old(self).slots().contains(slot as int)
                    &&& final(self).slots() == old(self).slots().remove(slot as int)
                    &&& final(self).stale() <= old(self).stale()
                    &&& *final(tracker) == old(tracker).after_begin()
                    &&& final(self).took_marked(
                        old(self),
                        old(cursors),
                        final(cursors),
                        slot as int,
                    )
                },
                None => {
                    &&& *final(self) == *old(self)
                    &&& *final(tracker) == *old(tracker)
                    &&& *final(cursors) == *old(cursors)
                },
            },
    {
        let ghost before = *self;
        let group_count: usize = self.ready.group_count();
        let start: usize = wrap(cursors.group, group_count);
        let page_start: usize = cursors.page;
        let page_count: usize = self.pages.len();
        let mut offset: usize = 0;
        while offset < group_count
            invariant
                *self == before,
                before == *old(self),
                before.wf(),
                *tracker == *old(tracker),
                *cursors == *old(cursors),
                tracker.in_flight < usize::MAX,
                cursors.wf(),
                start < group_count,
                offset <= group_count,
                group_count == self.ready.groups@.len(),
                page_count == self.pages@.len(),
                page_start < PAGES_PER_GROUP,
                page_start == cursors.page,
                start == cursors.group as int % group_count as int,
                forall|slot: int| #[trigger]
                    before.ready@.contains(slot) ==> {
                        let g = slot / 4096;
                        (if g >= start {
                            g - start
                        } else {
                            g + group_count - start
                        }) >= offset
                    },
            decreases group_count - offset,
        {
            let group_index: usize = step(start, offset, group_count);
            if self.ready.groups[group_index].has_ready() {
                tracker.begin();
                match self.ready.claim_page(group_index, page_start) {
                    Some((place, lanes)) => {
                        cursors.group = next(group_index, group_count);
                        cursors.page = next(place, PAGES_PER_GROUP);
                        let page_id: usize = group_index * PAGES_PER_GROUP + place;
                        cursors.direct = next(page_id, page_count);
                        proof {
                            before.lemma_claimed(self, page_id as int, lanes);
                        }
                        let ghost mid = *self;
                        let slot: usize = self.take_ready_lane(page_id, lanes);
                        proof {
                            assert forall|t: int| #[trigger]
                                self.slots().contains(t) <==> before.slots().contains(t) && t
                                    != slot by {
                                assert(mid.slots().contains(t) <==> before.slots().contains(t)
                                    && !(t / 64 == page_id && bit(lanes, t % 64)));
                            }
                            assert(self.slots() =~= before.slots().remove(slot as int));
                            assert(before.slots().contains(slot as int));
                            assert(bit(lanes, slot as int % 64) <==> 0 <= slot as int % 64 < 64
                                && before.ready@.contains(page_id * 64 + slot as int % 64));
                            assert(before.ready@.contains(slot as int));
                            before.lemma_took_marked(
                                &mid,
                                self,
                                old(cursors),
                                cursors,
                                group_index as int,
                                place as int,
                                lanes,
                                slot as int,
                            );
                        }
                        return Some(slot);
                    },
                    None => {
                        proof {
                            before.ready.lemma_summary(group_index as int);
                        }
                    },
                }
            }
            proof {
                before.ready.lemma_summary(group_index as int);
                assert forall|slot: int| #[trigger] before.ready@.contains(slot) implies ({
                    let g = slot / 4096;
                    (if g >= start {
                        g - start
                    } else {
                        g + group_count - start
                    }) >= offset + 1
                }) by {
                    assert(slot / 4096 != group_index);
                }
            }
            offset += 1;
        }
        proof {
            assert forall|slot: int| !before.ready@.contains(slot) by {
                if before.ready@.contains(slot) {
                    assert(before.ready.is_ready(slot));
                }
            }
            assert(before.ready@ =~= Set::<int>::empty());
        }
        None
    }

    /// Claiming a page of the ready index and queueing the lanes that are not
    /// taken.
    proof fn lemma_took_marked(
        &self,
        mid: &Routing,
        after: &Routing,
        from: &Cursors,
        to: &Cursors,
        g: int,
        place: int,
        lanes: u64,
        slot: int,
    )
        requires
            self.wf(),
            from.wf(),
            0 <= g < self.work_groups@.len(),
            0 <= place < 64,
            g * 64 + place < self.pages@.len(),
            forall|t: int| #[trigger]
                self.ready@.contains(t) ==> self.passed(from, t / 4096) >= self.passed(from, g),
            first_from(self.ready.groups@[g].bits, from.page as int, place),
            forall|j: int| #[trigger]
                bit(lanes, j) <==> 0 <= j < 64 && self.ready@.contains((g * 64 + place) * 64 + j),
            forall|t: int| #[trigger]
                mid.ready@.contains(t) <==> self.ready@.contains(t) && t / 64 != g * 64 + place,
            mid.pages == self.pages,
            mid.work_groups == self.work_groups,
            after.ready == mid.ready,
            slot / 64 == g * 64 + place,
            bit(lanes, slot % 64),
            forall|j: int| #[trigger] bit(lanes, j) ==> slot <= (g * 64 + place) * 64 + j,
            ({
                let p = g * 64 + place;
                let others = after.queue(p).skip(mid.queue(p).len() as int);
                &&& mid.queue(p).is_prefix_of(after.queue(p))
                &&& rising(others)
                &&& forall|t: int| #[trigger]
                    in_queue(others, t) <==> t / 64 == p && bit(lanes, t % 64) && t != slot
                &&& after.same_queues_but(mid, p)
                &&& after.listed(p) == (mid.listed(p) || others.len() > 0)
                &&& after.same_listing_but(mid, p)
            }),
            to.behind(
                from,
                g * 64 + place,
                self.work_groups@.len() as int,
                self.pages@.len() as int,
            ),
        ensures
            after.took_marked(self, from, to, slot),
    {
        let p = g * 64 + place;
        let others = after.queue(p).skip(self.queue(p).len() as int);
        assert(p * 64 + slot % 64 == slot);
        assert(slot / 4096 == g);
        assert(self.ready@.contains(slot));
        assert forall|t: int| #[trigger] self.ready@.contains(t) implies {
            ||| self.passed(from, slot / 4096) < self.passed(from, t / 4096)
            ||| slot / 4096 == t / 4096 && distance(from.page as int, (slot / 64) % 64) < distance(
                from.page as int,
                (t / 64) % 64,
            )
            ||| slot / 64 == t / 64 && slot <= t
        } by {
            assert(self.ready.is_ready(t));
            let h = t / 4096;
            if self.passed(from, h) == self.passed(from, g) {
                assert(h == g);
                let j = (t / 64) % 64;
                assert(g * 64 + j == t / 64);
                assert(self.ready.linked(g, self.ready.groups@[g].bits));
                assert(self.ready.pages@[t / 64].bits != 0) by {
                    lemma_zero();
                }
                assert(bit(self.ready.groups@[g].bits, j));
                if j == place {
                    assert(p * 64 + t % 64 == t);
                    assert(bit(lanes, t % 64));
                }
            }
        }
        assert forall|t: int| #[trigger]
            in_queue(others, t) <==> self.ready@.contains(t) && t / 64 == p && t != slot by {
            if t / 64 == p {
                assert(p * 64 + t % 64 == t);
                assert(bit(lanes, t % 64) <==> 0 <= t % 64 < 64 && self.ready@.contains(
                    (g * 64 + place) * 64 + t % 64,
                ));
            }
        }
        assert forall|q: int| 0 <= q < self.pages@.len() && q != p implies #[trigger] after.queue(q)
            == self.queue(q) by {
            assert(after.queue(q) == mid.queue(q));
        }
        assert forall|q: int| 0 <= q < self.pages@.len() && q != p implies #[trigger] after.listed(
            q,
        ) == self.listed(q) by {
            assert(after.listed(q) == mid.listed(q));
        }
    }

    /// Claiming a page of the ready index.
    proof fn lemma_claimed(&self, after: &Routing, page: int, lanes: u64)
        requires
            self.wf(),
            0 <= page < self.pages@.len(),
            after.ready.wf(),
            after.ready.same_size(&self.ready),
            after.pages == self.pages,
            after.work_groups == self.work_groups,
            forall|j: int| #[trigger]
                bit(lanes, j) <==> 0 <= j < 64 && self.ready@.contains(page * 64 + j),
            forall|slot: int| #[trigger]
                after.ready@.contains(slot) <==> self.ready@.contains(slot) && slot / 64 != page,
        ensures
            after.wf(),
            after.stale() == self.stale(),
            forall|t: int| #[trigger]
                after.slots().contains(t) <==> self.slots().contains(t) && !(t / 64 == page && bit(
                    lanes,
                    t % 64,
                )),
            forall|j: int| #[trigger] bit(lanes, j) ==> !after.slots().contains(page * 64 + j),
    {
        assert forall|p: int| 0 <= p < after.pages@.len() implies #[trigger] after.page_ok(p) by {
            assert(self.page_ok(p));
        }
        assert forall|p: int| 0 <= p < after.pages@.len() implies #[trigger] after.listed(p)
            == self.listed(p) by {}
        assert(after.stale_flags() =~= self.stale_flags());
        assert forall|t: int| #[trigger] after.queued(t) == self.queued(t) by {}
        assert forall|t: int| #[trigger] self.queued(t) implies !self.ready@.contains(t) by {
            assert(self.page_ok(t / 64));
            let lanes = self.pages@[t / 64].lanes@;
            let i = choose|i: int| 0 <= i < lanes.len() && lanes[i] == t;
            assert(lanes[i] == t);
        }
        assert forall|t: int| #[trigger]
            after.slots().contains(t) <==> self.slots().contains(t) && !(t / 64 == page && bit(
                lanes,
                t % 64,
            )) by {
            if t / 64 == page {
                assert(page * 64 + t % 64 == t);
                assert(bit(lanes, t % 64) <==> 0 <= t % 64 < 64 && self.ready@.contains(page * 64 + t
                    % 64));
            }
        }
        assert forall|j: int| #[trigger] bit(lanes, j) implies !after.slots().contains(
            page * 64 + j,
        ) by {
            let t = page * 64 + j;
            assert(t / 64 == page && t % 64 == j);
        }
    }

    /// What acquiring a lane does. Marked and queued lanes come first in turn.
    /// A queued lane is taken from the remembered page if it holds one, and
    /// otherwise from a listed page.
    pub open spec fn routed(
        &self,
        before: &Routing,
        from: Cursors,
        to: Cursors,
        slot: Option<usize>,
    ) -> bool {
        let turned = from.turned();
        let pages = before.pages@.len() as int;
        let direct = from.direct as int % pages;
        let groups = before.work_groups@.len() as int;
        if !from.prefer_work && before.ready@ != Set::<int>::empty() {
            slot is Some && self.took_marked(before, &turned, &to, slot->Some_0 as int)
        } else if before.queue(direct).len() > 0 {
            &&& slot is Some
            &&& slot->Some_0 == before.queue(direct)[0]
            &&& self.ready == before.ready
            &&& self.work_groups == before.work_groups
            &&& self.queue(direct) == before.queue(direct).drop_first()
            &&& self.same_queues_but(before, direct)
            &&& to == (Cursors { direct: following(direct, pages) as usize, ..turned })
        } else {
            match slot {
                None => before.ready@ == Set::<int>::empty() && self.missed_queued(
                    before,
                    &turned,
                    &to,
                    groups,
                ),
                Some(slot) => {
                    ||| self.took_queued(before, &turned, &to, slot as int)
                    ||| exists|mid: Routing, past: Cursors| #[trigger]
                        mid.missed_queued(before, &turned, &past, groups) && self.took_marked(
                            &mid,
                            &past,
                            &to,
                            slot as int,
                        )
                },
            }
        }
    }

    /// Take a lane with work: a marked one or a queued one, in turn.
    pub fn acquire_lane(
        &mut self,
        cursors: &mut Cursors,
        tracker: &mut PublicationTracker,
    ) -> (slot: Option<usize>)
        requires
            old(self).wf(),
            old(cursors).wf(),
            old(tracker).in_flight < usize::MAX,
        ensures
            final(self).acquired(old(self), slot, *final(tracker), *old(tracker)),
            slot is None ==> old(self).ready@ == Set::<int>::empty(),
            final(self).routed(old(self), *old(cursors), *final(cursors), slot),
            later(
                old(tracker).generation,
                final(tracker).generation,
                old(self).stale_met(*old(cursors), slot) as int,
            ),
            final(cursors).wf(),
            final(cursors).prefer_work == !old(cursors).prefer_work,
    {
        let prefer_work: bool = cursors.prefer_work;
        cursors.prefer_work = !prefer_work;
        if !prefer_work {
            let slot = self.acquire_ready_lane(cursors, tracker);
            if slot.is_some() {
                return slot;
            }
        }
        let page_count: usize = self.pages.len();
        let direct: usize = wrap(cursors.direct, page_count);
        if !self.pages[direct].lanes.is_empty() {
            tracker.begin();
            let slot = self.pop_direct(direct);
            cursors.direct = next(direct, page_count);
            return slot;
        }
        let slot = self.acquire_work_lane(cursors, tracker);
        if slot.is_some() {
            proof {
                let p = slot->Some_0 as int / 64;
                assert(old(self).page_ok(p));
                assert(old(self).queue(p)[0] == old(self).pages@[p].lanes@[0]);
            }
            return slot;
        }
        if prefer_work {
            let ghost mid = *self;
            let ghost past = *cursors;
            let slot = self.acquire_ready_lane(cursors, tracker);
            proof {
                let turned = old(cursors).turned();
                assert(mid.missed_queued(
                    old(self),
                    &turned,
                    &past,
                    old(self).work_groups@.len() as int,
                ));
            }
            return slot;
        }
        None
    }
}

impl Routing {
    /// Cover at least the first `page_id + 1` pages.
    pub fn grow(&mut self, page_id: usize)
        requires
            old(self).wf(),
            page_id < usize::MAX / 64,
        ensures
            final(self).wf(),
            final(self).slots() == old(self).slots(),
            final(self).stale() == old(self).stale(),
            final(self).ready.pages@.len() == if old(self).ready.pages@.len() <= page_id {
                page_id + 1
            } else {
                old(self).ready.pages@.len() as int
            },
    {
        while self.pages.len() <= page_id
            invariant
                self.wf(),
                self.slots() == old(self).slots(),
                self.stale() == old(self).stale(),
                page_id < usize::MAX / 64,
                self.pages@.len() == old(self).ready.pages@.len() || self.pages@.len() <= page_id
                    + 1,
                old(self).ready.pages@.len() <= self.pages@.len(),
            decreases page_id + 1 - self.pages@.len(),
        {
            let ghost before = *self;
            let id: usize = self.pages.len();
            self.ready.grow(id);
            if self.work_groups.len() < self.ready.group_count() {
                let group = ReadyGroup::new(self.work_groups.len());
                self.work_groups.push(group);
            }
            let work_bit: u64 = single(id % PAGES_PER_GROUP);
            self.pages.push(LanePage { lanes: TicketQueue::bounded(LANES_PER_PAGE), work_bit });
            proof {
                lemma_zero();
                before.lemma_grown(self);
            }
        }
    }

    /// One page more.
    proof fn lemma_grown(&self, after: &Routing)
        requires
            self.wf(),
            after.ready.wf(),
            after.ready@ == self.ready@,
            after.ready.pages@.len() == self.ready.pages@.len() + 1,
            after.pages@.len() == self.pages@.len() + 1,
            forall|p: int| 0 <= p < self.pages@.len() ==> #[trigger] after.pages@[p] == self.pages@[p],
            after.pages@.last().lanes.wf(),
            after.pages@.last().lanes.limit() == Some(64nat),
            after.pages@.last().lanes@.len() == 0,
            forall|j: int| #[trigger]
                bit(after.pages@.last().work_bit, j) <==> j == self.pages@.len() % 64,
            after.work_groups@.len() == after.ready.groups@.len(),
            self.work_groups@.len() <= after.work_groups@.len() <= self.work_groups@.len() + 1,
            forall|g: int|
                0 <= g < self.work_groups@.len() ==> #[trigger] after.work_groups@[g]
                    == self.work_groups@[g],
            after.work_groups@.len() > self.work_groups@.len() ==> after.work_groups@.last().bits
                == 0 && after.work_groups@.last().id == self.work_groups@.len(),
        ensures
            after.wf(),
            after.slots() == self.slots(),
            after.stale() == self.stale(),
    {
        lemma_zero();
        let n = self.pages@.len() as int;
        assert forall|p: int| 0 <= p < after.pages@.len() implies #[trigger] after.page_ok(p) by {
            if p < n {
                assert(self.page_ok(p));
                assert(after.pages@[p] == self.pages@[p]);
            }
        }
        assert forall|g: int| 0 <= g < after.work_groups@.len() implies (
        #[trigger] after.work_groups@[g]).id == g by {
            if g < self.work_groups@.len() {
                assert(after.work_groups@[g] == self.work_groups@[g]);
            }
        }
        assert forall|g: int, j: int|
            0 <= g < after.work_groups@.len() && #[trigger] bit(
                after.work_groups@[g].bits,
                j,
            ) implies g * 64 + j < after.pages@.len() by {
            if g < self.work_groups@.len() {
                assert(bit(self.work_groups@[g].bits, j));
            }
        }
        assert forall|p: int| 0 <= p < n implies #[trigger] after.listed(p) == self.listed(p) by {
            assert(after.work_groups@[p / 64] == self.work_groups@[p / 64]);
        }
        assert(!after.listed(n)) by {
            if after.listed(n) {
                let g = n / 64;
                if g < self.work_groups@.len() {
                    assert(bit(self.work_groups@[g].bits, n % 64));
                }
            }
        }
        assert forall|p: int|
            0 <= p < after.pages@.len() && (#[trigger] after.pages@[p]).lanes@.len() > 0 implies
            after.listed(p) by {
            assert(self.pages@[p].lanes@.len() > 0);
        }
        assert forall|t: int| #[trigger] after.queued(t) == self.queued(t) by {
            if 0 <= t < self.span() {
                assert(after.pages@[t / 64] == self.pages@[t / 64]);
            } else if self.span() <= t < after.span() {
                assert(t / 64 == n);
            }
        }
        assert(after.slots() =~= self.slots());
        assert(after.stale_flags() =~= self.stale_flags().push(false));
        lemma_count_push(self.stale_flags(), false);
    }

    /// Mark a lane that turned pending. Returns whether it was idle.
    pub(super) fn mark(&mut self, signal: &mut LaneSignal, Ghost(slot): Ghost<int>) -> (marked: bool)
        requires
            old(self).wf(),
            0 <= slot < old(self).span(),
            old(signal).wf(slot),
            !old(signal).pending ==> !old(self).slots().contains(slot),
        ensures
            final(self).wf(),
            final(self).same_size(old(self)),
            final(self).stale() == old(self).stale(),
            marked == !old(signal).pending,
            *final(signal) == (LaneSignal { pending: true, ..*old(signal) }),
            final(self).slots() == if marked {
                old(self).slots().insert(slot)
            } else {
                old(self).slots()
            },
    {
        let ghost before = *self;
        let marked: bool = signal.mark(&mut self.ready);
        proof {
            if marked {
                assert(self.ready@ == before.ready@.insert(slot)) by {
                    assert(old(signal).wf(slot));
                }
                assert forall|p: int| 0 <= p < self.pages@.len() implies #[trigger] self.page_ok(
                    p,
                ) by {
                    assert(before.page_ok(p));
                    let lanes = self.pages@[p].lanes@;
                    assert forall|i: int| 0 <= i < lanes.len() implies !self.ready@.contains(
                        #[trigger] lanes[i] as int,
                    ) by {
                        if lanes[i] == slot {
                            assert(in_queue(lanes, slot));
                            assert(before.queued(slot));
                        }
                    }
                }
                assert forall|t: int| #[trigger] self.queued(t) == before.queued(t) by {}
                assert(self.slots() =~= before.slots().insert(slot));
                assert forall|p: int| 0 <= p < self.pages@.len() implies #[trigger] self.listed(p)
                    == before.listed(p) by {}
                assert(self.stale_flags() =~= before.stale_flags());
            } else {
                assert(*self == before);
            }
        }
        marked
    }
}

} // verus!
