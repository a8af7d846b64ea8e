//! The index that finds lanes with work.
//!
//! A page holds one bit for each of 64 lanes, a group one bit for each of 64
//! pages. A lane is put into the index only when it changes from idle to
//! pending, a page only when it changes from empty to nonempty.
use vstd::prelude::*;

use std::collections::VecDeque;

use vstd::std_specs::bits::u64_trailing_zeros;

use crate::bits::{
    bit, first_from, lemma_nonzero, lemma_zero, pop_first_from, pop_lowest, single, union,
};
use crate::wait::WaitCell;

verus! {

/// Lanes covered by one page.
pub const LANES_PER_PAGE: usize = 64;

/// Pages covered by one group.
pub const PAGES_PER_GROUP: usize = 64;

/// Top-level summary for 64 ready pages.
#[derive(Debug, PartialEq, Eq, Structural)]
pub struct ReadyGroup {
    /// Position among the groups.
    pub id: usize,
    /// Pages that hold a ready lane.
    pub bits: u64,
}

impl ReadyGroup {
    /// A group without ready pages.
    pub fn new(id: usize) -> (group: ReadyGroup)
        ensures
            group.id == id,
            group.bits == 0,
    {
        ReadyGroup { id, bits: 0 }
    }

    /// Position among the groups.
    pub fn id(&self) -> (id: usize)
        ensures
            id == self.id,
    {
        self.id
    }

    /// Add the pages in `bits`.
    pub fn mark(&mut self, bits: u64)
        ensures
            final(self).id == old(self).id,
            final(self).bits == old(self).bits | bits,
            forall|j: int| #[trigger]
                bit(final(self).bits, j) <==> bit(old(self).bits, j) || bit(bits, j),
    {
        self.bits = union(self.bits, bits);
    }

    /// Whether some page is ready.
    pub fn has_ready(&self) -> (ready: bool)
        ensures
            ready == (self.bits != 0),
    {
        self.bits != 0
    }

    /// Take every ready page.
    pub fn take_all(&mut self) -> (bits: u64)
        ensures
            bits == old(self).bits,
            final(self).bits == 0,
            final(self).id == old(self).id,
            forall|race: PageRace, page: int| #[trigger]
                race.is_listed(page, *old(self)) ==> race.after(PageStep::TakeGroup).is_listed(
                    page,
                    *final(self),
                ),
    {
        let bits: u64 = self.bits;
        self.bits = 0;
        proof {
            lemma_zero();
        }
        bits
    }

    /// Take the first ready page at or after `start`, going round at the end.
    pub fn take_one_from(&mut self, start: usize) -> (page: Option<usize>)
        requires
            start < PAGES_PER_GROUP,
        ensures
            final(self).id == old(self).id,
            match page {
                None => old(self).bits == 0 && final(self).bits == 0,
                Some(page) => {
                    &&& first_from(old(self).bits, start as int, page as int)
                    &&& forall|j: int| #[trigger]
                        bit(final(self).bits, j) <==> bit(old(self).bits, j) && j != page
                    &&& forall|race: PageRace, p: int| #[trigger]
                        race.is_listed(p, *old(self)) ==> if p % 64 == page {
                            race.after(PageStep::TakeGroup).is_listed(p, *final(self))
                        } else {
                            race.is_listed(p, *final(self))
                        }
                },
            },
    {
        match pop_first_from(self.bits, start) {
            None => None,
            Some((page, rest)) => {
                self.bits = rest;
                Some(page)
            },
        }
    }
}

/// One page in the ready index.
#[derive(Debug, PartialEq, Eq, Structural)]
pub struct ReadyPage {
    /// Position among the pages.
    pub id: usize,
    /// Lanes that became pending since the page was last taken.
    pub bits: u64,
    /// The bit of this page in its group.
    pub group_bit: u64,
}

impl ReadyPage {
    /// The bit of the page in its group names its position there.
    pub open spec fn wf(self) -> bool {
        forall|j: int| #[trigger] bit(self.group_bit, j) <==> j == self.id % PAGES_PER_GROUP
    }

    /// A page without ready lanes.
    pub fn new(id: usize) -> (page: ReadyPage)
        ensures
            page.wf(),
            page.id == id,
            page.bits == 0,
    {
        ReadyPage { id, bits: 0, group_bit: single(id % PAGES_PER_GROUP) }
    }

    /// Position among the pages.
    pub fn id(&self) -> (id: usize)
        ensures
            id == self.id,
    {
        self.id
    }

    /// Mark lanes ready and publish the page when it was empty before.
    pub fn mark(&mut self, bits: u64, group: &mut ReadyGroup)
        requires
            old(self).wf(),
        ensures
            final(self).wf(),
            final(self).id == old(self).id,
            final(self).group_bit == old(self).group_bit,
            final(self).bits == old(self).bits | bits,
            forall|j: int| #[trigger]
                bit(final(self).bits, j) <==> bit(old(self).bits, j) || bit(bits, j),
            final(group).id == old(group).id,
            old(self).bits != 0 ==> *final(group) == *old(group),
            old(self).bits == 0 ==> final(group).bits == old(group).bits | old(self).group_bit
                && forall|j: int| #[trigger]
                bit(final(group).bits, j) <==> bit(old(group).bits, j) || j == old(self).id
                    % PAGES_PER_GROUP,
            forall|race: PageRace| #[trigger]
                race.stands(*old(self), *old(group)) && bits != 0 ==> {
                    let marked = race.after(PageStep::MarkPage(bits));
                    &&& old(self).bits == 0 ==> marked.after(PageStep::MarkGroup).stands(
                        *final(self),
                        *final(group),
                    )
                    &&& old(self).bits != 0 ==> marked.stands(*final(self), *final(group))
                },
    {
        let previous: u64 = self.bits;
        self.bits = union(previous, bits);
        if previous == 0 {
            group.mark(self.group_bit);
        }
    }

    /// Take every ready lane of the page.
    pub fn take(&mut self) -> (bits: u64)
        ensures
            bits == old(self).bits,
            final(self).bits == 0,
            final(self).id == old(self).id,
            final(self).group_bit == old(self).group_bit,
            forall|race: PageRace, group: ReadyGroup| #[trigger]
                race.stands(*old(self), group) && race.claimed ==> race.after(
                    PageStep::TakePage,
                ).stands(*final(self), group),
    {
        let bits: u64 = self.bits;
        self.bits = 0;
        bits
    }
}

/// Lanes covered by one group.
pub const LANES_PER_GROUP: usize = 4096;

/// Pages and groups that cover every lane slot.
pub struct ReadyIndex {
    /// One summary for every 64 pages.
    pub groups: Vec<ReadyGroup>,
    /// One page for every 64 lanes.
    pub pages: Vec<ReadyPage>,
}

/// The members of `out` from position `base` on rise strictly.
pub open spec fn rising_from(out: Seq<usize>, base: int) -> bool {
    forall|i: int, j: int| base <= i < j < out.len() ==> out[i] < out[j]
}

/// Whether `slot` stands in `out` at position `base` or later.
pub open spec fn holds_from(out: Seq<usize>, base: int, slot: int) -> bool {
    exists|i: int| base <= i < out.len() && out[i] == slot
}

/// Whether `out` is `before` with something appended.
pub open spec fn extends(out: Seq<usize>, before: Seq<usize>) -> bool {
    &&& before.len() <= out.len()
    &&& forall|i: int| 0 <= i < before.len() ==> out[i] == before[i]
}

impl View for ReadyIndex {
    type V = Set<int>;

    /// The ready slots.
    open spec fn view(&self) -> Set<int> {
        Set::new(|slot: int| self.is_ready(slot))
    }
}

impl ReadyIndex {
    /// Whether the lane in `slot` is ready.
    pub open spec fn is_ready(&self, slot: int) -> bool {
        0 <= slot < self.span() && bit(self.pages@[slot / 64].bits, slot % 64)
    }

    /// Slots covered.
    pub open spec fn span(&self) -> int {
        self.pages@.len() * 64int
    }

    /// Whether two indices cover the same slots.
    pub open spec fn same_size(&self, other: &ReadyIndex) -> bool {
        self.pages@.len() == other.pages@.len() && self.groups@.len() == other.groups@.len()
    }

    /// The word `bits` names the pages of group `g` that hold a ready lane.
    pub open spec fn linked(&self, g: int, bits: u64) -> bool {
        forall|j: int| #[trigger]
            bit(bits, j) <==> 0 <= j < 64 && g * 64 + j < self.pages@.len() && self.pages@[g * 64
                + j].bits != 0
    }

    /// Every page and group stands at its position.
    pub open spec fn placed(&self) -> bool {
        &&& 0 < self.pages@.len()
        &&& self.pages@.len() * 64 <= usize::MAX
        &&& self.groups@.len() == (self.pages@.len() + 63) / 64
        &&& forall|p: int|
            0 <= p < self.pages@.len() ==> (#[trigger] self.pages@[p]).id == p
                && self.pages@[p].wf()
        &&& forall|g: int|
            0 <= g < self.groups@.len() ==> (#[trigger] self.groups@[g]).id == g
    }

    /// Every group names exactly its pages with a ready lane.
    pub open spec fn wf(&self) -> bool {
        &&& self.placed()
        &&& forall|g: int|
            0 <= g < self.groups@.len() ==> self.linked(g, (#[trigger] self.groups@[g]).bits)
    }

    /// An index with one empty page.
    pub fn new() -> (index: ReadyIndex)
        ensures
            index.wf(),
            index@ == Set::<int>::empty(),
            index.pages@.len() == 1,
            index.groups@.len() == 1,
    {
        let mut groups: Vec<ReadyGroup> = Vec::new();
        groups.push(ReadyGroup::new(0));
        let mut pages: Vec<ReadyPage> = Vec::new();
        pages.push(ReadyPage::new(0));
        let index = ReadyIndex { groups, pages };
        proof {
            lemma_zero();
            assert(index@ =~= Set::<int>::empty());
        }
        index
    }

    /// How many groups there are.
    pub fn group_count(&self) -> (count: usize)
        ensures
            count == self.groups@.len(),
    {
        self.groups.len()
    }

    /// Cover at least the first `page_id + 1` pages.
    pub fn grow(&mut self, page_id: usize)
        requires
            old(self).wf(),
            page_id < usize::MAX / 64,
        ensures
            final(self).wf(),
            final(self)@ == old(self)@,
            final(self).pages@.len() == if old(self).pages@.len() <= page_id {
                page_id + 1
            } else {
                old(self).pages@.len() as int
            },
    {
        while self.pages.len() <= page_id
            invariant
                self.wf(),
                self@ == old(self)@,
                page_id < usize::MAX / 64,
                self.pages@.len() == old(self).pages@.len() || self.pages@.len() <= page_id + 1,
                old(self).pages@.len() <= self.pages@.len(),
            decreases page_id + 1 - self.pages@.len(),
        {
            let ghost before = *self;
            let id: usize = self.pages.len();
            let group_id: usize = id / PAGES_PER_GROUP;
            if self.groups.len() <= group_id {
                let group = ReadyGroup::new(self.groups.len());
                self.groups.push(group);
            }
            self.pages.push(ReadyPage::new(id));
            proof {
                lemma_zero();
                assert forall|g: int| 0 <= g < self.groups@.len() implies self.linked(
                    g,
                    (#[trigger] self.groups@[g]).bits,
                ) by {
                    if g < before.groups@.len() {
                        assert(self.groups@[g] == before.groups@[g]);
                        assert(before.linked(g, before.groups@[g].bits));
                        assert forall|j: int| #[trigger]
                            bit(self.groups@[g].bits, j) <==> 0 <= j < 64 && g * 64 + j
                                < self.pages@.len() && self.pages@[g * 64 + j].bits != 0 by {}
                    }
                }
                assert(self@ =~= before@) by {
                    assert forall|slot: int| self.is_ready(slot) == before.is_ready(slot) by {
                        if 0 <= slot < before.span() {
                            assert(self.pages@[slot / 64] == before.pages@[slot / 64]);
                        }
                    }
                }
            }
        }
    }

    /// Make the lanes in `bits` of page `page` ready.
    pub fn mark(&mut self, page: usize, bits: u64)
        requires
            old(self).wf(),
            page < old(self).pages@.len(),
            bits != 0,
        ensures
            final(self).wf(),
            final(self).same_size(old(self)),
            forall|slot: int| #[trigger]
                final(self)@.contains(slot) <==> old(self)@.contains(slot) || (slot / 64 == page
                    && bit(bits, slot % 64)),
    {
        let group: usize = page / PAGES_PER_GROUP;
        let ghost before = *self;
        let old_bits: u64 = self.pages[page].bits;
        self.pages[page].mark(bits, &mut self.groups[group]);
        proof {
            lemma_zero();
            assert(self.pages@[page as int].bits != 0) by {
                assert((old_bits | bits) == 0 <==> old_bits == 0 && bits == 0) by (bit_vector);
            }
            assert forall|g: int| 0 <= g < self.groups@.len() implies self.linked(
                g,
                (#[trigger] self.groups@[g]).bits,
            ) by {
                assert(before.linked(g, before.groups@[g].bits));
                assert forall|j: int| #[trigger]
                    bit(self.groups@[g].bits, j) <==> 0 <= j < 64 && g * 64 + j < self.pages@.len()
                        && self.pages@[g * 64 + j].bits != 0 by {
                    assert(bit(before.groups@[g].bits, j) <==> 0 <= j < 64 && g * 64 + j
                        < before.pages@.len() && before.pages@[g * 64 + j].bits != 0);
                }
            }
            assert forall|slot: int| #[trigger] self@.contains(slot) <==> before@.contains(slot)
                || (slot / 64 == page && bit(bits, slot % 64)) by {
                if 0 <= slot < self.span() && slot / 64 != page {
                    assert(self.pages@[slot / 64] == before.pages@[slot / 64]);
                }
            }
        }
    }

    /// The word of a group tells whether it holds a ready lane.
    proof fn lemma_group_summary(&self, g: int) -> (slot: int)
        requires
            self.wf(),
            0 <= g < self.groups@.len(),
        ensures
            self.groups@[g].bits != 0 ==> self.is_ready(slot) && slot / 4096 == g,
            self.groups@[g].bits == 0 ==> forall|t: int| #[trigger]
                self.is_ready(t) ==> t / 4096 != g,
    {
        let bits = self.groups@[g].bits;
        assert(self.linked(g, bits));
        lemma_zero();
        if bits == 0 {
            assert forall|t: int| #[trigger] self.is_ready(t) implies t / 4096 != g by {
                if t / 4096 == g {
                    let j = (t / 64) % 64;
                    assert(g * 64 + j == t / 64);
                    assert(!bit(bits, j));
                }
            }
            0
        } else {
            lemma_nonzero(bits);
            let page = g * 64 + u64_trailing_zeros(bits);
            lemma_nonzero(self.pages@[page].bits);
            page * 64 + u64_trailing_zeros(self.pages@[page].bits)
        }
    }

    /// A group whose word is zero holds no ready lane.
    pub proof fn lemma_summary(&self, g: int)
        requires
            self.wf(),
            0 <= g < self.groups@.len(),
        ensures
            self.groups@[g].bits == 0 <==> forall|slot: int| #[trigger]
                self@.contains(slot) ==> slot / 4096 != g,
    {
        let slot = self.lemma_group_summary(g);
        if self.groups@[g].bits != 0 {
            assert(self@.contains(slot));
        } else {
            assert forall|t: int| #[trigger] self@.contains(t) implies t / 4096 != g by {
                assert(self.is_ready(t));
            }
        }
    }

    /// Whether some lane is ready.
    pub fn has_ready(&self) -> (ready: bool)
        requires
            self.wf(),
        ensures
            ready == (self@ != Set::<int>::empty()),
    {
        let mut g: usize = 0;
        while g < self.groups.len()
            invariant
                self.wf(),
                g <= self.groups@.len(),
                forall|slot: int| #[trigger] self.is_ready(slot) ==> slot / 4096 >= g,
            decreases self.groups@.len() - g,
        {
            proof {
                let slot = self.lemma_group_summary(g as int);
                if self.groups@[g as int].bits != 0 {
                    assert(self@.contains(slot));
                }
            }
            if self.groups[g].has_ready() {
                return true;
            }
            g += 1;
        }
        proof {
            assert forall|slot: int| !self@.contains(slot) by {}
            assert(self@ =~= Set::<int>::empty());
        }
        false
    }

    /// Take the ready lanes of one page of group `g`, the first page at or after
    /// `start` that has any, going round at the end. Returns the page's place in
    /// the group and its lanes.
    pub fn claim_page(&mut self, g: usize, start: usize) -> (claim: Option<(usize, u64)>)
        requires
            old(self).wf(),
            g < old(self).groups@.len(),
            start < PAGES_PER_GROUP,
        ensures
            final(self).wf(),
            final(self).same_size(old(self)),
            match claim {
                None => final(self)@ == old(self)@ && forall|slot: int| #[trigger]
                    old(self)@.contains(slot) ==> slot / 4096 != g,
                Some((place, lanes)) => {
                    let page = g * 64 + place;
                    &&& first_from(old(self).groups@[g as int].bits, start as int, place as int)
                    &&& page < old(self).pages@.len()
                    &&& lanes != 0
                    &&& forall|j: int| #[trigger]
                        bit(lanes, j) <==> 0 <= j < 64 && old(self)@.contains(page * 64 + j)
                    &&& forall|slot: int| #[trigger]
                        final(self)@.contains(slot) <==> old(self)@.contains(slot) && slot / 64
                            != page
                },
            },
    {
        let ghost start_state = *self;
        proof {
            let slot = self.lemma_group_summary(g as int);
            assert(self.linked(g as int, self.groups@[g as int].bits));
            lemma_zero();
        }
        match self.groups[g].take_one_from(start) {
            None => {
                proof {
                    assert(self.groups@[g as int] == start_state.groups@[g as int]);
                    assert(self.groups@ =~= start_state.groups@);
                    assert forall|h: int| 0 <= h < self.groups@.len() implies self.linked(
                        h,
                        (#[trigger] self.groups@[h]).bits,
                    ) by {
                        assert(start_state.linked(h, start_state.groups@[h].bits));
                        assert forall|j: int| #[trigger]
                            bit(self.groups@[h].bits, j) <==> 0 <= j < 64 && h * 64 + j
                                < self.pages@.len() && self.pages@[h * 64 + j].bits != 0 by {
                            assert(bit(start_state.groups@[h].bits, j) <==> 0 <= j < 64 && h * 64
                                + j < start_state.pages@.len() && start_state.pages@[h * 64
                                + j].bits != 0);
                        }
                    }
                    assert(self@ =~= start_state@);
                }
                None
            },
            Some(place) => {
                assert(bit(start_state.groups@[g as int].bits, place as int));
                let page: usize = g * PAGES_PER_GROUP + place;
                let lanes: u64 = self.pages[page].take();
                proof {
                    assert forall|h: int| 0 <= h < self.groups@.len() implies self.linked(
                        h,
                        (#[trigger] self.groups@[h]).bits,
                    ) by {
                        assert(start_state.linked(h, start_state.groups@[h].bits));
                        assert forall|j: int| #[trigger]
                            bit(self.groups@[h].bits, j) <==> 0 <= j < 64 && h * 64 + j
                                < self.pages@.len() && self.pages@[h * 64 + j].bits != 0 by {
                            assert(bit(start_state.groups@[h].bits, j) <==> 0 <= j < 64 && h * 64
                                + j < start_state.pages@.len() && start_state.pages@[h * 64
                                + j].bits != 0);
                        }
                    }
                    assert forall|j: int| #[trigger]
                        bit(lanes, j) <==> 0 <= j < 64 && start_state@.contains(page * 64 + j) by {
                        if 0 <= j < 64 {
                            assert((page * 64 + j) / 64 == page);
                            assert((page * 64 + j) % 64 == j);
                        }
                    }
                    assert forall|slot: int| #[trigger]
                        self@.contains(slot) <==> start_state@.contains(slot) && slot / 64
                            != page by {
                        if 0 <= slot < self.span() && slot / 64 != page {
                            assert(self.pages@[slot / 64] == start_state.pages@[slot / 64]);
                        }
                    }
                }
                Some((place, lanes))
            },
        }
    }

    /// Take every ready lane of page `page_id` and append the slots to `out` in
    /// rising order.
    fn take_page(&mut self, page_id: usize, out: &mut VecDeque<usize>)
        requires
            old(self).placed(),
            page_id < old(self).pages@.len(),
        ensures
            final(self).groups == old(self).groups,
            final(self).pages@ == old(self).pages@.update(
                page_id as int,
                ReadyPage { bits: 0, ..old(self).pages@[page_id as int] },
            ),
            final(self).placed(),
            extends(final(out)@, old(out)@),
            rising_from(final(out)@, old(out)@.len() as int),
            forall|slot: int| #[trigger]
                holds_from(final(out)@, old(out)@.len() as int, slot) <==> slot / 64 == page_id
                    && bit(old(self).pages@[page_id as int].bits, slot % 64),
    {
        let mut lane_bits: u64 = self.pages[page_id].take();
        let ghost all = lane_bits;
        let ghost base = out@.len() as int;
        assert(self.pages@ =~= old(self).pages@.update(
            page_id as int,
            ReadyPage { bits: 0, ..old(self).pages@[page_id as int] },
        ));
        while lane_bits != 0
            invariant
                page_id < usize::MAX / 64,
                base == old(out)@.len(),
                extends(out@, old(out)@),
                rising_from(out@, base),
                forall|j: int| #[trigger] bit(lane_bits, j) ==> bit(all, j),
                forall|i: int, j: int|
                    base <= i < out@.len() && #[trigger] bit(lane_bits, j) ==> #[trigger] out@[i]
                        < page_id * 64 + j,
                forall|slot: int| #[trigger]
                    holds_from(out@, base, slot) <==> slot / 64 == page_id && bit(all, slot % 64)
                        && !bit(lane_bits, slot % 64),
            decreases lane_bits,
        {
            let ghost before = out@;
            let ghost before_bits = lane_bits;
            let (lane_bit, rest) = pop_lowest(lane_bits);
            lane_bits = rest;
            let slot: usize = page_id * LANES_PER_PAGE + lane_bit;
            out.push_back(slot);
            proof {
                assert forall|t: int| #[trigger] holds_from(out@, base, t) <==> t / 64 == page_id
                    && bit(all, t % 64) && !bit(lane_bits, t % 64) by {
                    if holds_from(before, base, t) {
                        let i = choose|i: int| base <= i < before.len() && before[i] == t;
                        assert(out@[i] == t);
                    }
                    if holds_from(out@, base, t) && t != slot {
                        let i = choose|i: int| base <= i < out@.len() && out@[i] == t;
                        assert(before[i] == t);
                        assert(holds_from(before, base, t));
                    }
                    if t == slot {
                        assert(out@[before.len() as int] == t);
                    }
                    assert(holds_from(before, base, t) <==> t / 64 == page_id && bit(all, t % 64)
                        && !bit(before_bits, t % 64));
                    assert(bit(before_bits, t % 64) && t / 64 == page_id && t % 64 == lane_bit ==> t
                        == slot);
                }
            }
        }
        proof {
            lemma_zero();
        }
    }

    /// Take every ready lane of group `g` and append the slots to `out` in
    /// rising order. Returns whether there were any.
    #[verifier::rlimit(40)]
    pub fn take_group(&mut self, g: usize, out: &mut VecDeque<usize>) -> (taken: bool)
        requires
            old(self).wf(),
            g < old(self).groups@.len(),
        ensures
            final(self).wf(),
            final(self).same_size(old(self)),
            forall|slot: int| #[trigger]
                final(self)@.contains(slot) <==> old(self)@.contains(slot) && slot / 4096 != g,
            extends(final(out)@, old(out)@),
            rising_from(final(out)@, old(out)@.len() as int),
            forall|slot: int| #[trigger]
                holds_from(final(out)@, old(out)@.len() as int, slot) <==> old(self)@.contains(slot)
                    && slot / 4096 == g,
            taken <==> old(out)@.len() < final(out)@.len(),
            !taken ==> final(self)@ == old(self)@ && final(out)@ == old(out)@,
    {
        let ghost start = *self;
        let ghost base = out@.len() as int;
        let mut page_bits: u64 = self.groups[g].take_all();
        let taken: bool = page_bits != 0;
        let ghost witness = start.lemma_group_summary(g as int);
        proof {
            lemma_zero();
            assert(start.linked(g as int, start.groups@[g as int].bits));
        }
        while page_bits != 0
            invariant
                self.placed(),
                start.placed(),
                self.same_size(&start),
                g < self.groups@.len(),
                self.groups@[g as int].bits == 0,
                self.linked(g as int, page_bits),
                forall|h: int|
                    0 <= h < self.groups@.len() && h != g ==> self.linked(
                        h,
                        (#[trigger] self.groups@[h]).bits,
                    ),
                forall|p: int|
                    0 <= p < self.pages@.len() && (p / 64 != g || bit(page_bits, p % 64))
                        ==> #[trigger] self.pages@[p] == start.pages@[p],
                base == old(out)@.len(),
                extends(out@, old(out)@),
                rising_from(out@, base),
                forall|i: int, j: int|
                    base <= i < out@.len() && #[trigger] bit(page_bits, j) ==> #[trigger] out@[i]
                        < g * 4096 + j * 64,
                forall|slot: int| #[trigger]
                    holds_from(out@, base, slot) <==> start.is_ready(slot) && slot / 4096 == g
                        && !bit(page_bits, (slot / 64) % 64),
            decreases page_bits,
        {
            let ghost before = *self;
            let ghost before_out = out@;
            let ghost before_bits = page_bits;
            let (page_bit, rest) = pop_lowest(page_bits);
            page_bits = rest;
            assert(g * 64 + page_bit < self.pages@.len());
            let page_id: usize = g * PAGES_PER_GROUP + page_bit;
            self.take_page(page_id, out);
            proof {
                lemma_zero();
                assert(before.pages@[page_id as int] == start.pages@[page_id as int]);
                assert forall|j: int| #[trigger]
                    bit(page_bits, j) <==> 0 <= j < 64 && g * 64 + j < self.pages@.len()
                        && self.pages@[g * 64 + j].bits != 0 by {
                    assert(bit(before_bits, j) <==> 0 <= j < 64 && g * 64 + j < before.pages@.len()
                        && before.pages@[g * 64 + j].bits != 0);
                }
                assert forall|h: int| 0 <= h < self.groups@.len() && h != g implies self.linked(
                    h,
                    (#[trigger] self.groups@[h]).bits,
                ) by {
                    assert(before.linked(h, before.groups@[h].bits));
                    assert forall|j: int| #[trigger]
                        bit(self.groups@[h].bits, j) <==> 0 <= j < 64 && h * 64 + j
                            < self.pages@.len() && self.pages@[h * 64 + j].bits != 0 by {
                        assert(bit(before.groups@[h].bits, j) <==> 0 <= j < 64 && h * 64 + j
                            < before.pages@.len() && before.pages@[h * 64 + j].bits != 0);
                    }
                }
                assert forall|slot: int| #[trigger]
                    holds_from(out@, base, slot) <==> start.is_ready(slot) && slot / 4096 == g
                        && !bit(page_bits, (slot / 64) % 64) by {
                    assert(holds_from(before_out, base, slot) <==> start.is_ready(slot) && slot
                        / 4096 == g && !bit(before_bits, (slot / 64) % 64));
                    let mid = before_out.len() as int;
                    if holds_from(out@, base, slot) {
                        let i = choose|i: int| base <= i < out@.len() && out@[i] == slot;
                        if i < mid {
                            assert(before_out[i] == slot);
                            assert(holds_from(before_out, base, slot));
                        } else {
                            assert(holds_from(out@, mid, slot));
                        }
                    }
                    if holds_from(before_out, base, slot) {
                        let i = choose|i: int|
                            base <= i < before_out.len() && before_out[i] == slot;
                        assert(out@[i] == slot);
                    }
                    if start.is_ready(slot) && slot / 4096 == g && (slot / 64) % 64 == page_bit {
                        assert(slot / 64 == page_id);
                        assert(holds_from(out@, mid, slot));
                        let i = choose|i: int| mid <= i < out@.len() && out@[i] == slot;
                        assert(base <= i < out@.len() && out@[i] == slot);
                    }
                }
                assert forall|i: int| before_out.len() <= i < out@.len() implies page_id * 64
                    <= #[trigger] out@[i] < page_id * 64 + 64 by {
                    assert(holds_from(out@, before_out.len() as int, out@[i] as int));
                }
                assert forall|i: int, j: int| base <= i < j < out@.len() implies out@[i]
                    < out@[j] by {
                    if i < before_out.len() && j >= before_out.len() {
                        assert(bit(before_bits, page_bit as int));
                        assert(before_out[i] < g * 4096 + page_bit * 64);
                        assert(page_id * 64 <= out@[j]);
                    }
                }
                assert forall|i: int, j: int|
                    base <= i < out@.len() && #[trigger] bit(page_bits, j) implies #[trigger] out@[i]
                    < g * 4096 + j * 64 by {
                    assert(bit(before_bits, j));
                    if i < before_out.len() {
                        assert(out@[i] == before_out[i]);
                    }
                }
            }
        }
        proof {
            lemma_zero();
            assert forall|slot: int| #[trigger]
                self@.contains(slot) <==> start@.contains(slot) && slot / 4096 != g by {
                if 0 <= slot < self.span() {
                    let p = slot / 64;
                    if p / 64 == g {
                        assert(bit(0u64, p % 64) <==> 0 <= p % 64 < 64 && g * 64 + p % 64
                            < self.pages@.len() && self.pages@[g * 64 + p % 64].bits != 0);
                    } else {
                        assert(self.pages@[p] == start.pages@[p]);
                    }
                }
            }
            if taken {
                assert(holds_from(out@, base, witness));
            } else {
                if base < out@.len() {
                    assert(holds_from(out@, base, out@[base] as int));
                }
                assert(self@ =~= start@);
                assert(out@ =~= old(out)@);
            }
        }
        taken
    }
}

/// Per-lane coalescing protocol.
///
/// Every publication makes the lane pending. Only the first publication after
/// idle queues the lane. The receiver makes the lane idle before its final
/// look at the ring, so a publication at the empty boundary is not lost.
#[derive(Debug, PartialEq, Eq, Structural)]
pub struct LaneSignal {
    /// Whether the lane is queued or active.
    pub pending: bool,
    /// The page that holds the lane.
    pub page: usize,
    /// The bit of the lane in its page.
    pub bit: u64,
    /// The sender that waits for space.
    pub space_waiter: WaitCell,
}

impl LaneSignal {
    /// The signal belongs to the lane in `slot`.
    pub open spec fn wf(self, slot: int) -> bool {
        &&& self.page == slot / 64
        &&& forall|j: int| #[trigger] bit(self.bit, j) <==> j == slot % 64
    }

    /// An idle signal for the lane in `slot`.
    pub fn new(slot: usize) -> (signal: LaneSignal)
        ensures
            signal.wf(slot as int),
            !signal.pending,
            signal.space_waiter.state == 0,
            !signal.space_waiter.waker,
    {
        LaneSignal {
            pending: false,
            page: slot / LANES_PER_PAGE,
            bit: single(slot % LANES_PER_PAGE),
            space_waiter: WaitCell::new(),
        }
    }

    /// Make the lane pending. Returns whether it was idle and is now queued.
    pub fn mark(&mut self, index: &mut ReadyIndex) -> (queued: bool)
        requires
            old(index).wf(),
            exists|slot: int| #[trigger] old(self).wf(slot) && 0 <= slot < old(index).span(),
        ensures
            queued == !old(self).pending,
            *final(self) == (LaneSignal { pending: true, ..*old(self) }),
            final(index).wf(),
            final(index).same_size(old(index)),
            !queued ==> *final(index) == *old(index),
            queued ==> forall|slot: int|
                #![trigger final(index)@.contains(slot)]
                #![trigger old(self).wf(slot)]
                old(self).wf(slot) && 0 <= slot < old(index).span() ==> final(index)@ == old(index)@.insert(slot),
            forall|lane: Boundary, slot: int| #[trigger]
                lane.stands(*old(self), slot, old(index)) && lane.publication is Published ==> {
                    let marked = lane.after(BoundaryStep::Mark);
                    &&& queued == marked.publication is Queueing
                    &&& marked.after(BoundaryStep::Queue).stands(*final(self), slot, final(index))
                },
    {
        if !self.pending {
            self.pending = true;
            proof {
                lemma_zero();
                let slot = choose|slot: int| #[trigger]
                    old(self).wf(slot) && 0 <= slot < old(index).span();
                assert(bit(self.bit, slot % 64));
            }
            index.mark(self.page, self.bit);
            proof {
                assert forall|slot: int|
                    #![trigger index@.contains(slot)]
                    #![trigger old(self).wf(slot)]
                    old(self).wf(slot) && 0 <= slot < old(index).span() implies index@ == old(index)@.insert(slot) by {
                    assert(index@ =~= old(index)@.insert(slot));
                }
            }
            true
        } else {
            false
        }
    }

    /// Make the lane idle.
    pub fn finish_drain(&mut self)
        ensures
            *final(self) == (LaneSignal { pending: false, ..*old(self) }),
            forall|lane: Boundary| #[trigger]
                lane.has(*old(self)) && lane.drain is Serving ==> lane.after(
                    BoundaryStep::FinishDrain,
                ).has(*final(self)),
    {
        self.pending = false;
    }

    /// Take back an idle lane that turned out to hold data.
    pub fn claim_after_empty(&mut self) -> (claimed: bool)
        ensures
            claimed == !old(self).pending,
            *final(self) == (LaneSignal { pending: true, ..*old(self) }),
            forall|lane: Boundary| #[trigger]
                lane.has(*old(self)) && lane.drain is Claiming ==> {
                    let claim = lane.after(BoundaryStep::Claim);
                    claim.has(*final(self)) && claimed == claim.drain is Serving
                },
    {
        if self.pending {
            false
        } else {
            self.pending = true;
            true
        }
    }

    /// Whether the lane is queued or active.
    pub fn is_pending(&self) -> (pending: bool)
        ensures
            pending == self.pending,
    {
        self.pending
    }
}

/// Where the sender stands in publishing a value.
pub enum Publication {
    /// It has nothing under way.
    Idle,
    /// The value is in the ring; the signal was not marked yet.
    Published,
    /// The signal was idle and is pending now; the lane was not queued yet.
    Queueing,
}

/// Where the receiver stands in emptying one lane.
pub enum Drain {
    /// It does not hold the lane.
    Away,
    /// It holds the lane and may still take values.
    Serving,
    /// It has made the signal idle and must look at the ring again.
    Rechecking,
    /// It saw values at the second look and must take the signal back.
    Claiming,
}

/// One lane among a sender and a receiver that run side by side.
pub struct Boundary {
    /// Values published and not taken.
    pub unread: nat,
    /// The sender.
    pub publication: Publication,
    /// The signal.
    pub pending: bool,
    /// Whether the index holds the lane.
    pub queued: bool,
    /// The receiver.
    pub drain: Drain,
}

/// One atomic step at the boundary between sender and receiver.
pub enum BoundaryStep {
    /// The sender publishes a value.
    Publish,
    /// The sender makes the signal pending.
    Mark,
    /// The sender queues a lane whose signal it found idle.
    Queue,
    /// The receiver takes the lane out of the index.
    Collect,
    /// The receiver takes a value.
    Take,
    /// The receiver has seen an empty ring, maybe some time ago, and makes the
    /// signal idle.
    FinishDrain,
    /// The receiver looks at the ring again.
    Recheck,
    /// The receiver makes the signal pending again, unless the sender was first.
    Claim,
}

impl Boundary {
    /// What one step does. A step that cannot happen changes nothing.
    pub open spec fn after(self, step: BoundaryStep) -> Boundary {
        match step {
            BoundaryStep::Publish => if self.publication is Idle {
                Boundary {
                    unread: self.unread + 1,
                    publication: Publication::Published,
                    ..self
                }
            } else {
                self
            },
            BoundaryStep::Mark => if self.publication is Published {
                Boundary {
                    publication: if self.pending {
                        Publication::Idle
                    } else {
                        Publication::Queueing
                    },
                    pending: true,
                    ..self
                }
            } else {
                self
            },
            BoundaryStep::Queue => if self.publication is Queueing {
                Boundary { publication: Publication::Idle, queued: true, ..self }
            } else {
                self
            },
            BoundaryStep::Collect => if self.queued && self.drain is Away {
                Boundary { queued: false, drain: Drain::Serving, ..self }
            } else {
                self
            },
            BoundaryStep::Take => if self.drain is Serving && self.unread > 0 {
                Boundary { unread: (self.unread - 1) as nat, ..self }
            } else {
                self
            },
            BoundaryStep::FinishDrain => if self.drain is Serving {
                Boundary { pending: false, drain: Drain::Rechecking, ..self }
            } else {
                self
            },
            BoundaryStep::Recheck => if self.drain is Rechecking {
                Boundary {
                    drain: if self.unread > 0 {
                        Drain::Claiming
                    } else {
                        Drain::Away
                    },
                    ..self
                }
            } else {
                self
            },
            BoundaryStep::Claim => if self.drain is Claiming {
                Boundary {
                    pending: true,
                    drain: if self.pending {
                        Drain::Away
                    } else {
                        Drain::Serving
                    },
                    ..self
                }
            } else {
                self
            },
        }
    }

    /// What many steps do.
    pub open spec fn run(self, steps: Seq<BoundaryStep>) -> Boundary
        decreases steps.len(),
    {
        if steps.len() == 0 {
            self
        } else {
            self.run(steps.drop_last()).after(steps.last())
        }
    }

    /// A new lane.
    pub open spec fn fresh() -> Boundary {
        Boundary {
            unread: 0,
            publication: Publication::Idle,
            pending: false,
            queued: false,
            drain: Drain::Away,
        }
    }

    /// Whether this is the lane of `signal`.
    pub open spec fn has(self, signal: LaneSignal) -> bool {
        self.pending == signal.pending
    }

    /// Whether this is the lane of `signal`, in `slot` of `index`.
    pub open spec fn stands(self, signal: LaneSignal, slot: int, index: &ReadyIndex) -> bool {
        &&& self.has(signal)
        &&& signal.wf(slot)
        &&& 0 <= slot < index.span()
        &&& self.queued == index@.contains(slot)
    }

    /// Someone is bound to look at the lane again.
    pub open spec fn attended(self) -> bool {
        !(self.publication is Idle) || self.queued || !(self.drain is Away)
    }

    spec fn inv(self) -> bool {
        &&& self.pending <==> self.queued || self.drain is Serving || self.publication is Queueing
        &&& self.drain is Serving ==> !self.queued && !(self.publication is Queueing)
        &&& self.publication is Queueing ==> !self.queued
        &&& self.unread > 0 ==> self.attended()
    }
}

proof fn lemma_boundary(steps: Seq<BoundaryStep>)
    ensures
        Boundary::fresh().run(steps).inv(),
    decreases steps.len(),
{
    if steps.len() > 0 {
        lemma_boundary(steps.drop_last());
    }
}

/// A published value is never lost at the empty boundary: whatever order the
/// steps of sender and receiver take, a lane with unread values is about to be
/// marked, queued in the index, or served by the receiver.
pub proof fn law_unread_lane_is_attended(steps: Seq<BoundaryStep>)
    ensures
        Boundary::fresh().run(steps).unread > 0 ==> Boundary::fresh().run(steps).attended(),
{
    lemma_boundary(steps);
}

/// A lane is queued at most once: while the receiver serves it, later
/// publications only find it pending.
pub proof fn law_served_lane_is_not_queued(steps: Seq<BoundaryStep>)
    ensures
        Boundary::fresh().run(steps).drain is Serving ==> !Boundary::fresh().run(steps).queued,
{
    lemma_boundary(steps);
}

/// One page and its bit in the group, among marking lanes and a receiver.
pub struct PageRace {
    /// Lanes ready in the page.
    pub lanes: u64,
    /// A lane found the page empty and has not set the group bit yet.
    pub publishing: nat,
    /// The bit of the page in the group.
    pub listed: bool,
    /// The receiver has taken the group bit and not the page yet.
    pub claimed: bool,
}

/// One atomic step on a page.
pub enum PageStep {
    /// A lane sets its bits in the page.
    MarkPage(u64),
    /// A lane that found the page empty sets the bit in the group.
    MarkGroup,
    /// The receiver takes the bits of the group.
    TakeGroup,
    /// The receiver takes the bits of the page.
    TakePage,
}

impl PageRace {
    /// What one step does. A step that cannot happen changes nothing.
    pub open spec fn after(self, step: PageStep) -> PageRace {
        match step {
            PageStep::MarkPage(bits) => if bits != 0 {
                PageRace {
                    lanes: self.lanes | bits,
                    publishing: if self.lanes == 0 {
                        self.publishing + 1
                    } else {
                        self.publishing
                    },
                    ..self
                }
            } else {
                self
            },
            PageStep::MarkGroup => if self.publishing > 0 {
                PageRace { publishing: (self.publishing - 1) as nat, listed: true, ..self }
            } else {
                self
            },
            PageStep::TakeGroup => if self.listed {
                PageRace { listed: false, claimed: true, ..self }
            } else {
                self
            },
            PageStep::TakePage => if self.claimed {
                PageRace { lanes: 0, claimed: false, ..self }
            } else {
                self
            },
        }
    }

    /// What many steps do.
    pub open spec fn run(self, steps: Seq<PageStep>) -> PageRace
        decreases steps.len(),
    {
        if steps.len() == 0 {
            self
        } else {
            self.run(steps.drop_last()).after(steps.last())
        }
    }

    /// A new page.
    pub open spec fn fresh() -> PageRace {
        PageRace { lanes: 0, publishing: 0, listed: false, claimed: false }
    }

    /// Whether the page is listed as `group` says.
    pub open spec fn is_listed(self, page: int, group: ReadyGroup) -> bool {
        self.listed == bit(group.bits, page % 64)
    }

    /// Whether this is `page` in `group`.
    pub open spec fn stands(self, page: ReadyPage, group: ReadyGroup) -> bool {
        self.lanes == page.bits && self.is_listed(page.id as int, group)
    }
}

/// A ready lane stays visible: whatever order the steps take, a page that
/// holds a lane is listed in its group, about to be listed, or claimed by the
/// receiver.
pub proof fn law_ready_page_stays_visible(steps: Seq<PageStep>)
    ensures
        ({
            let race = PageRace::fresh().run(steps);
            race.lanes != 0 ==> race.publishing > 0 || race.listed || race.claimed
        }),
    decreases steps.len(),
{
    if steps.len() > 0 {
        law_ready_page_stays_visible(steps.drop_last());
    }
}

} // verus!
