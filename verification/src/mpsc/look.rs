//! The way of the receiver through the lanes.
//!
//! The receiver serves lanes from the front of a list. When the list is empty it
//! takes up the ready lanes of every group that it meets, and once in every poll
//! interval those of one group. A lane that holds no value leaves the list.
use vstd::prelude::*;

use crate::key::LaneKey;
use crate::ready::{extends, holds_from, rising_from};

use super::receiver::rotates;
use super::{Channel, READY_POLL_INTERVAL};

verus! {

/// What the receiver serves and where it looks next.
pub struct Look {
    /// The lanes that it serves.
    pub active: Seq<usize>,
    /// The lanes that are ready to be taken up.
    pub ready: Set<int>,
    /// The group that a look starts at.
    pub cursor: int,
    /// Values left until a look is due.
    pub credit: int,
    /// The keys for new lanes.
    pub free: Seq<LaneKey>,
}

impl Look {
    /// Whether group `g` has a ready lane.
    pub open spec fn marks(self, g: int) -> bool {
        exists|slot: int| #[trigger] self.ready.contains(slot) && slot / 4096 == g
    }

    /// What taking up group `g` of `n` does: its lanes are served last, in rising
    /// order, and the next look starts behind it.
    pub open spec fn took(self, before: Look, g: int, n: int) -> bool {
        let base = before.active.len() as int;
        &&& extends(self.active, before.active)
        &&& rising_from(self.active, base)
        &&& forall|slot: int| #[trigger]
            holds_from(self.active, base, slot) <==> before.ready.contains(slot) && slot / 4096 == g
        &&& forall|slot: int| #[trigger]
            self.ready.contains(slot) <==> before.ready.contains(slot) && slot / 4096 != g
        &&& self.cursor == if g + 1 == n {
            0
        } else {
            g + 1
        }
        &&& self.credit == before.credit
        &&& self.free == before.free
    }

    /// The group that a look comes to in step `k`.
    pub open spec fn group_at(self, k: int, n: int) -> int {
        if self.cursor + k < n {
            self.cursor + k
        } else {
            self.cursor + k - n
        }
    }

    /// One step of a look at every group.
    pub open spec fn stepped(self, before: Look, k: int, n: int) -> bool {
        let g = before.group_at(k, n);
        if before.marks(g) {
            self.took(before, g, n)
        } else {
            self == before
        }
    }

    /// The first `k` steps of a look at every group.
    pub open spec fn reached(self, before: Look, k: nat, n: int) -> bool
        decreases k,
    {
        if k == 0 {
            self == before
        } else {
            exists|mid: Look|
                mid.reached(before, (k - 1) as nat, n) && #[trigger] self.stepped(mid, k - 1, n)
        }
    }

    /// One step more.
    pub proof fn lemma_reached(self, mid: Look, before: Look, k: nat, n: int)
        requires
            mid.reached(before, k, n),
            self.stepped(mid, k as int, n),
        ensures
            self.reached(before, k + 1, n),
    {
        assert((k + 1 - 1) as nat == k);
        assert(self.stepped(mid, (k + 1) - 1, n));
    }

    /// A look at one group: the first one, counted from the cursor, that has a
    /// ready lane.
    pub open spec fn took_one(self, before: Look, n: int) -> bool {
        ||| self == before && before.ready == Set::<int>::empty()
        ||| exists|k: int|
            {
                &&& 0 <= k < n
                &&& #[trigger] before.marks(before.group_at(k, n))
                &&& forall|j: int| 0 <= j < k ==> !#[trigger] before.marks(before.group_at(j, n))
                &&& self.took(before, before.group_at(k, n), n)
            }
    }

    /// What the first part of a turn does: the receiver looks at every group when
    /// it serves no lane, and at one when a look is due.
    pub open spec fn topped(self, before: Look, n: int) -> bool {
        if before.active.len() == 0 {
            self.reached(before, n as nat, n)
        } else if before.credit == 0 {
            Look { credit: 0, ..self }.took_one(before, n) && self.credit == READY_POLL_INTERVAL
        } else {
            self == before
        }
    }
}

impl<T> Channel<T> {
    /// What the receiver serves and where it looks next.
    pub open spec fn look(&self) -> Look {
        Look {
            active: self.active@,
            ready: self.ready@,
            cursor: self.ready_group_cursor as int,
            credit: self.items_until_ready_poll as int,
            free: self.free@,
        }
    }

    /// One turn that came up dry: the front lane holds no value and leaves the
    /// list. If its sender is gone, its slot is free for a new lane.
    pub open spec fn dry_turn(&self, from: Look, at: Look, to: Look) -> bool {
        let slot = at.active[0] as int;
        &&& at.topped(from, self.ready.groups@.len() as int)
        &&& at.active.len() > 0
        &&& !self.has_data(slot)
        &&& to == Look {
            active: at.active.drop_first(),
            free: if self.lane(slot).ring.producer_closed {
                at.free.push(self.lane(slot).key.next())
            } else {
                at.free
            },
            ..at
        }
    }

    /// Where `turns` turns that came up dry lead the receiver.
    pub open spec fn goes_round(&self, turns: nat, to: Look) -> bool
        decreases turns,
    {
        if turns == 0 {
            to == self.look()
        } else {
            exists|from: Look, at: Look|
                self.goes_round((turns - 1) as nat, from) && #[trigger] self.dry_turn(from, at, to)
        }
    }

    /// How the receiver came to take a value from the lane in `slot`: after some
    /// turns that came up dry it was at the front. It stays there until its burst
    /// is over.
    pub open spec fn came_to(
        &self,
        before: &Channel<T>,
        slot: int,
        turns: nat,
        from: Look,
        at: Look,
    ) -> bool {
        &&& before.goes_round(turns, from)
        &&& at.topped(from, before.ready.groups@.len() as int)
        &&& at.active.len() > 0
        &&& at.active[0] == slot
        &&& self.look() == Look {
            active: if rotates(before.lane(slot)) {
                at.active.drop_first().push(at.active[0])
            } else {
                at.active
            },
            credit: at.credit - 1,
            ..at
        }
    }

    /// How the receiver came to find nothing: after some turns that came up dry
    /// a look at every group took no lane up.
    pub open spec fn came_to_rest(&self, before: &Channel<T>, turns: nat, from: Look) -> bool {
        &&& before.goes_round(turns, from)
        &&& self.look().topped(from, before.ready.groups@.len() as int)
        &&& self.active@.len() == 0
    }
}

} // verus!
