//! Receiver-local staging and batch stealing.
//!
//! Each receiver owns one bounded queue. Competing receivers may pop from it
//! and move a small batch into their own queue. The shared unbounded queue only
//! preserves staged values when a receiver is dropped.
use vstd::prelude::*;

use super::queue::{TicketQueue, MAX_QUEUE_LIMIT};

verus! {

/// Values taken by one steal at most.
pub const STEAL_BATCH_LIMIT: usize = 8;

/// How many tickets move to a thief that has taken one and left `rest`: half of
/// them, rounded up, and seven at most.
pub open spec fn transfer(rest: int) -> int {
    let half = (rest + 1) / 2;
    if half < STEAL_BATCH_LIMIT - 1 {
        half
    } else {
        STEAL_BATCH_LIMIT - 1
    }
}

/// A queue of staged work.
pub struct WorkQueue {
    /// The tickets.
    pub queue: TicketQueue,
}

impl View for WorkQueue {
    type V = Seq<u64>;

    /// The tickets, the one staged first in front.
    open spec fn view(&self) -> Seq<u64> {
        self.queue@
    }
}

impl WorkQueue {
    /// The queue keeps to its bound.
    pub open spec fn wf(&self) -> bool {
        self.queue.wf()
    }

    /// The bound; `None` without one.
    pub open spec fn limit(&self) -> Option<nat> {
        self.queue.limit()
    }

    /// Create a bounded queue for one receiver's prefetched values.
    pub fn bounded(capacity: usize) -> (queue: WorkQueue)
        requires
            0 < capacity <= MAX_QUEUE_LIMIT,
        ensures
            queue.wf(),
            queue@ == Seq::<u64>::empty(),
            queue.limit() == Some(capacity as nat),
    {
        WorkQueue { queue: TicketQueue::bounded(capacity) }
    }

    /// Create the shared unbounded queue used during receiver removal.
    pub fn unbounded() -> (queue: WorkQueue)
        ensures
            queue.wf(),
            queue@ == Seq::<u64>::empty(),
            queue.limit() == None::<nat>,
    {
        WorkQueue { queue: TicketQueue::unbounded() }
    }

    /// Append one ticket where there is room.
    pub fn push(&mut self, ticket: u64)
        requires
            old(self).wf(),
            old(self).queue.has_room(1),
        ensures
            final(self).wf(),
            final(self)@ == old(self)@.push(ticket),
            final(self).limit() == old(self).limit(),
    {
        self.queue.push(ticket);
    }

    /// Remove the ticket in front, or return `None` when the queue is empty.
    pub fn pop(&mut self) -> (ticket: Option<u64>)
        requires
            old(self).wf(),
        ensures
            final(self).wf(),
            final(self).limit() == old(self).limit(),
            ticket is None <==> old(self)@.len() == 0,
            ticket is None ==> final(self)@ == old(self)@,
            ticket matches Some(front) ==> front == old(self)@[0] && final(self)@ == old(
                self)@.drop_first(),
    {
        self.queue.pop()
    }

    /// Steal one ticket and move part of the remaining work to `destination`.
    ///
    /// The returned ticket satisfies the current receive. At most seven more
    /// move to the thief, bounding work performed by one steal.
    pub fn steal_batch_into(&mut self, destination: &mut WorkQueue) -> (ticket: Option<u64>)
        requires
            old(self).wf(),
            old(destination).wf(),
            old(destination).queue.has_room(transfer(old(self)@.len() - 1)),
        ensures
            final(self).wf(),
            final(destination).wf(),
            final(self).limit() == old(self).limit(),
            final(destination).limit() == old(destination).limit(),
            match ticket {
                None => old(self)@.len() == 0 && final(self)@ == old(self)@ && final(destination)@
                    == old(destination)@,
                Some(front) => {
                    let moved = transfer(old(self)@.len() - 1);
                    &&& old(self)@.len() > 0
                    &&& front == old(self)@[0]
                    &&& final(self)@ == old(self)@.skip(1 + moved)
                    &&& final(destination)@ == old(destination)@ + old(self)@.subrange(
                        1,
                        1 + moved,
                    )
                },
            },
    {
        let ghost all = self@;
        let ghost held = destination@;
        let front: u64 = match self.pop() {
            Some(front) => front,
            None => {
                return None;
            },
        };
        let rest: usize = self.queue.len();
        let half: usize = rest / 2 + rest % 2;
        let moved: usize = if half < STEAL_BATCH_LIMIT - 1 {
            half
        } else {
            STEAL_BATCH_LIMIT - 1
        };
        let mut i: usize = 0;
        assert(all.drop_first() =~= all.skip(1));
        assert(held + all.subrange(1, 1) =~= held);
        while i < moved
            invariant
                i <= moved,
                moved == transfer(all.len() - 1),
                moved < all.len(),
                self.wf(),
                destination.wf(),
                self.limit() == old(self).limit(),
                destination.limit() == old(destination).limit(),
                held == old(destination)@,
                old(destination).queue.has_room(moved as int),
                self@ == all.skip(1 + i),
                destination@ == held + all.subrange(1, 1 + i),
            decreases moved - i,
        {
            match self.pop() {
                Some(stolen) => {
                    destination.push(stolen);
                    assert(all.skip(1 + i).drop_first() =~= all.skip(2 + i));
                    assert(held + all.subrange(1, 2 + i) =~= (held + all.subrange(1, 1 + i)).push(
                        all[1 + i],
                    ));
                },
                None => {},
            }
            i += 1;
        }
        Some(front)
    }

    /// Move every ticket to `destination`.
    ///
    /// Returns whether at least one moved.
    pub fn drain_into(&mut self, destination: &mut WorkQueue) -> (moved: bool)
        requires
            old(self).wf(),
            old(destination).wf(),
            old(destination).queue.has_room(old(self)@.len() as int),
        ensures
            final(self).wf(),
            final(destination).wf(),
            final(self).limit() == old(self).limit(),
            final(destination).limit() == old(destination).limit(),
            final(self)@ == Seq::<u64>::empty(),
            final(destination)@ == old(destination)@ + old(self)@,
            moved == (old(self)@.len() > 0),
    {
        let ghost all = self@;
        let ghost held = destination@;
        let ghost mut i: int = 0;
        let mut moved: bool = false;
        let mut open: bool = true;
        assert(all.skip(0) =~= all);
        assert(held + all.take(0) =~= held);
        while open
            invariant
                0 <= i <= all.len(),
                self.wf(),
                destination.wf(),
                self.limit() == old(self).limit(),
                destination.limit() == old(destination).limit(),
                held == old(destination)@,
                all == old(self)@,
                old(destination).queue.has_room(all.len() as int),
                self@ == all.skip(i),
                destination@ == held + all.take(i),
                moved == (i > 0),
                !open ==> i == all.len(),
            decreases all.len() - i + if open {
                1int
            } else {
                0int
            },
        {
            match self.pop() {
                Some(ticket) => {
                    destination.push(ticket);
                    moved = true;
                    proof {
                        assert(all.skip(i).drop_first() =~= all.skip(i + 1));
                        assert(held + all.take(i + 1) =~= (held + all.take(i)).push(all[i]));
                        i = i + 1;
                    }
                },
                None => {
                    open = false;
                },
            }
        }
        assert(all.take(i) =~= all);
        assert(all.skip(i) =~= Seq::<u64>::empty());
        moved
    }

    /// How many tickets there are.
    pub fn len(&self) -> (len: usize)
        ensures
            len == self@.len(),
    {
        self.queue.len()
    }
}

/// A steal loses nothing: the ticket it returns, what moved to the thief and
/// what stays behind are the tickets that were there.
pub proof fn law_steal_keeps_every_ticket(source: Seq<u64>)
    requires
        source.len() > 0,
    ensures
        ({
            let moved = transfer(source.len() - 1);
            &&& 0 <= moved < STEAL_BATCH_LIMIT
            &&& seq![source[0]] + source.subrange(1, 1 + moved) + source.skip(1 + moved) == source
            &&& source.skip(1 + moved).len() <= source.len() - 1
        }),
{
    let moved = transfer(source.len() - 1);
    assert(seq![source[0]] + source.subrange(1, 1 + moved) + source.skip(1 + moved) =~= source);
}

} // verus!
