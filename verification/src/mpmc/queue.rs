//! FIFO queues of tickets on top of `concurrent_queue::ConcurrentQueue`.
//!
//! A ticket is a number: it names a staged value or a lane slot.
use vstd::prelude::*;

use concurrent_queue::ConcurrentQueue;

verus! {

/// The queue type of the crate `concurrent_queue`. Its contents are known only
/// through the functions below.
#[verifier::external_type_specification]
#[verifier::external_body]
#[verifier::reject_recursive_types(T)]
pub struct ExConcurrentQueue<T>(ConcurrentQueue<T>);

/// What a queue holds, the item pushed first in front.
pub uninterp spec fn queue_items(queue: ConcurrentQueue<u64>) -> Seq<u64>;

/// How many items a queue was made to hold at most; `None` without a bound.
pub uninterp spec fn queue_limit(queue: ConcurrentQueue<u64>) -> Option<nat>;

/// Whether a queue was never closed.
pub uninterp spec fn queue_open(queue: ConcurrentQueue<u64>) -> bool;

/// Largest bound that can be allocated. One allocation takes half the range of
/// `usize` in bytes at most, and a slot is a counter and a ticket, 16 bytes
/// together at most.
pub const MAX_QUEUE_LIMIT: usize = usize::MAX / 32;

/// `ConcurrentQueue::bounded` makes an empty open queue for `limit` items. It
/// panics on a limit of zero, and on one whose slots are more bytes than one
/// allocation can have.
#[verifier::external_body]
fn queue_bounded(limit: usize) -> (queue: ConcurrentQueue<u64>)
    requires
        0 < limit <= MAX_QUEUE_LIMIT,
    ensures
        queue_items(queue) == Seq::<u64>::empty(),
        queue_limit(queue) == Some(limit as nat),
        queue_open(queue),
{
    ConcurrentQueue::bounded(limit)
}

/// `ConcurrentQueue::unbounded` makes an empty open queue without a bound.
#[verifier::external_body]
fn queue_unbounded() -> (queue: ConcurrentQueue<u64>)
    ensures
        queue_items(queue) == Seq::<u64>::empty(),
        queue_limit(queue) == None::<nat>,
        queue_open(queue),
{
    ConcurrentQueue::unbounded()
}

/// `ConcurrentQueue::push` appends an item to an open queue, unless it is full:
/// then the item comes back.
#[verifier::external_body]
fn queue_push(queue: &mut ConcurrentQueue<u64>, item: u64) -> (result: Result<(), u64>)
    requires
        queue_open(*old(queue)),
    ensures
        queue_open(*final(queue)),
        queue_limit(*final(queue)) == queue_limit(*old(queue)),
        result is Err <==> queue_limit(*old(queue)) == Some(queue_items(*old(queue)).len()),
        result is Ok ==> queue_items(*final(queue)) == queue_items(*old(queue)).push(item),
        result matches Err(back) ==> back == item && queue_items(*final(queue)) == queue_items(
            *old(queue),
        ),
{
    match queue.push(item) {
        Ok(()) => Ok(()),
        Err(error) => Err(error.into_inner()),
    }
}

/// `ConcurrentQueue::pop` takes the item in front, and fails only on an empty
/// queue.
#[verifier::external_body]
fn queue_pop(queue: &mut ConcurrentQueue<u64>) -> (item: Option<u64>)
    ensures
        queue_open(*final(queue)) == queue_open(*old(queue)),
        queue_limit(*final(queue)) == queue_limit(*old(queue)),
        item is None <==> queue_items(*old(queue)).len() == 0,
        item is None ==> queue_items(*final(queue)) == queue_items(*old(queue)),
        item matches Some(front) ==> front == queue_items(*old(queue))[0] && queue_items(
            *final(queue),
        ) == queue_items(*old(queue)).drop_first(),
{
    match queue.pop() {
        Ok(item) => Some(item),
        Err(_) => None,
    }
}

/// `ConcurrentQueue::len` counts the items.
#[verifier::external_body]
fn queue_len(queue: &ConcurrentQueue<u64>) -> (len: usize)
    ensures
        len == queue_items(*queue).len(),
{
    queue.len()
}

/// `ConcurrentQueue::is_empty` tells whether there is no item.
#[verifier::external_body]
fn queue_is_empty(queue: &ConcurrentQueue<u64>) -> (empty: bool)
    ensures
        empty == (queue_items(*queue).len() == 0),
{
    queue.is_empty()
}

/// A queue of tickets that is never closed.
pub struct TicketQueue {
    /// The queue.
    pub queue: ConcurrentQueue<u64>,
}

impl View for TicketQueue {
    type V = Seq<u64>;

    /// The tickets, the one pushed first in front.
    open spec fn view(&self) -> Seq<u64> {
        queue_items(self.queue)
    }
}

impl TicketQueue {
    /// The bound; `None` without one.
    pub open spec fn limit(&self) -> Option<nat> {
        queue_limit(self.queue)
    }

    /// The queue is open and not over its bound.
    pub open spec fn wf(&self) -> bool {
        &&& queue_open(self.queue)
        &&& self.limit() matches Some(limit) ==> self@.len() <= limit
    }

    /// Whether there is room for `n` more tickets.
    pub open spec fn has_room(&self, n: int) -> bool {
        self.limit() matches Some(limit) ==> self@.len() + n <= limit
    }

    /// An empty queue for `limit` tickets.
    pub fn bounded(limit: usize) -> (queue: TicketQueue)
        requires
            0 < limit <= MAX_QUEUE_LIMIT,
        ensures
            queue.wf(),
            queue@ == Seq::<u64>::empty(),
            queue.limit() == Some(limit as nat),
    {
        TicketQueue { queue: queue_bounded(limit) }
    }

    /// An empty queue without a bound.
    pub fn unbounded() -> (queue: TicketQueue)
        ensures
            queue.wf(),
            queue@ == Seq::<u64>::empty(),
            queue.limit() == None::<nat>,
    {
        TicketQueue { queue: queue_unbounded() }
    }

    /// Append a ticket where there is room.
    pub fn push(&mut self, ticket: u64)
        requires
            old(self).wf(),
            old(self).has_room(1),
        ensures
            final(self).wf(),
            final(self)@ == old(self)@.push(ticket),
            final(self).limit() == old(self).limit(),
    {
        let _ = queue_push(&mut self.queue, ticket);
    }

    /// Take the ticket in front.
    pub fn pop(&mut self) -> (ticket: Option<u64>)
        requires
            old(self).wf(),
        ensures
            final(self).wf(),
            final(self).limit() == old(self).limit(),
            ticket is None <==> old(self)@.len() == 0,
            ticket is None ==> final(self)@ == old(self)@,
            ticket matches Some(front) ==> front == old(self)@[0] && final(self)@ == old(
                self)@.drop_first(),
    {
        queue_pop(&mut self.queue)
    }

    /// How many tickets there are.
    pub fn len(&self) -> (len: usize)
        ensures
            len == self@.len(),
    {
        queue_len(&self.queue)
    }

    /// Whether there is no ticket.
    pub fn is_empty(&self) -> (empty: bool)
        ensures
            empty == (self@.len() == 0),
    {
        queue_is_empty(&self.queue)
    }
}

} // verus!
