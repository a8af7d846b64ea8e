//! Bounded single-producer single-consumer ring with batched hand-over.
//!
//! The producer pushes values and publishes them with a flush. The consumer
//! takes all published values into a window with one prefetch, pops from the
//! window, and gives the popped slots back with one release.
//!
//! Closing the consumer keeps unread values until the producer is gone, unless
//! the ring is coordinated: then the closing consumer discards them, and a send
//! that overlaps the close discards what it published itself.
pub mod life;

use vstd::prelude::*;

verus! {

/// A ring of slots.
pub struct Ring<T> {
    /// The slots; a slot is empty unless it holds an unread value.
    pub slots: Vec<Option<T>>,
    /// Where the oldest unread value is.
    pub head: usize,
    /// Unread values.
    pub len: usize,
    /// Unread values that the producer has published.
    pub flushed: usize,
    /// Published values that the consumer has taken into its window.
    pub window: usize,
    /// Popped slots that were not given back yet.
    pub consumed: usize,
    /// The producer is gone.
    pub producer_closed: bool,
    /// The consumer is gone.
    pub consumer_closed: bool,
    /// Whether a closing consumer discards unread values.
    pub coordinated: bool,
    /// A coordinated send is in progress.
    pub sending: bool,
}

impl<T> View for Ring<T> {
    type V = Seq<T>;

    /// The unread values, oldest first.
    open spec fn view(&self) -> Seq<T> {
        Seq::new(self.len as nat, |i: int| self.slots@[self.position(i)]->Some_0)
    }
}

impl<T> Ring<T> {
    /// The slot `i` places behind the head.
    pub open spec fn position(&self, i: int) -> int {
        if i < self.slots@.len() - self.head {
            self.head + i
        } else {
            self.head + i - self.slots@.len()
        }
    }

    /// How many places slot `j` is behind the head.
    pub open spec fn offset(&self, j: int) -> int {
        if j >= self.head {
            j - self.head
        } else {
            j + self.slots@.len() - self.head
        }
    }

    /// Slots in all.
    pub open spec fn bound(&self) -> nat {
        self.slots@.len()
    }

    /// No slot is left for a push.
    pub open spec fn full(&self) -> bool {
        self@.len() + self.consumed == self.bound()
    }

    /// The counts fit together and the unread values stand behind the head.
    pub open spec fn wf(&self) -> bool {
        &&& self.head < self.slots@.len()
        &&& self.len + self.consumed <= self.slots@.len()
        &&& self.window <= self.flushed <= self.len
        &&& self.sending ==> self.coordinated
        &&& forall|j: int|
            0 <= j < self.slots@.len() ==> ((#[trigger] self.slots@[j]) is Some <==> self.offset(j)
                < self.len)
    }

    /// Everything but the unread values and the counts stays.
    pub open spec fn same_ends(&self, other: &Ring<T>) -> bool {
        &&& self.bound() == other.bound()
        &&& self.producer_closed == other.producer_closed
        &&& self.consumer_closed == other.consumer_closed
        &&& self.coordinated == other.coordinated
    }

    /// An empty ring.
    pub fn new(capacity: usize, coordinated: bool) -> (ring: Ring<T>)
        requires
            0 < capacity,
        ensures
            ring.wf(),
            ring@ == Seq::<T>::empty(),
            ring.bound() == capacity,
            ring.coordinated == coordinated,
            ring.flushed == 0,
            ring.window == 0,
            ring.consumed == 0,
            !ring.producer_closed,
            !ring.consumer_closed,
            !ring.sending,
    {
        let mut slots: Vec<Option<T>> = Vec::new();
        let mut i: usize = 0;
        while i < capacity
            invariant
                i <= capacity,
                slots@.len() == i,
                forall|j: int| 0 <= j < i ==> (#[trigger] slots@[j]) is None,
            decreases capacity - i,
        {
            slots.push(None);
            i += 1;
        }
        let ring = Ring {
            slots,
            head: 0,
            len: 0,
            flushed: 0,
            window: 0,
            consumed: 0,
            producer_closed: false,
            consumer_closed: false,
            coordinated,
            sending: false,
        };
        assert(ring@ =~= Seq::<T>::empty());
        ring
    }

    /// Slots in all.
    pub fn capacity(&self) -> (capacity: usize)
        ensures
            capacity == self.bound(),
    {
        self.slots.len()
    }

    /// Whether no slot is left for a push.
    pub fn is_full(&self) -> (full: bool)
        requires
            self.wf(),
        ensures
            full == self.full(),
    {
        self.len == self.slots.len() - self.consumed
    }

    /// Write a value behind the unread ones. The value comes back when no slot
    /// is left.
    pub fn push(&mut self, value: T) -> (result: Result<(), T>)
        requires
            old(self).wf(),
        ensures
            final(self).wf(),
            final(self).same_ends(old(self)),
            final(self).sending == old(self).sending,
            final(self).flushed == old(self).flushed,
            final(self).window == old(self).window,
            final(self).consumed == old(self).consumed,
            result is Ok <==> !old(self).full(),
            result is Ok ==> final(self)@ == old(self)@.push(value),
            result matches Err(back) ==> back == value && *final(self) == *old(self),
    {
        if self.len == self.slots.len() - self.consumed {
            return Err(value);
        }
        let room: usize = self.slots.len() - self.head;
        let at: usize = if self.len < room {
            self.head + self.len
        } else {
            self.len - room
        };
        let ghost before = *self;
        self.slots.set(at, Some(value));
        self.len = self.len + 1;
        proof {
            assert forall|j: int| 0 <= j < self.slots@.len() implies ((#[trigger] self.slots@[j])
                is Some <==> self.offset(j) < self.len) by {
                if j != at {
                    assert(self.slots@[j] == before.slots@[j]);
                }
            }
            assert(self@ =~= before@.push(value)) by {
                assert forall|i: int| 0 <= i < before.len implies self@[i] == before@[i] by {
                    let p = before.position(i);
                    assert(p != at);
                    assert(self.position(i) == p);
                }
            }
        }
        Ok(())
    }

    /// Publish every value pushed so far.
    pub fn flush(&mut self)
        requires
            old(self).wf(),
        ensures
            *final(self) == (Ring { flushed: old(self).len, ..*old(self) }),
            final(self).wf(),
            final(self)@ == old(self)@,
    {
        self.flushed = self.len;
        assert(self@ =~= old(self)@);
    }

    /// Take every published value into the window. Returns how many are new
    /// there.
    pub fn prefetch(&mut self) -> (fresh: usize)
        requires
            old(self).wf(),
        ensures
            *final(self) == (Ring { window: old(self).flushed, ..*old(self) }),
            final(self).wf(),
            final(self)@ == old(self)@,
            fresh == old(self).flushed - old(self).window,
    {
        let fresh: usize = self.flushed - self.window;
        self.window = self.flushed;
        assert(self@ =~= old(self)@);
        fresh
    }

    /// Take the oldest value of the window. Its slot stays reserved until it is
    /// released.
    pub fn pop(&mut self) -> (value: Option<T>)
        requires
            old(self).wf(),
        ensures
            final(self).wf(),
            final(self).same_ends(old(self)),
            final(self).sending == old(self).sending,
            value is Some <==> old(self).window > 0,
            value is None ==> *final(self) == *old(self),
            value matches Some(v) ==> {
                &&& v == old(self)@[0]
                &&& final(self)@ == old(self)@.drop_first()
                &&& final(self).window == old(self).window - 1
                &&& final(self).flushed == old(self).flushed - 1
                &&& final(self).consumed == old(self).consumed + 1
            },
    {
        if self.window == 0 {
            return None;
        }
        let ghost before = *self;
        assert(self.slots@[self.head as int] is Some);
        let value = self.slots[self.head].take();
        self.head = if self.head == self.slots.len() - 1 {
            0
        } else {
            self.head + 1
        };
        self.len = self.len - 1;
        self.flushed = self.flushed - 1;
        self.window = self.window - 1;
        self.consumed = self.consumed + 1;
        proof {
            assert(value == Some(before@[0]));
            assert forall|j: int| 0 <= j < self.slots@.len() implies ((#[trigger] self.slots@[j])
                is Some <==> self.offset(j) < self.len) by {
                if j != before.head {
                    assert(self.slots@[j] == before.slots@[j]);
                }
            }
            assert(self@ =~= before@.drop_first()) by {
                assert forall|i: int| 0 <= i < self.len implies self@[i] == before@[i + 1] by {
                    assert(self.position(i) == before.position(i + 1));
                    assert(self.position(i) != before.head);
                }
            }
        }
        value
    }

    /// Give every popped slot back to the producer.
    pub fn release(&mut self)
        requires
            old(self).wf(),
        ensures
            *final(self) == (Ring { consumed: 0, ..*old(self) }),
            final(self).wf(),
            final(self)@ == old(self)@,
    {
        self.consumed = 0;
        assert(self@ =~= old(self)@);
    }

    /// Whether the producer is gone.
    pub fn is_disconnected(&self) -> (closed: bool)
        ensures
            closed == self.producer_closed,
    {
        self.producer_closed
    }

    /// Whether the consumer is gone.
    pub fn is_consumer_dropped(&self) -> (closed: bool)
        ensures
            closed == self.consumer_closed,
    {
        self.consumer_closed
    }

    /// Close the producing end. Unread values stay.
    pub fn close_producer(&mut self)
        requires
            old(self).wf(),
        ensures
            *final(self) == (Ring { producer_closed: true, ..*old(self) }),
            final(self).wf(),
            final(self)@ == old(self)@,
    {
        self.producer_closed = true;
        assert(self@ =~= old(self)@);
    }

    /// Start a coordinated send. Refused while one is in progress and after the
    /// consumer has closed.
    pub fn begin(&mut self) -> (started: bool)
        requires
            old(self).wf(),
            old(self).coordinated,
        ensures
            started == (!old(self).sending && !old(self).consumer_closed),
            *final(self) == (Ring { sending: old(self).sending || started, ..*old(self) }),
            final(self).wf(),
            final(self)@ == old(self)@,
    {
        if self.sending || self.consumer_closed {
            return false;
        }
        self.sending = true;
        assert(self@ =~= old(self)@);
        true
    }

    /// End a coordinated send. When the consumer closed meanwhile, the values
    /// published so far are discarded here.
    pub fn finish(&mut self)
        requires
            old(self).wf(),
            old(self).sending,
        ensures
            final(self).wf(),
            final(self).same_ends(old(self)),
            !final(self).sending,
            !old(self).consumer_closed ==> *final(self) == (Ring { sending: false, ..*old(self) })
                && final(self)@ == old(self)@,
            old(self).consumer_closed ==> final(self).discarded(old(self)),
    {
        self.sending = false;
        assert(self@ =~= old(self)@);
        if self.consumer_closed {
            self.discard();
        }
    }

    /// The published values are gone and their slots stay reserved.
    pub open spec fn discarded(&self, before: &Ring<T>) -> bool {
        &&& self@ == before@.skip(before.flushed as int)
        &&& self.flushed == 0
        &&& self.window == 0
        &&& self.consumed == before.consumed + before.flushed
    }

    /// Drop every published value. The slots stay reserved, so that a send in
    /// progress cannot succeed only because the consumer is closing.
    pub fn discard(&mut self)
        requires
            old(self).wf(),
        ensures
            final(self).wf(),
            final(self).same_ends(old(self)),
            final(self).sending == old(self).sending,
            final(self).discarded(old(self)),
    {
        self.prefetch();
        let ghost start = *self;
        let ghost mut taken: int = 0;
        assert(self@.skip(0) =~= self@);
        while self.window > 0
            invariant
                self.wf(),
                self.same_ends(old(self)),
                self.sending == old(self).sending,
                start@ == old(self)@,
                start.flushed == old(self).flushed,
                0 <= taken <= old(self).flushed <= start@.len(),
                self.window == self.flushed,
                self.flushed == old(self).flushed - taken,
                self.consumed == old(self).consumed + taken,
                self@ == start@.skip(taken),
            decreases self.window,
        {
            let ghost rest = self@;
            let _ = self.pop();
            proof {
                assert(rest.drop_first() =~= start@.skip(taken + 1));
                taken = taken + 1;
            }
        }
    }

    /// Close the consuming end. A coordinated ring drops its published values;
    /// any other keeps all values until the producer is gone.
    pub fn close_consumer(&mut self)
        requires
            old(self).wf(),
        ensures
            final(self).wf(),
            final(self).consumer_closed,
            final(self).bound() == old(self).bound(),
            final(self).producer_closed == old(self).producer_closed,
            final(self).coordinated == old(self).coordinated,
            final(self).sending == old(self).sending,
            old(self).consumer_closed ==> *final(self) == *old(self),
            !old(self).consumer_closed && !old(self).coordinated ==> *final(self) == (Ring {
                consumer_closed: true,
                ..*old(self)
            }) && final(self)@ == old(self)@,
            !old(self).consumer_closed && old(self).coordinated ==> final(self).discarded(
                old(self),
            ),
    {
        if self.consumer_closed {
            return;
        }
        if self.coordinated {
            self.discard();
        }
        let ghost before = *self;
        self.consumer_closed = true;
        assert(self@ =~= before@);
    }

    /// Push a value and publish it. The value comes back when no slot is left,
    /// and from a coordinated ring also when its consumer has closed.
    pub fn push_and_flush(&mut self, value: T) -> (result: Result<(), T>)
        requires
            old(self).wf(),
            old(self).flushed == old(self)@.len(),
            !old(self).sending,
        ensures
            final(self).wf(),
            final(self).same_ends(old(self)),
            !final(self).sending,
            final(self).flushed == final(self)@.len(),
            final(self).window == old(self).window,
            final(self).consumed == old(self).consumed,
            result is Ok <==> !old(self).full() && !(old(self).coordinated
                && old(self).consumer_closed),
            result is Ok ==> final(self)@ == old(self)@.push(value),
            result matches Err(back) ==> back == value && *final(self) == *old(self),
    {
        if !self.coordinated {
            return match self.push(value) {
                Ok(()) => {
                    self.flush();
                    Ok(())
                },
                Err(value) => Err(value),
            };
        }
        if !self.begin() {
            return Err(value);
        }
        match self.push(value) {
            Ok(()) => {
                self.flush();
                self.finish();
                Ok(())
            },
            Err(value) => {
                self.finish();
                Err(value)
            },
        }
    }
}

} // verus!
