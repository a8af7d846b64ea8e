//! Values that left their ring and were not received yet, by ticket.
use vstd::multiset::Multiset;
use vstd::prelude::*;

verus! {

/// A place for every staged value. The ticket is the place.
pub struct Staging<T> {
    /// The places.
    pub places: Vec<Option<T>>,
    /// Empty places.
    pub free: Vec<u64>,
}

/// The values in `places`.
pub open spec fn values_in<T>(places: Seq<Option<T>>) -> Multiset<T>
    decreases places.len(),
{
    if places.len() == 0 {
        Multiset::empty()
    } else {
        let earlier = values_in(places.drop_last());
        match places.last() {
            Some(value) => earlier.insert(value),
            None => earlier,
        }
    }
}

/// What one more place adds.
pub proof fn lemma_values_push<T>(places: Seq<Option<T>>, value: T)
    ensures
        values_in(places.push(Some(value))) == values_in(places).insert(value),
{
    assert(places.push(Some(value)).drop_last() =~= places);
}

/// What filling an empty place adds.
pub proof fn lemma_values_fill<T>(places: Seq<Option<T>>, i: int, value: T)
    requires
        0 <= i < places.len(),
        places[i] is None,
    ensures
        values_in(places.update(i, Some(value))) == values_in(places).insert(value),
    decreases places.len(),
{
    let filled = places.update(i, Some(value));
    if i == places.len() - 1 {
        assert(filled.drop_last() =~= places.drop_last());
    } else {
        lemma_values_fill(places.drop_last(), i, value);
        assert(filled.drop_last() =~= places.drop_last().update(i, Some(value)));
        match places.last() {
            Some(last) => {
                assert(values_in(places.drop_last()).insert(value).insert(last) =~= values_in(
                    places.drop_last(),
                ).insert(last).insert(value));
            },
            None => {},
        }
    }
}

/// What clearing a place takes away.
pub proof fn lemma_values_clear<T>(places: Seq<Option<T>>, i: int)
    requires
        0 <= i < places.len(),
        places[i] is Some,
    ensures
        values_in(places).contains(places[i]->Some_0),
        values_in(places.update(i, None)) == values_in(places).remove(places[i]->Some_0),
    decreases places.len(),
{
    let cleared = places.update(i, None);
    let value = places[i]->Some_0;
    lemma_values_fill(cleared, i, value);
    assert(cleared.update(i, Some(value)) =~= places);
    assert(values_in(cleared).insert(value).remove(value) =~= values_in(cleared));
}

/// Without values every place is empty.
pub proof fn lemma_values_empty<T>(places: Seq<Option<T>>)
    ensures
        values_in(places).len() == 0 <==> forall|i: int|
            0 <= i < places.len() ==> (#[trigger] places[i]) is None,
    decreases places.len(),
{
    if places.len() > 0 {
        let rest = places.drop_last();
        lemma_values_empty(rest);
        if values_in(places).len() == 0 {
            assert forall|i: int| 0 <= i < places.len() implies (#[trigger] places[i]) is None by {
                if i < rest.len() {
                    assert(rest[i] == places[i]);
                }
            }
        }
        if forall|i: int| 0 <= i < places.len() ==> (#[trigger] places[i]) is None {
            assert forall|i: int| 0 <= i < rest.len() implies (#[trigger] rest[i]) is None by {
                assert(rest[i] == places[i]);
            }
        }
    }
}

impl<T> Staging<T> {
    /// Whether `ticket` names a staged value.
    pub open spec fn holds(&self, ticket: u64) -> bool {
        ticket < self.places@.len() && self.places@[ticket as int] is Some
    }

    /// The value that `ticket` names.
    pub open spec fn value(&self, ticket: u64) -> T {
        self.places@[ticket as int]->Some_0
    }

    /// The values that some tickets name.
    pub open spec fn named(&self, tickets: Seq<u64>) -> Seq<T> {
        Seq::new(tickets.len(), |i: int| self.value(tickets[i]))
    }

    /// All staged values.
    pub open spec fn values(&self) -> Multiset<T> {
        values_in(self.places@)
    }

    /// The free list names empty places, each once.
    pub open spec fn wf(&self) -> bool {
        &&& forall|i: int|
            0 <= i < self.free@.len() ==> (#[trigger] self.free@[i]) < self.places@.len()
                && self.places@[self.free@[i] as int] is None
        &&& forall|i: int, j: int|
            0 <= i < j < self.free@.len() ==> self.free@[i] != self.free@[j]
    }

    /// Whether every place but one stayed as it was.
    pub open spec fn same_but(&self, before: &Staging<T>, ticket: u64) -> bool {
        forall|t: u64|
            t != ticket ==> #[trigger] self.holds(t) == before.holds(t) && (self.holds(t)
                ==> self.value(t) == before.value(t))
    }

    /// Tickets that were not touched name the same values.
    pub proof fn lemma_named(&self, before: &Staging<T>, ticket: u64, tickets: Seq<u64>)
        requires
            self.same_but(before, ticket),
            forall|i: int|
                0 <= i < tickets.len() ==> (#[trigger] tickets[i]) != ticket && before.holds(
                    tickets[i],
                ),
        ensures
            self.named(tickets) == before.named(tickets),
    {
        assert forall|i: int| 0 <= i < tickets.len() implies self.value(#[trigger] tickets[i])
            == before.value(tickets[i]) by {
            assert(self.holds(tickets[i]) == before.holds(tickets[i]));
        }
        assert(self.named(tickets) =~= before.named(tickets));
    }

    /// A new ticket at the end names a new value at the end.
    pub proof fn lemma_put(&self, after: &Staging<T>, ticket: u64, tickets: Seq<u64>)
        requires
            after.same_but(self, ticket),
            !self.holds(ticket),
            forall|i: int| 0 <= i < tickets.len() ==> self.holds(#[trigger] tickets[i]),
        ensures
            after.named(tickets) == self.named(tickets),
            after.named(tickets.push(ticket)) == self.named(tickets).push(after.value(ticket)),
    {
        after.lemma_named(self, ticket, tickets);
        assert forall|i: int| 0 <= i < tickets.len() implies after.value(#[trigger] tickets[i])
            == self.value(tickets[i]) by {
            assert(after.named(tickets)[i] == self.named(tickets)[i]);
        }
        assert(after.named(tickets.push(ticket)) =~= self.named(tickets).push(
            after.value(ticket),
        ));
    }

    /// Nothing staged.
    pub fn new() -> (staging: Staging<T>)
        ensures
            staging.wf(),
            staging.values() == Multiset::<T>::empty(),
            forall|ticket: u64| !#[trigger] staging.holds(ticket),
    {
        Staging { places: Vec::new(), free: Vec::new() }
    }

    /// Stage a value. Returns its ticket.
    pub fn put(&mut self, value: T) -> (ticket: u64)
        requires
            old(self).wf(),
        ensures
            final(self).wf(),
            !old(self).holds(ticket),
            final(self).holds(ticket),
            final(self).value(ticket) == value,
            final(self).same_but(old(self), ticket),
            final(self).values() == old(self).values().insert(value),
    {
        let ghost before = *self;
        match self.free.pop() {
            Some(ticket) => {
                proof {
                    assert(before.free@[before.free@.len() - 1] == ticket);
                    lemma_values_fill(before.places@, ticket as int, value);
                }
                self.places.set(ticket as usize, Some(value));
                ticket
            },
            None => {
                proof {
                    lemma_values_push(before.places@, value);
                }
                let ticket: u64 = self.places.len() as u64;
                self.places.push(Some(value));
                ticket
            },
        }
    }

    /// Take the value that `ticket` names.
    pub fn take(&mut self, ticket: u64) -> (value: T)
        requires
            old(self).wf(),
            old(self).holds(ticket),
        ensures
            final(self).wf(),
            value == old(self).value(ticket),
            !final(self).holds(ticket),
            final(self).same_but(old(self), ticket),
            old(self).values().contains(value),
            final(self).values() == old(self).values().remove(value),
    {
        let ghost before = *self;
        proof {
            lemma_values_clear(before.places@, ticket as int);
        }
        assert(ticket < self.places.len());
        let value = self.places[ticket as usize].take();
        self.free.push(ticket);
        value.unwrap()
    }
}

} // verus!
