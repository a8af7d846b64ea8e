//! What makes rows of different runs comparable.
use vstd::prelude::*;

use super::rows::Row;
use super::selection::{at, valid};

verus! {

/// Payload, its size, and the threads of a row.
pub open spec fn configuration(row: Row) -> (Seq<char>, usize, usize, Option<usize>) {
    (row.payload@, row.payload_bytes, row.producers, row.consumers)
}

/// Whether two rows were measured under the same conditions.
pub open spec fn agree(a: Row, b: Row) -> bool {
    &&& a.cpu@ == b.cpu@
    &&& a.affinity@ == b.affinity@
    &&& a.mode@ == b.mode@
    &&& a.nominal_capacity == b.nominal_capacity
    &&& a.throughput_profile@ == b.throughput_profile@
    &&& a.low_watermark == b.low_watermark
    &&& a.high_watermark == b.high_watermark
    &&& a.samples == b.samples
}

/// Whether a list has rows and all were measured under the same conditions.
pub open spec fn uniform(rows: Seq<Row>, list: Seq<usize>) -> bool {
    &&& list.len() > 0
    &&& forall|k: int|
        0 <= k < list.len() ==> agree(#[trigger] at(rows, list, k), at(rows, list, 0))
}

/// The configurations in a list.
pub open spec fn configurations(
    rows: Seq<Row>,
    list: Seq<usize>,
) -> Set<(Seq<char>, usize, usize, Option<usize>)> {
    Seq::new(list.len(), |k: int| configuration(at(rows, list, k))).to_set()
}

/// Whether two lists have the same shape: the same conditions and the same
/// configurations.
pub open spec fn same_shape(rows: Seq<Row>, a: Seq<usize>, b: Seq<usize>) -> bool {
    &&& agree(at(rows, a, 0), at(rows, b, 0))
    &&& configurations(rows, a) == configurations(rows, b)
}

/// The shape of a list of rows.
pub struct BenchmarkShape {
    /// A row with the conditions.
    pub first: usize,
    /// One row for each configuration.
    pub configurations: Vec<usize>,
}

impl BenchmarkShape {
    /// Whether this is the shape of `list`.
    pub open spec fn is_of(&self, rows: Seq<Row>, list: Seq<usize>) -> bool {
        &&& uniform(rows, list)
        &&& self.first == list[0]
        &&& self.first < rows.len()
        &&& valid(rows, self.configurations@)
        &&& forall|i: int, j: int|
            0 <= i < j < self.configurations@.len() ==> configuration(
                #[trigger] at(rows, self.configurations@, i),
            ) != configuration(#[trigger] at(rows, self.configurations@, j))
        &&& configurations(rows, self.configurations@) == configurations(rows, list)
    }
}

/// Whether two rows have the same configuration.
fn configuration_is(a: &Row, b: &Row) -> (same: bool)
    ensures
        same == (configuration(*a) == configuration(*b)),
{
    let consumers: bool = match (a.consumers, b.consumers) {
        (Some(a), Some(b)) => a == b,
        (None, None) => true,
        _ => false,
    };
    consumers && a.payload == b.payload && a.payload_bytes == b.payload_bytes && a.producers
        == b.producers
}

/// Whether two rows were measured under the same conditions.
fn conditions_are(a: &Row, b: &Row) -> (same: bool)
    ensures
        same == agree(*a, *b),
{
    a.cpu == b.cpu && a.affinity == b.affinity && a.mode == b.mode && a.nominal_capacity
        == b.nominal_capacity && a.throughput_profile == b.throughput_profile && a.low_watermark
        == b.low_watermark && a.high_watermark == b.high_watermark && a.samples == b.samples
}

/// Whether a list has the configuration of a row.
fn lists_configuration(rows: &[Row], list: &[usize], row: &Row) -> (found: bool)
    requires
        valid(rows@, list@),
    ensures
        found == configurations(rows@, list@).contains(configuration(*row)),
{
    let ghost all = Seq::new(list@.len(), |k: int| configuration(at(rows@, list@, k)));
    let mut k: usize = 0;
    while k < list.len()
        invariant
            valid(rows@, list@),
            k <= list@.len(),
            all == Seq::new(list@.len(), |k: int| configuration(at(rows@, list@, k))),
            forall|i: int| 0 <= i < k ==> #[trigger] all[i] != configuration(*row),
        decreases list@.len() - k,
    {
        if configuration_is(&rows[list[k]], row) {
            assert(all[k as int] == configuration(*row));
            return true;
        }
        k += 1;
    }
    false
}

/// One more row adds its configuration.
proof fn lemma_configurations_push(rows: Seq<Row>, list: Seq<usize>, row: usize)
    ensures
        configurations(rows, list.push(row)) == configurations(rows, list).insert(
            configuration(rows[row as int]),
        ),
{
    let some = Seq::new(list.len(), |k: int| configuration(at(rows, list, k)));
    let longer = list.push(row);
    let all = Seq::new(longer.len(), |k: int| configuration(at(rows, longer, k)));
    assert(all =~= some.push(configuration(rows[row as int])));
    assert forall|c: (Seq<char>, usize, usize, Option<usize>)| #[trigger]
        all.to_set().contains(c) <==> some.to_set().insert(
            configuration(rows[row as int]),
        ).contains(c) by {
        if some.contains(c) {
            let i = choose|i: int| 0 <= i < some.len() && some[i] == c;
            assert(all[i] == c);
        }
        if c == configuration(rows[row as int]) {
            assert(all[all.len() - 1] == c);
        }
        if all.contains(c) {
            let i = choose|i: int| 0 <= i < all.len() && all[i] == c;
            if i < some.len() {
                assert(some[i] == c);
            }
        }
    }
    assert(all.to_set() =~= some.to_set().insert(configuration(rows[row as int])));
}

/// Determine the shape of a list of rows. A list that is empty or was measured
/// under different conditions has none.
pub fn benchmark_shape(rows: &[Row], list: &[usize]) -> (shape: Option<BenchmarkShape>)
    requires
        valid(rows@, list@),
    ensures
        match shape {
            Some(shape) => shape.is_of(rows@, list@),
            None => !uniform(rows@, list@),
        },
{
    if list.len() == 0 {
        return None;
    }
    let first: usize = list[0];
    let mut distinct: Vec<usize> = Vec::new();
    let mut k: usize = 0;
    assert(list@.take(0) =~= Seq::<usize>::empty());
    while k < list.len()
        invariant
            valid(rows@, list@),
            k <= list@.len(),
            0 < list@.len(),
            first == list@[0],
            forall|i: int|
                0 <= i < k ==> agree(#[trigger] at(rows@, list@, i), at(rows@, list@, 0)),
            valid(rows@, distinct@),
            forall|i: int, j: int|
                0 <= i < j < distinct@.len() ==> configuration(#[trigger] at(rows@, distinct@, i))
                    != configuration(#[trigger] at(rows@, distinct@, j)),
            configurations(rows@, distinct@) == configurations(rows@, list@.take(k as int)),
        decreases list@.len() - k,
    {
        let place: usize = list[k];
        if !conditions_are(&rows[place], &rows[first]) {
            assert(!agree(at(rows@, list@, k as int), at(rows@, list@, 0)));
            return None;
        }
        proof {
            assert(list@.take(k + 1) =~= list@.take(k as int).push(place));
            lemma_configurations_push(rows@, list@.take(k as int), place);
        }
        if !lists_configuration(rows, distinct.as_slice(), &rows[place]) {
            let ghost fewer = distinct@;
            proof {
                lemma_configurations_push(rows@, fewer, place);
            }
            distinct.push(place);
            proof {
                let known = Seq::new(
                    fewer.len(),
                    |k: int| configuration(at(rows@, fewer, k)),
                );
                assert forall|i: int, j: int| 0 <= i < j < distinct@.len() implies configuration(
                    #[trigger] at(rows@, distinct@, i),
                ) != configuration(#[trigger] at(rows@, distinct@, j)) by {
                    assert(at(rows@, distinct@, i) == at(rows@, fewer, i));
                    if j < fewer.len() {
                        assert(at(rows@, distinct@, j) == at(rows@, fewer, j));
                    } else {
                        assert(known[i] == configuration(at(rows@, fewer, i)));
                        assert(known.contains(known[i]));
                    }
                }
            }
        } else {
            assert(configurations(rows@, distinct@) =~= configurations(rows@, distinct@).insert(
                configuration(rows@[place as int]),
            ));
        }
        k += 1;
    }
    assert(list@.take(k as int) =~= list@);
    Some(BenchmarkShape { first, configurations: distinct })
}

/// How many configurations a shape has.
pub(super) fn configuration_count(
    shape: &BenchmarkShape,
    rows: &[Row],
    Ghost(list): Ghost<Seq<usize>>,
) -> (n: usize)
    requires
        shape.is_of(rows@, list),
    ensures
        n == configurations(rows@, list).len(),
{
    proof {
        let all = Seq::new(
            shape.configurations@.len(),
            |k: int| configuration(at(rows@, shape.configurations@, k)),
        );
        assert(all.no_duplicates());
        all.unique_seq_to_set();
    }
    shape.configurations.len()
}

/// Whether every configuration of one shape occurs in the other.
fn covers(rows: &[Row], a: &BenchmarkShape, b: &BenchmarkShape) -> (all: bool)
    requires
        valid(rows@, a.configurations@),
        valid(rows@, b.configurations@),
    ensures
        all == configurations(rows@, b.configurations@).subset_of(
            configurations(rows@, a.configurations@),
        ),
{
    let ghost list = b.configurations@;
    let ghost wanted = Seq::new(list.len(), |k: int| configuration(at(rows@, list, k)));
    let mut k: usize = 0;
    while k < b.configurations.len()
        invariant
            valid(rows@, a.configurations@),
            valid(rows@, b.configurations@),
            list == b.configurations@,
            wanted == Seq::new(list.len(), |k: int| configuration(at(rows@, list, k))),
            k <= list.len(),
            forall|i: int|
                0 <= i < k ==> configurations(rows@, a.configurations@).contains(
                    #[trigger] wanted[i],
                ),
        decreases list.len() - k,
    {
        let row = &rows[b.configurations[k]];
        assert(wanted[k as int] == configuration(*row));
        if !lists_configuration(rows, a.configurations.as_slice(), row) {
            assert(wanted.contains(wanted[k as int]));
            assert(configurations(rows@, list).contains(wanted[k as int]));
            return false;
        }
        k += 1;
    }
    assert forall|c: (Seq<char>, usize, usize, Option<usize>)| #[trigger]
        configurations(rows@, list).contains(c) implies configurations(
        rows@,
        a.configurations@,
    ).contains(c) by {
        let i = choose|i: int| 0 <= i < wanted.len() && wanted[i] == c;
        assert(wanted[i] == c);
    }
    true
}

/// Compare the shapes of two lists.
pub(super) fn shapes_are_equal(
    rows: &[Row],
    a: &BenchmarkShape,
    b: &BenchmarkShape,
    Ghost(first): Ghost<Seq<usize>>,
    Ghost(second): Ghost<Seq<usize>>,
) -> (same: bool)
    requires
        a.is_of(rows@, first),
        b.is_of(rows@, second),
    ensures
        same == same_shape(rows@, first, second),
{
    let same: bool = conditions_are(&rows[a.first], &rows[b.first]) && covers(rows, a, b) && covers(
        rows,
        b,
        a,
    );
    proof {
        let x = configurations(rows@, first);
        let y = configurations(rows@, second);
        if x.subset_of(y) && y.subset_of(x) {
            assert(x =~= y);
        }
    }
    same
}

} // verus!
