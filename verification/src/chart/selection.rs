//! Which rows of a results file a throughput chart shows.
//!
//! A list of rows names them by their position in the file.
use vstd::prelude::*;

use super::names::{add_name, sorted_names, texts};
use super::rows::Row;
use super::words::same_text;

verus! {

/// Whether every entry is the position of a row.
pub open spec fn valid(rows: Seq<Row>, list: Seq<usize>) -> bool {
    forall|k: int| 0 <= k < list.len() ==> (#[trigger] list[k]) < rows.len()
}

/// The row at place `k` of a list.
pub open spec fn at(rows: Seq<Row>, list: Seq<usize>, k: int) -> Row {
    rows[list[k] as int]
}

/// Whether two rows are samples of the same configuration.
pub open spec fn same_configuration(a: Row, b: Row) -> bool {
    &&& a.implementation@ == b.implementation@
    &&& a.payload@ == b.payload@
    &&& a.producers == b.producers
    &&& a.consumers == b.consumers
}

/// Whether the row at place `k` is the first of its configuration.
pub open spec fn opens(rows: Seq<Row>, list: Seq<usize>, k: int) -> bool {
    forall|j: int|
        0 <= j < k ==> !same_configuration(#[trigger] at(rows, list, j), at(rows, list, k))
}

/// Whether sample `s` of the configuration of the row at place `k` is there.
pub open spec fn has_sample(rows: Seq<Row>, list: Seq<usize>, k: int, s: int) -> bool {
    exists|j: int|
        0 <= j < list.len() && same_configuration(#[trigger] at(rows, list, j), at(rows, list, k))
            && at(rows, list, j).sample == s
}

/// Whether the configuration that starts at place `k` has exactly the samples
/// that its first row announces.
pub open spec fn sampled(rows: Seq<Row>, list: Seq<usize>, k: int) -> bool {
    let samples = at(rows, list, k).samples;
    &&& samples != 0
    &&& forall|s: int| 0 <= s < samples ==> #[trigger] has_sample(rows, list, k, s)
    &&& forall|j: int|
        0 <= j < list.len() && same_configuration(#[trigger] at(rows, list, j), at(rows, list, k))
            ==> at(rows, list, j).sample < samples
}

/// Whether a run is complete: it has rows, as many as announced if that was
/// recorded, and every configuration has all its samples and no others.
pub open spec fn complete(rows: Seq<Row>, list: Seq<usize>) -> bool {
    &&& list.len() > 0
    &&& at(rows, list, 0).expected_rows != 0 ==> {
        &&& list.len() == at(rows, list, 0).expected_rows
        &&& forall|k: int|
            0 <= k < list.len() ==> (#[trigger] at(rows, list, k)).expected_rows == at(
                rows,
                list,
                0,
            ).expected_rows
    }
    &&& forall|k: int|
        0 <= k < list.len() && #[trigger] opens(rows, list, k) ==> sampled(rows, list, k)
}

/// Whether two optional counts are equal.
fn same_count(a: Option<usize>, b: Option<usize>) -> (same: bool)
    ensures
        same == (a == b),
{
    match (a, b) {
        (Some(a), Some(b)) => a == b,
        (None, None) => true,
        _ => false,
    }
}

/// Whether two rows are samples of the same configuration.
fn configured_alike(a: &Row, b: &Row) -> (same: bool)
    ensures
        same == same_configuration(*a, *b),
{
    a.implementation == b.implementation && a.payload == b.payload && a.producers == b.producers
        && same_count(a.consumers, b.consumers)
}

/// Whether the row at place `k` is the first of its configuration.
fn is_opening(rows: &[Row], list: &[usize], k: usize) -> (first: bool)
    requires
        valid(rows@, list@),
        k < list@.len(),
    ensures
        first == opens(rows@, list@, k as int),
{
    let mut j: usize = 0;
    while j < k
        invariant
            valid(rows@, list@),
            j <= k < list@.len(),
            forall|i: int|
                0 <= i < j ==> !same_configuration(
                    #[trigger] at(rows@, list@, i),
                    at(rows@, list@, k as int),
                ),
        decreases k - j,
    {
        if configured_alike(&rows[list[j]], &rows[list[k]]) {
            assert(same_configuration(at(rows@, list@, j as int), at(rows@, list@, k as int)));
            return false;
        }
        j += 1;
    }
    true
}

/// Whether sample `s` of the configuration of the row at place `k` is there.
fn find_sample(rows: &[Row], list: &[usize], k: usize, s: usize) -> (found: bool)
    requires
        valid(rows@, list@),
        k < list@.len(),
    ensures
        found == has_sample(rows@, list@, k as int, s as int),
{
    let mut j: usize = 0;
    while j < list.len()
        invariant
            valid(rows@, list@),
            k < list@.len(),
            j <= list@.len(),
            forall|i: int|
                0 <= i < j ==> !(same_configuration(
                    #[trigger] at(rows@, list@, i),
                    at(rows@, list@, k as int),
                ) && at(rows@, list@, i).sample == s),
        decreases list@.len() - j,
    {
        let row = &rows[list[j]];
        if configured_alike(row, &rows[list[k]]) && row.sample == s {
            assert(same_configuration(at(rows@, list@, j as int), at(rows@, list@, k as int)));
            return true;
        }
        j += 1;
    }
    false
}

/// Whether the configuration that starts at place `k` has exactly its samples.
fn is_sampled(rows: &[Row], list: &[usize], k: usize) -> (all: bool)
    requires
        valid(rows@, list@),
        k < list@.len(),
    ensures
        all == sampled(rows@, list@, k as int),
{
    let samples: usize = rows[list[k]].samples;
    if samples == 0 {
        return false;
    }
    let mut j: usize = 0;
    while j < list.len()
        invariant
            valid(rows@, list@),
            k < list@.len(),
            j <= list@.len(),
            samples == at(rows@, list@, k as int).samples,
            forall|i: int|
                0 <= i < j && same_configuration(
                    #[trigger] at(rows@, list@, i),
                    at(rows@, list@, k as int),
                ) ==> at(rows@, list@, i).sample < samples,
        decreases list@.len() - j,
    {
        let row = &rows[list[j]];
        if configured_alike(row, &rows[list[k]]) && row.sample >= samples {
            assert(same_configuration(at(rows@, list@, j as int), at(rows@, list@, k as int)));
            return false;
        }
        j += 1;
    }
    let mut s: usize = 0;
    while s < samples
        invariant
            valid(rows@, list@),
            k < list@.len(),
            s <= samples,
            samples == at(rows@, list@, k as int).samples,
            forall|t: int| 0 <= t < s ==> #[trigger] has_sample(rows@, list@, k as int, t),
        decreases samples - s,
    {
        if !find_sample(rows, list, k, s) {
            assert(!has_sample(rows@, list@, k as int, s as int));
            return false;
        }
        s += 1;
    }
    true
}

/// Whether a run is complete.
pub fn run_is_complete(rows: &[Row], list: &[usize]) -> (all: bool)
    requires
        valid(rows@, list@),
    ensures
        all == complete(rows@, list@),
{
    if list.len() == 0 {
        return false;
    }
    let expected: usize = rows[list[0]].expected_rows;
    if expected != 0 {
        if list.len() != expected {
            return false;
        }
        let mut k: usize = 0;
        while k < list.len()
            invariant
                valid(rows@, list@),
                k <= list@.len(),
                expected == at(rows@, list@, 0).expected_rows,
                expected != 0,
                forall|i: int|
                    0 <= i < k ==> (#[trigger] at(rows@, list@, i)).expected_rows == expected,
            decreases list@.len() - k,
        {
            if rows[list[k]].expected_rows != expected {
                assert(at(rows@, list@, k as int).expected_rows != expected);
                return false;
            }
            k += 1;
        }
    }
    let mut k: usize = 0;
    while k < list.len()
        invariant
            valid(rows@, list@),
            k <= list@.len(),
            forall|i: int|
                0 <= i < k && #[trigger] opens(rows@, list@, i) ==> sampled(rows@, list@, i),
        decreases list@.len() - k,
    {
        if is_opening(rows, list, k) && !is_sampled(rows, list, k) {
            assert(opens(rows@, list@, k as int));
            return false;
        }
        k += 1;
    }
    true
}

/// The implementations of the rows in a list.
pub open spec fn implementations(rows: Seq<Row>, list: Seq<usize>) -> Seq<Seq<char>> {
    Seq::new(list.len(), |k: int| at(rows, list, k).implementation@)
}

/// The rows of one implementation, in order.
pub open spec fn of_implementation(
    rows: Seq<Row>,
    list: Seq<usize>,
    name: Seq<char>,
) -> Seq<usize>
    decreases list.len(),
{
    if list.len() == 0 {
        list
    } else {
        let earlier = of_implementation(rows, list.drop_last(), name);
        if at(rows, list, list.len() - 1).implementation@ == name {
            earlier.push(list.last())
        } else {
            earlier
        }
    }
}

/// The rows of a list by implementation, the implementations in ascending order.
pub open spec fn groups_of(rows: Seq<Row>, list: Seq<usize>) -> Seq<Seq<usize>> {
    let names = sorted_names(implementations(rows, list));
    Seq::new(names.len(), |k: int| of_implementation(rows, list, names[k]))
}

/// What a list of lists holds.
pub open spec fn lists(groups: Seq<Vec<usize>>) -> Seq<Seq<usize>> {
    Seq::new(groups.len(), |k: int| groups[k]@)
}

/// The rows of one implementation are rows of the list.
pub proof fn lemma_of_implementation(rows: Seq<Row>, list: Seq<usize>, name: Seq<char>)
    requires
        valid(rows, list),
    ensures
        valid(rows, of_implementation(rows, list, name)),
        forall|k: int|
            0 <= k < of_implementation(rows, list, name).len() ==> (#[trigger] at(
                rows,
                of_implementation(rows, list, name),
                k,
            )).implementation@ == name,
        implementations(rows, list).contains(name) ==> of_implementation(rows, list, name).len()
            > 0,
    decreases list.len(),
{
    if list.len() > 0 {
        let fewer = list.drop_last();
        assert forall|k: int| 0 <= k < fewer.len() implies (#[trigger] fewer[k]) < rows.len() by {
            assert(fewer[k] == list[k]);
        }
        lemma_of_implementation(rows, fewer, name);
        let earlier = of_implementation(rows, fewer, name);
        let all = of_implementation(rows, list, name);
        assert(list[list.len() - 1] < rows.len());
        assert forall|k: int| 0 <= k < all.len() implies (#[trigger] all[k]) < rows.len() by {
            if k < earlier.len() {
                assert(all[k] == earlier[k]);
            }
        }
        assert forall|k: int| 0 <= k < all.len() implies (#[trigger] at(
            rows,
            all,
            k,
        )).implementation@ == name by {
            if k < earlier.len() {
                assert(all[k] == earlier[k]);
                assert(at(rows, earlier, k).implementation@ == name);
            }
        }
        if implementations(rows, list).contains(name) {
            let i = choose|i: int| 0 <= i < list.len() && implementations(rows, list)[i] == name;
            if i < fewer.len() {
                assert(implementations(rows, fewer)[i] == name);
            }
        }
    }
}

/// Pick the rows of one implementation.
fn rows_of(rows: &[Row], list: &[usize], name: &str) -> (chosen: Vec<usize>)
    requires
        valid(rows@, list@),
    ensures
        chosen@ == of_implementation(rows@, list@, name@),
{
    let mut chosen: Vec<usize> = Vec::new();
    let mut k: usize = 0;
    assert(list@.take(0) =~= Seq::<usize>::empty());
    while k < list.len()
        invariant
            valid(rows@, list@),
            k <= list@.len(),
            chosen@ == of_implementation(rows@, list@.take(k as int), name@),
        decreases list@.len() - k,
    {
        proof {
            let now = list@.take(k + 1);
            assert(now.drop_last() =~= list@.take(k as int));
            assert(now.last() == list@[k as int]);
        }
        if same_text(rows[list[k]].implementation.as_str(), name) {
            chosen.push(list[k]);
        }
        k += 1;
    }
    assert(list@.take(k as int) =~= list@);
    chosen
}

/// The implementations in a list of rows, in ascending order, each once.
pub fn implementation_names(rows: &[Row], list: &[usize]) -> (names: Vec<String>)
    requires
        valid(rows@, list@),
    ensures
        texts(names@) == sorted_names(implementations(rows@, list@)),
{
    let mut names: Vec<String> = Vec::new();
    let ghost all = implementations(rows@, list@);
    let mut k: usize = 0;
    assert(all.take(0) =~= Seq::<Seq<char>>::empty());
    assert(texts(names@) =~= Seq::<Seq<char>>::empty());
    while k < list.len()
        invariant
            valid(rows@, list@),
            k <= list@.len(),
            all == implementations(rows@, list@),
            texts(names@) == sorted_names(all.take(k as int)),
        decreases list@.len() - k,
    {
        proof {
            let now = all.take(k + 1);
            assert(now.drop_last() =~= all.take(k as int));
            assert(now.last() == all[k as int]);
        }
        add_name(&mut names, rows[list[k]].implementation.as_str());
        k += 1;
    }
    assert(all.take(k as int) =~= all);
    names
}

/// Sort the rows of a list by implementation.
pub fn implementation_groups(rows: &[Row], list: &[usize]) -> (groups: Vec<Vec<usize>>)
    requires
        valid(rows@, list@),
    ensures
        lists(groups@) == groups_of(rows@, list@),
{
    let names = implementation_names(rows, list);
    let mut groups: Vec<Vec<usize>> = Vec::new();
    let ghost wanted = groups_of(rows@, list@);
    let mut k: usize = 0;
    while k < names.len()
        invariant
            valid(rows@, list@),
            k <= names@.len(),
            texts(names@) == sorted_names(implementations(rows@, list@)),
            wanted == groups_of(rows@, list@),
            lists(groups@) == wanted.take(k as int),
            groups@.len() == k,
        decreases names@.len() - k,
    {
        assert(texts(names@)[k as int] == names@[k as int]@);
        let group = rows_of(rows, list, names[k].as_str());
        groups.push(group);
        assert(lists(groups@) =~= wanted.take(k as int).push(wanted[k as int]));
        assert(wanted.take(k + 1) =~= wanted.take(k as int).push(wanted[k as int]));
        k += 1;
    }
    assert(wanted.take(k as int) =~= wanted);
    groups
}

} // verus!
