//! What a chart compares.
use vstd::prelude::*;

use super::names::{sorted_names, texts};
use super::rows::Row;
use super::selection::{implementation_names, implementations, valid};
use super::words::same_text;

verus! {

/// An implementation and the name it is drawn under.
#[derive(Clone, Debug, PartialEq, Eq)]
pub struct Series {
    /// The implementation.
    pub key: String,
    /// The name.
    pub label: String,
}

/// The implementations in a list of series.
pub open spec fn keys_of(series: Seq<Series>) -> Seq<Seq<char>> {
    Seq::new(series.len(), |k: int| series[k].key@)
}

/// The names in a list of series.
pub open spec fn labels_of(series: Seq<Series>) -> Seq<Seq<char>> {
    Seq::new(series.len(), |k: int| series[k].label@)
}

/// One series.
pub fn one_series(key: &str, label: &str) -> (series: Series)
    ensures
        series.key@ == key@,
        series.label@ == label@,
{
    Series { key: key.to_owned(), label: label.to_owned() }
}

/// The implementations that throughput charts know, in the order they are drawn.
pub open spec fn known_keys() -> Seq<Seq<char>> {
    seq![
        "fanring"@,
        "fanring-mpmc"@,
        "crossbeam-channel"@,
        "concurrent-queue"@,
        "thingbuf"@,
        "flume"@,
        "kanal"@,
    ]
}

/// The names that they are drawn under.
pub open spec fn known_labels() -> Seq<Seq<char>> {
    seq![
        "fanring"@,
        "fanring"@,
        "crossbeam-channel 0.5.16"@,
        "concurrent-queue 2.5.0"@,
        "thingbuf 0.1.6"@,
        "flume 0.12.0"@,
        "kanal 0.1.1"@,
    ]
}

/// The implementations that throughput charts know.
pub fn known_series() -> (series: Vec<Series>)
    ensures
        keys_of(series@) == known_keys(),
        labels_of(series@) == known_labels(),
{
    let mut series: Vec<Series> = Vec::new();
    series.push(one_series("fanring", "fanring"));
    series.push(one_series("fanring-mpmc", "fanring"));
    series.push(one_series("crossbeam-channel", "crossbeam-channel 0.5.16"));
    series.push(one_series("concurrent-queue", "concurrent-queue 2.5.0"));
    series.push(one_series("thingbuf", "thingbuf 0.1.6"));
    series.push(one_series("flume", "flume 0.12.0"));
    series.push(one_series("kanal", "kanal 0.1.1"));
    assert(keys_of(series@) =~= known_keys());
    assert(labels_of(series@) =~= known_labels());
    series
}

/// The places of the first `n` known implementations that are among `names`.
pub open spec fn known_among(names: Seq<Seq<char>>, n: int) -> Seq<int>
    decreases n,
{
    if n <= 0 {
        Seq::empty()
    } else {
        let earlier = known_among(names, n - 1);
        if names.contains(known_keys()[n - 1]) {
            earlier.push(n - 1)
        } else {
            earlier
        }
    }
}

/// The names that are not known.
pub open spec fn unknown_among(names: Seq<Seq<char>>) -> Seq<Seq<char>>
    decreases names.len(),
{
    if names.len() == 0 {
        names
    } else {
        let earlier = unknown_among(names.drop_last());
        if known_keys().contains(names.last()) {
            earlier
        } else {
            earlier.push(names.last())
        }
    }
}

/// What a chart of these implementations shows: the known ones in their order,
/// then the others in ascending order under their own names.
pub open spec fn shown(names: Seq<Seq<char>>, series: Seq<Series>) -> bool {
    let known = known_among(names, known_keys().len() as int);
    let others = unknown_among(names);
    &&& series.len() == known.len() + others.len()
    &&& forall|k: int|
        0 <= k < known.len() ==> (#[trigger] series[k]).key@ == known_keys()[known[k]]
            && series[k].label@ == known_labels()[known[k]]
    &&& forall|k: int|
        known.len() <= k < series.len() ==> (#[trigger] series[k]).key@ == others[k - known.len()]
            && series[k].label@ == others[k - known.len()]
}

/// Whether a name is in a list.
fn is_among(names: &[String], name: &str) -> (found: bool)
    ensures
        found == texts(names@).contains(name@),
{
    let mut k: usize = 0;
    while k < names.len()
        invariant
            k <= names@.len(),
            forall|i: int| 0 <= i < k ==> #[trigger] texts(names@)[i] != name@,
        decreases names@.len() - k,
    {
        if same_text(names[k].as_str(), name) {
            assert(texts(names@)[k as int] == name@);
            return true;
        }
        k += 1;
    }
    false
}

/// Whether an implementation is known.
fn is_known(series: &[Series], name: &str) -> (known: bool)
    ensures
        known == keys_of(series@).contains(name@),
{
    let mut k: usize = 0;
    while k < series.len()
        invariant
            k <= series@.len(),
            forall|i: int| 0 <= i < k ==> #[trigger] keys_of(series@)[i] != name@,
        decreases series@.len() - k,
    {
        if same_text(series[k].key.as_str(), name) {
            assert(keys_of(series@)[k as int] == name@);
            return true;
        }
        k += 1;
    }
    false
}

/// What a chart of some rows shows.
pub fn present_series(rows: &[Row], list: &[usize]) -> (series: Vec<Series>)
    requires
        valid(rows@, list@),
    ensures
        shown(sorted_names(implementations(rows@, list@)), series@),
{
    let names = implementation_names(rows, list);
    let ghost all = texts(names@);
    let table = known_series();
    let mut series: Vec<Series> = Vec::new();
    let mut k: usize = 0;
    while k < table.len()
        invariant
            k <= table@.len(),
            all == texts(names@),
            keys_of(table@) == known_keys(),
            labels_of(table@) == known_labels(),
            series@.len() == known_among(all, k as int).len(),
            forall|i: int|
                0 <= i < series@.len() ==> (#[trigger] series@[i]).key@ == known_keys()[known_among(
                    all,
                    k as int,
                )[i]] && series@[i].label@ == known_labels()[known_among(all, k as int)[i]],
        decreases table@.len() - k,
    {
        let entry = &table[k];
        assert(keys_of(table@)[k as int] == entry.key@);
        assert(labels_of(table@)[k as int] == entry.label@);
        if is_among(names.as_slice(), entry.key.as_str()) {
            series.push(one_series(entry.key.as_str(), entry.label.as_str()));
        }
        k += 1;
    }
    let ghost known = known_among(all, known_keys().len() as int);
    assert(known_keys().len() == keys_of(table@).len());
    let mut k: usize = 0;
    assert(all.take(0) =~= Seq::<Seq<char>>::empty());
    while k < names.len()
        invariant
            k <= names@.len(),
            all == texts(names@),
            keys_of(table@) == known_keys(),
            known == known_among(all, known_keys().len() as int),
            series@.len() == known.len() + unknown_among(all.take(k as int)).len(),
            forall|i: int|
                0 <= i < known.len() ==> (#[trigger] series@[i]).key@ == known_keys()[known[i]]
                    && series@[i].label@ == known_labels()[known[i]],
            forall|i: int|
                known.len() <= i < series@.len() ==> (#[trigger] series@[i]).key@ == unknown_among(
                    all.take(k as int),
                )[i - known.len()] && series@[i].label@ == unknown_among(all.take(k as int))[i
                    - known.len()],
        decreases names@.len() - k,
    {
        proof {
            let now = all.take(k + 1);
            assert(now.drop_last() =~= all.take(k as int));
            assert(now.last() == names@[k as int]@);
        }
        let name = names[k].as_str();
        if !is_known(table.as_slice(), name) {
            series.push(one_series(name, name));
        }
        k += 1;
    }
    assert(all.take(k as int) =~= all);
    series
}

} // verus!
