//! Which rows of a results file a wake-latency chart shows.
use vstd::prelude::*;

use crate::text::{append_decimal, decimal};

use super::combination::ChartError;
use super::names::{add_name, lemma_sorted_names, sorted_names, texts};
use super::series::{keys_of, labels_of, one_series, Series};
use super::words::{chars_of, same_text};

verus! {

/// One wake-latency result.
#[derive(Clone, Debug, PartialEq, Eq)]
pub struct LatencyRow {
    /// The run it belongs to.
    pub run_id: String,
    /// Processor.
    pub cpu: String,
    /// What was measured.
    pub implementation: String,
    /// Which side was asleep.
    pub operation: String,
    /// Capacity of the channel.
    pub capacity: usize,
    /// Measurements.
    pub rounds: usize,
    /// How the sleeper was left alone before each measurement.
    pub settle_mode: String,
    /// For how long.
    pub settle_ns: u64,
    /// Median.
    pub p50_ns: u64,
    /// 99th percentile.
    pub p99_ns: u64,
}

/// One group of bars.
#[derive(Clone, Copy, Debug, PartialEq, Eq, Structural)]
pub enum Metric {
    /// Median until a blocked receiver runs.
    RecvMedian,
    /// 99th percentile until a blocked receiver runs.
    RecvTail,
    /// Median until a blocked sender runs.
    SendMedian,
    /// 99th percentile until a blocked sender runs.
    SendTail,
}

impl Metric {
    /// The operation that is measured.
    pub open spec fn operation_name(self) -> Seq<char> {
        match self {
            Metric::RecvMedian => "recv_wake"@,
            Metric::RecvTail => "recv_wake"@,
            Metric::SendMedian => "send_wake"@,
            Metric::SendTail => "send_wake"@,
        }
    }

    /// The operation that is measured.
    pub fn operation(self) -> (name: String)
        ensures
            name@ == self.operation_name(),
    {
        match self {
            Metric::RecvMedian => "recv_wake".to_owned(),
            Metric::RecvTail => "recv_wake".to_owned(),
            Metric::SendMedian => "send_wake".to_owned(),
            Metric::SendTail => "send_wake".to_owned(),
        }
    }

    /// The percentile that is shown.
    pub fn percentile(self) -> (name: String)
        ensures
            name@ == match self {
                Metric::RecvMedian => "p50"@,
                Metric::RecvTail => "p99"@,
                Metric::SendMedian => "p50"@,
                Metric::SendTail => "p99"@,
            },
    {
        match self {
            Metric::RecvMedian => "p50".to_owned(),
            Metric::RecvTail => "p99".to_owned(),
            Metric::SendMedian => "p50".to_owned(),
            Metric::SendTail => "p99".to_owned(),
        }
    }

    /// The height of a bar.
    pub fn value(self, row: &LatencyRow) -> (ns: u64)
        ensures
            ns == match self {
                Metric::RecvMedian => row.p50_ns,
                Metric::RecvTail => row.p99_ns,
                Metric::SendMedian => row.p50_ns,
                Metric::SendTail => row.p99_ns,
            },
    {
        match self {
            Metric::RecvMedian => row.p50_ns,
            Metric::RecvTail => row.p99_ns,
            Metric::SendMedian => row.p50_ns,
            Metric::SendTail => row.p99_ns,
        }
    }
}

/// The implementations that a chart compares.
pub open spec fn series_keys(topology: Seq<char>) -> Option<Seq<Seq<char>>> {
    if topology == "mpsc"@ {
        Some(
            seq![
                "fanring"@,
                "crossbeam-channel"@,
                "crossfire"@,
                "thingbuf"@,
                "flume"@,
                "kanal"@,
            ],
        )
    } else if topology == "mpmc"@ {
        Some(seq!["fanring-mpmc"@, "crossbeam-channel"@, "crossfire-mpmc"@, "flume"@, "kanal"@])
    } else {
        None
    }
}

/// The names that they are drawn under.
pub open spec fn series_labels(topology: Seq<char>) -> Seq<Seq<char>> {
    if topology == "mpsc"@ {
        seq![
            "fanring"@,
            "crossbeam-channel 0.5.16"@,
            "crossfire 3.1.19"@,
            "thingbuf 0.1.6"@,
            "flume 0.12.0"@,
            "kanal 0.1.1*"@,
        ]
    } else {
        seq![
            "fanring"@,
            "crossbeam-channel 0.5.16"@,
            "crossfire 3.1.19"@,
            "flume 0.12.0"@,
            "kanal 0.1.1*"@,
        ]
    }
}

/// The series of a chart, if the topology is known.
pub fn latency_series(topology: &str) -> (series: Option<Vec<Series>>)
    ensures
        match series {
            Some(series) => series_keys(topology@) == Some(keys_of(series@)) && labels_of(series@)
                == series_labels(topology@),
            None => series_keys(topology@) is None,
        },
{
    let mut series: Vec<Series> = Vec::new();
    if same_text(topology, "mpsc") {
        series.push(one_series("fanring", "fanring"));
        series.push(one_series("crossbeam-channel", "crossbeam-channel 0.5.16"));
        series.push(one_series("crossfire", "crossfire 3.1.19"));
        series.push(one_series("thingbuf", "thingbuf 0.1.6"));
        series.push(one_series("flume", "flume 0.12.0"));
        series.push(one_series("kanal", "kanal 0.1.1*"));
    } else if same_text(topology, "mpmc") {
        series.push(one_series("fanring-mpmc", "fanring"));
        series.push(one_series("crossbeam-channel", "crossbeam-channel 0.5.16"));
        series.push(one_series("crossfire-mpmc", "crossfire 3.1.19"));
        series.push(one_series("flume", "flume 0.12.0"));
        series.push(one_series("kanal", "kanal 0.1.1*"));
    } else {
        return None;
    }
    proof {
        assert(keys_of(series@) =~= series_keys(topology@)->Some_0);
        assert(labels_of(series@) =~= series_labels(topology@));
    }
    Some(series)
}

/// Whether every entry is the position of a row.
pub open spec fn in_file(rows: Seq<LatencyRow>, list: Seq<usize>) -> bool {
    forall|k: int| 0 <= k < list.len() ==> (#[trigger] list[k]) < rows.len()
}

/// The row at place `k` of a list.
pub open spec fn nth(rows: Seq<LatencyRow>, list: Seq<usize>, k: int) -> LatencyRow {
    rows[list[k] as int]
}

/// Whether two rows were measured under the same conditions.
pub open spec fn comparable(a: LatencyRow, b: LatencyRow) -> bool {
    &&& a.cpu@ == b.cpu@
    &&& a.capacity == b.capacity
    &&& a.rounds == b.rounds
    &&& a.settle_mode@ == b.settle_mode@
    &&& a.settle_ns == b.settle_ns
}

/// Whether two rows were measured under the same conditions.
fn is_comparable(a: &LatencyRow, b: &LatencyRow) -> (same: bool)
    ensures
        same == comparable(*a, *b),
{
    a.cpu == b.cpu && a.capacity == b.capacity && a.rounds == b.rounds && a.settle_mode
        == b.settle_mode && a.settle_ns == b.settle_ns
}

/// Whether a list is a complete measurement of one implementation: both
/// operations, under the same conditions.
pub open spec fn is_pair(rows: Seq<LatencyRow>, list: Seq<usize>) -> bool {
    &&& list.len() == 2
    &&& comparable(nth(rows, list, 1), nth(rows, list, 0))
    &&& {
        let first = nth(rows, list, 0).operation@;
        let second = nth(rows, list, 1).operation@;
        ||| first == "recv_wake"@ && second == "send_wake"@
        ||| first == "send_wake"@ && second == "recv_wake"@
    }
}

/// Whether a list is a complete measurement of one implementation.
pub fn complete_implementation(rows: &[LatencyRow], list: &[usize]) -> (complete: bool)
    requires
        in_file(rows@, list@),
    ensures
        complete == is_pair(rows@, list@),
{
    if list.len() != 2 {
        return false;
    }
    let a = &rows[list[0]];
    let b = &rows[list[1]];
    let first = a.operation.as_str();
    let second = b.operation.as_str();
    proof {
        reveal_strlit("recv_wake");
        reveal_strlit("send_wake");
        assert("recv_wake"@[0] != "send_wake"@[0]);
    }
    is_comparable(b, a) && ((same_text(first, "recv_wake") && same_text(second, "send_wake")) || (
    same_text(first, "send_wake") && same_text(second, "recv_wake")))
}

/// Whether all characters are decimal digits.
pub open spec fn all_digits(s: Seq<char>) -> bool {
    forall|i: int| 0 <= i < s.len() ==> '0' <= #[trigger] s[i] <= '9'
}

/// The number that decimal digits stand for.
pub open spec fn digits_value(s: Seq<char>) -> nat
    decreases s.len(),
{
    if s.len() == 0 {
        0
    } else {
        digits_value(s.drop_last()) * 10 + (s.last() as nat - '0' as nat) as nat
    }
}

/// The number of a run: its name read as a decimal number, with or without a
/// plus sign, or zero where it is none or does not fit.
pub open spec fn run_number(id: Seq<char>) -> nat {
    let digits = if id.len() > 0 && id[0] == '+' {
        id.skip(1)
    } else {
        id
    };
    if digits.len() > 0 && all_digits(digits) && digits_value(digits) <= u128::MAX {
        digits_value(digits)
    } else {
        0
    }
}

/// More digits make no smaller number.
proof fn lemma_digits_grow(s: Seq<char>, k: int)
    requires
        0 <= k <= s.len(),
    ensures
        digits_value(s.take(k)) <= digits_value(s),
    decreases s.len(),
{
    if k < s.len() {
        assert(s.take(k) =~= s.drop_last().take(k));
        lemma_digits_grow(s.drop_last(), k);
    } else {
        assert(s.take(k) =~= s);
    }
}

/// Read the number of a run.
pub fn number_of_run(id: &str) -> (number: u128)
    ensures
        number == run_number(id@),
{
    let chars = chars_of(id);
    let start: usize = if chars.len() > 0 && chars[0] == '+' {
        1
    } else {
        0
    };
    let ghost digits = chars@.skip(start as int);
    assert(start == 0 ==> digits =~= chars@);
    if chars.len() == start {
        return 0;
    }
    let mut number: u128 = 0;
    let mut i: usize = start;
    assert(digits.take(0) =~= Seq::<char>::empty());
    while i < chars.len()
        invariant
            start <= i <= chars@.len(),
            digits == chars@.skip(start as int),
            digits.len() == chars@.len() - start,
            digits.len() > 0,
            number == digits_value(digits.take(i - start)),
            all_digits(digits.take(i - start)),
            run_number(id@) == (if all_digits(digits) && digits_value(digits) <= u128::MAX {
                digits_value(digits)
            } else {
                0
            }),
        decreases chars@.len() - i,
    {
        let c: char = chars[i];
        assert(digits[i - start] == c);
        if c < '0' || c > '9' {
            return 0;
        }
        let digit: u128 = (c as u32 - 48) as u128;
        proof {
            let now = digits.take(i - start + 1);
            assert(now.drop_last() =~= digits.take(i - start));
            assert(now.last() == c);
            assert(digits_value(now) == number * 10 + digit);
            lemma_digits_grow(digits, i - start + 1);
        }
        if number > (u128::MAX - digit) / 10 {
            assert(number * 10 + digit > u128::MAX);
            return 0;
        }
        number = number * 10 + digit;
        i += 1;
    }
    assert(digits.take(i - start) =~= digits);
    number
}

/// The runs among the first `n` rows, in order of appearance.
pub open spec fn runs(rows: Seq<LatencyRow>, n: int) -> Seq<Seq<char>>
    decreases n,
{
    if n <= 0 {
        Seq::empty()
    } else {
        let earlier = runs(rows, n - 1);
        if earlier.contains(rows[n - 1].run_id@) {
            earlier
        } else {
            earlier.push(rows[n - 1].run_id@)
        }
    }
}

/// How many runs at the front have a number up to `number`.
pub open spec fn older(ids: Seq<Seq<char>>, number: nat) -> int
    decreases ids.len(),
{
    if ids.len() == 0 || run_number(ids[0]) > number {
        0
    } else {
        1 + older(ids.skip(1), number)
    }
}

/// The runs by number; those with the same number keep their order.
pub open spec fn by_number(ids: Seq<Seq<char>>) -> Seq<Seq<char>>
    decreases ids.len(),
{
    if ids.len() == 0 {
        ids
    } else {
        let earlier = by_number(ids.drop_last());
        earlier.insert(older(earlier, run_number(ids.last())), ids.last())
    }
}

/// Where the older runs end.
pub proof fn lemma_older(ids: Seq<Seq<char>>, number: nat)
    ensures
        0 <= older(ids, number) <= ids.len(),
        forall|i: int| 0 <= i < older(ids, number) ==> run_number(#[trigger] ids[i]) <= number,
        older(ids, number) < ids.len() ==> run_number(ids[older(ids, number)]) > number,
    decreases ids.len(),
{
    if ids.len() > 0 && run_number(ids[0]) <= number {
        let rest = ids.skip(1);
        lemma_older(rest, number);
        assert forall|i: int| 0 <= i < older(ids, number) implies run_number(#[trigger] ids[i])
            <= number by {
            if i > 0 {
                assert(rest[i - 1] == ids[i]);
            }
        }
    }
}

/// The runs come in the order of their numbers, none lost and none added.
pub proof fn law_runs_are_sorted(ids: Seq<Seq<char>>)
    ensures
        forall|i: int, j: int|
            0 <= i < j < by_number(ids).len() ==> run_number(#[trigger] by_number(ids)[i])
                <= run_number(#[trigger] by_number(ids)[j]),
        by_number(ids).to_multiset() == ids.to_multiset(),
        by_number(ids).len() == ids.len(),
    decreases ids.len(),
{
    if ids.len() > 0 {
        let fewer = ids.drop_last();
        law_runs_are_sorted(fewer);
        let earlier = by_number(fewer);
        let id = ids.last();
        let p = older(earlier, run_number(id));
        let all = by_number(ids);
        lemma_older(earlier, run_number(id));
        assert forall|i: int, j: int| 0 <= i < j < all.len() implies run_number(#[trigger] all[i])
            <= run_number(#[trigger] all[j]) by {
            let a = if i < p {
                i
            } else {
                i - 1
            };
            let b = if j < p {
                j
            } else {
                j - 1
            };
            if i != p {
                assert(all[i] == earlier[a]);
            }
            if j != p {
                assert(all[j] == earlier[b]);
            }
            if i == p && p < earlier.len() && b > p {
                assert(run_number(earlier[p]) <= run_number(earlier[b]));
            }
        }
        assert(all.to_multiset() == ids.to_multiset()) by {
            vstd::seq_lib::to_multiset_insert(earlier, p, id);
            vstd::seq_lib::to_multiset_insert(fewer, fewer.len() as int, id);
            assert(fewer.insert(fewer.len() as int, id) =~= ids);
        }
    }
}

/// The first `n` rows of one implementation in one run.
pub open spec fn measured(
    rows: Seq<LatencyRow>,
    run: Seq<char>,
    key: Seq<char>,
    n: int,
) -> Seq<usize>
    decreases n,
{
    if n <= 0 {
        Seq::empty()
    } else {
        let earlier = measured(rows, run, key, n - 1);
        if rows[n - 1].run_id@ == run && rows[n - 1].implementation@ == key {
            earlier.push((n - 1) as usize)
        } else {
            earlier
        }
    }
}

/// The complete measurements of a run, in the order of the series.
pub open spec fn pairs_of_run(
    rows: Seq<LatencyRow>,
    run: Seq<char>,
    keys: Seq<Seq<char>>,
) -> Seq<Seq<usize>>
    decreases keys.len(),
{
    if keys.len() == 0 {
        Seq::empty()
    } else {
        let earlier = pairs_of_run(rows, run, keys.drop_last());
        let list = measured(rows, run, keys.last(), rows.len() as int);
        if is_pair(rows, list) {
            earlier.push(list)
        } else {
            earlier
        }
    }
}

/// The complete measurements of some runs.
pub open spec fn pairs(
    rows: Seq<LatencyRow>,
    ids: Seq<Seq<char>>,
    keys: Seq<Seq<char>>,
) -> Seq<Seq<usize>>
    decreases ids.len(),
{
    if ids.len() == 0 {
        Seq::empty()
    } else {
        pairs(rows, ids.drop_last(), keys) + pairs_of_run(rows, ids.last(), keys)
    }
}

/// Every complete measurement, oldest run first.
pub open spec fn all_pairs(rows: Seq<LatencyRow>, keys: Seq<Seq<char>>) -> Seq<Seq<usize>> {
    pairs(rows, by_number(runs(rows, rows.len() as int)), keys)
}

/// The newest measurement of an implementation that is comparable with
/// `reference`.
pub open spec fn newest(
    rows: Seq<LatencyRow>,
    all: Seq<Seq<usize>>,
    reference: Seq<usize>,
    key: Seq<char>,
) -> Option<Seq<usize>>
    decreases all.len(),
{
    if all.len() == 0 {
        None
    } else if nth(rows, all.last(), 0).implementation@ == key && comparable(
        nth(rows, all.last(), 0),
        nth(rows, reference, 0),
    ) {
        Some(all.last())
    } else {
        newest(rows, all.drop_last(), reference, key)
    }
}

/// The newest comparable measurements of all implementations, if there are any.
pub open spec fn gathered(
    rows: Seq<LatencyRow>,
    all: Seq<Seq<usize>>,
    reference: Seq<usize>,
    keys: Seq<Seq<char>>,
) -> Option<Seq<usize>>
    decreases keys.len(),
{
    if keys.len() == 0 {
        Some(Seq::empty())
    } else {
        match (
            gathered(rows, all, reference, keys.drop_last()),
            newest(rows, all, reference, keys.last()),
        ) {
            (Some(earlier), Some(list)) => Some(earlier + list),
            _ => None,
        }
    }
}

/// The newest of the first `n` measurements with which one of every
/// implementation is comparable decides.
pub open spec fn decided(
    rows: Seq<LatencyRow>,
    all: Seq<Seq<usize>>,
    keys: Seq<Seq<char>>,
    n: int,
) -> Option<Seq<usize>>
    decreases n,
{
    if n <= 0 {
        None
    } else {
        let found = gathered(rows, all, all[n - 1], keys);
        if found is Some {
            found
        } else {
            decided(rows, all, keys, n - 1)
        }
    }
}

/// The rows that a chart shows by default: of every implementation the newest
/// complete measurement, all comparable.
pub open spec fn combined(rows: Seq<LatencyRow>, keys: Seq<Seq<char>>) -> Option<Seq<usize>> {
    let all = all_pairs(rows, keys);
    decided(rows, all, keys, all.len() as int)
}

/// What a list of lists holds.
pub open spec fn lists(all: Seq<Vec<usize>>) -> Seq<Seq<usize>> {
    Seq::new(all.len(), |k: int| all[k]@)
}

/// Pick the rows of one implementation in one run.
fn rows_of(rows: &[LatencyRow], run: &str, key: &str) -> (list: Vec<usize>)
    ensures
        list@ == measured(rows@, run@, key@, rows@.len() as int),
        in_file(rows@, list@),
{
    let mut list: Vec<usize> = Vec::new();
    let mut i: usize = 0;
    while i < rows.len()
        invariant
            i <= rows@.len(),
            list@ == measured(rows@, run@, key@, i as int),
            in_file(rows@, list@),
        decreases rows@.len() - i,
    {
        if same_text(rows[i].run_id.as_str(), run) && same_text(
            rows[i].implementation.as_str(),
            key,
        ) {
            list.push(i);
        }
        i += 1;
    }
    list
}

/// The runs, by number.
fn runs_by_number(rows: &[LatencyRow]) -> (ids: Vec<String>)
    ensures
        texts(ids@) == by_number(runs(rows@, rows@.len() as int)),
{
    let mut ids: Vec<String> = Vec::new();
    let mut i: usize = 0;
    assert(texts(ids@) =~= Seq::<Seq<char>>::empty());
    while i < rows.len()
        invariant
            i <= rows@.len(),
            texts(ids@) == by_number(runs(rows@, i as int)),
        decreases rows@.len() - i,
    {
        let ghost known = runs(rows@, i as int);
        let run = rows[i].run_id.as_str();
        let mut seen: bool = false;
        let mut k: usize = 0;
        while k < ids.len()
            invariant
                k <= ids@.len(),
                seen == exists|j: int| 0 <= j < k && #[trigger] texts(ids@)[j] == run@,
            decreases ids@.len() - k,
        {
            if same_text(ids[k].as_str(), run) {
                assert(texts(ids@)[k as int] == run@);
                seen = true;
            }
            k += 1;
        }
        proof {
            law_runs_are_sorted(known);
            assert(seen == known.contains(run@)) by {
                lemma_same_members(texts(ids@), known, run@);
            }
        }
        if !seen {
            let ghost all = texts(ids@);
            let number: u128 = number_of_run(run);
            let mut p: usize = 0;
            assert(all.skip(0) =~= all);
            while p < ids.len() && number_of_run(ids[p].as_str()) <= number
                invariant
                    p <= ids@.len(),
                    all == texts(ids@),
                    number == run_number(run@),
                    p + older(all.skip(p as int), number as nat) == older(all, number as nat),
                decreases ids@.len() - p,
            {
                assert(all.skip(p as int).skip(1) =~= all.skip(p + 1));
                p += 1;
            }
            assert(older(all.skip(p as int), number as nat) == 0) by {
                if p < all.len() {
                    assert(all.skip(p as int)[0] == all[p as int]);
                }
            }
            ids.insert(p, run.to_owned());
            proof {
                assert(texts(ids@) =~= all.insert(p as int, run@));
                assert(known.push(run@).drop_last() =~= known);
            }
        }
        i += 1;
    }
    ids
}

/// Lists with the same members.
proof fn lemma_same_members(a: Seq<Seq<char>>, b: Seq<Seq<char>>, x: Seq<char>)
    requires
        a.to_multiset() == b.to_multiset(),
    ensures
        a.contains(x) == b.contains(x),
{
    broadcast use vstd::seq_lib::group_to_multiset_ensures;

    assert(a.contains(x) <==> a.to_multiset().count(x) > 0);
    assert(b.contains(x) <==> b.to_multiset().count(x) > 0);
}

/// Collect every complete measurement.
fn collect_pairs(rows: &[LatencyRow], series: &[Series]) -> (all: Vec<Vec<usize>>)
    ensures
        lists(all@) == all_pairs(rows@, keys_of(series@)),
        forall|k: int|
            0 <= k < all@.len() ==> in_file(rows@, (#[trigger] all@[k])@) && all@[k]@.len() == 2,
{
    let ids = runs_by_number(rows);
    let ghost runs = texts(ids@);
    let ghost keys = keys_of(series@);
    let mut all: Vec<Vec<usize>> = Vec::new();
    let mut i: usize = 0;
    assert(runs.take(0) =~= Seq::<Seq<char>>::empty());
    assert(lists(all@) =~= Seq::<Seq<usize>>::empty());
    while i < ids.len()
        invariant
            i <= ids@.len(),
            runs == texts(ids@),
            keys == keys_of(series@),
            lists(all@) == pairs(rows@, runs.take(i as int), keys),
            forall|k: int|
                0 <= k < all@.len() ==> in_file(rows@, (#[trigger] all@[k])@) && all@[k]@.len()
                    == 2,
        decreases ids@.len() - i,
    {
        let ghost earlier = lists(all@);
        proof {
            let now = runs.take(i + 1);
            assert(now.drop_last() =~= runs.take(i as int));
            assert(now.last() == ids@[i as int]@);
            assert(keys.take(0) =~= Seq::<Seq<char>>::empty());
            assert(earlier + Seq::<Seq<usize>>::empty() =~= earlier);
        }
        let mut k: usize = 0;
        while k < series.len()
            invariant
                i < ids@.len(),
                k <= series@.len(),
                keys == keys_of(series@),
                lists(all@) == earlier + pairs_of_run(rows@, ids@[i as int]@, keys.take(k as int)),
                forall|k: int|
                    0 <= k < all@.len() ==> in_file(rows@, (#[trigger] all@[k])@) && all@[k]@.len()
                        == 2,
            decreases series@.len() - k,
        {
            proof {
                let now = keys.take(k + 1);
                assert(now.drop_last() =~= keys.take(k as int));
                assert(now.last() == series@[k as int].key@);
            }
            let list = rows_of(rows, ids[i].as_str(), series[k].key.as_str());
            if complete_implementation(rows, list.as_slice()) {
                let ghost before = all@;
                let ghost added = list@;
                all.push(list);
                assert(lists(all@) =~= lists(before).push(added));
            }
            k += 1;
        }
        assert(keys.take(k as int) =~= keys);
        i += 1;
    }
    assert(runs.take(i as int) =~= runs);
    all
}

/// Find the newest measurement of an implementation that is comparable with the
/// one at place `reference`.
fn find_newest(rows: &[LatencyRow], all: &[Vec<usize>], reference: usize, key: &str) -> (found:
    Option<usize>)
    requires
        reference < all@.len(),
        forall|k: int|
            0 <= k < all@.len() ==> in_file(rows@, (#[trigger] all@[k])@) && all@[k]@.len() == 2,
    ensures
        match found {
            Some(k) => k < all@.len() && newest(
                rows@,
                lists(all@),
                all@[reference as int]@,
                key@,
            ) == Some(all@[k as int]@),
            None => newest(rows@, lists(all@), all@[reference as int]@, key@) is None,
        },
{
    let ghost whole = lists(all@);
    let ghost other = all@[reference as int]@;
    let mut k: usize = all.len();
    assert(whole.take(k as int) =~= whole);
    while k > 0
        invariant
            k <= all@.len(),
            reference < all@.len(),
            whole == lists(all@),
            other == all@[reference as int]@,
            forall|k: int|
                0 <= k < all@.len() ==> in_file(rows@, (#[trigger] all@[k])@) && all@[k]@.len()
                    == 2,
            newest(rows@, whole.take(k as int), other, key@) == newest(rows@, whole, other, key@),
        decreases k,
    {
        k -= 1;
        proof {
            let now = whole.take(k + 1);
            assert(now.drop_last() =~= whole.take(k as int));
            assert(now.last() == all@[k as int]@);
            assert(in_file(rows@, all@[k as int]@));
            assert(in_file(rows@, all@[reference as int]@));
        }
        let row = &rows[all[k][0]];
        if same_text(row.implementation.as_str(), key) && is_comparable(
            row,
            &rows[all[reference][0]],
        ) {
            return Some(k);
        }
    }
    assert(whole.take(0) =~= Seq::<Seq<usize>>::empty());
    None
}

/// Gather the newest measurements that are comparable with the one at place
/// `reference`.
fn gather(rows: &[LatencyRow], all: &[Vec<usize>], reference: usize, series: &[Series]) -> (list:
    Option<Vec<usize>>)
    requires
        reference < all@.len(),
        forall|k: int|
            0 <= k < all@.len() ==> in_file(rows@, (#[trigger] all@[k])@) && all@[k]@.len() == 2,
    ensures
        match list {
            Some(list) => gathered(
                rows@,
                lists(all@),
                all@[reference as int]@,
                keys_of(series@),
            ) == Some(list@),
            None => gathered(
                rows@,
                lists(all@),
                all@[reference as int]@,
                keys_of(series@),
            ) is None,
        },
{
    let ghost whole = lists(all@);
    let ghost other = all@[reference as int]@;
    let ghost keys = keys_of(series@);
    let mut list: Vec<usize> = Vec::new();
    let mut k: usize = 0;
    assert(keys.take(0) =~= Seq::<Seq<char>>::empty());
    while k < series.len()
        invariant
            k <= series@.len(),
            reference < all@.len(),
            whole == lists(all@),
            other == all@[reference as int]@,
            keys == keys_of(series@),
            forall|k: int|
                0 <= k < all@.len() ==> in_file(rows@, (#[trigger] all@[k])@) && all@[k]@.len()
                    == 2,
            gathered(rows@, whole, other, keys.take(k as int)) == Some(list@),
        decreases series@.len() - k,
    {
        proof {
            let now = keys.take(k + 1);
            assert(now.drop_last() =~= keys.take(k as int));
            assert(now.last() == series@[k as int].key@);
        }
        match find_newest(rows, all, reference, series[k].key.as_str()) {
            Some(place) => {
                let ghost earlier = list@;
                let mut more = all[place].clone();
                list.append(&mut more);
                assert(list@ =~= earlier + all@[place as int]@);
            },
            None => {
                proof {
                    lemma_none_gathered(rows@, whole, other, keys, k + 1);
                }
                return None;
            },
        }
        k += 1;
    }
    assert(keys.take(k as int) =~= keys);
    Some(list)
}

/// One missing implementation leaves nothing to show.
proof fn lemma_none_gathered(
    rows: Seq<LatencyRow>,
    all: Seq<Seq<usize>>,
    reference: Seq<usize>,
    keys: Seq<Seq<char>>,
    k: int,
)
    requires
        0 <= k <= keys.len(),
        gathered(rows, all, reference, keys.take(k)) is None,
    ensures
        gathered(rows, all, reference, keys) is None,
    decreases keys.len() - k,
{
    if k < keys.len() {
        assert(keys.take(k + 1).drop_last() =~= keys.take(k));
        lemma_none_gathered(rows, all, reference, keys, k + 1);
    } else {
        assert(keys.take(k) =~= keys);
    }
}

/// Combine the newest comparable measurements of all implementations.
pub fn combine_latest_runs(rows: &[LatencyRow], series: &[Series]) -> (list: Option<Vec<usize>>)
    ensures
        match list {
            Some(list) => combined(rows@, keys_of(series@)) == Some(list@),
            None => combined(rows@, keys_of(series@)) is None,
        },
{
    let all = collect_pairs(rows, series);
    let ghost keys = keys_of(series@);
    let ghost whole = lists(all@);
    let mut k: usize = all.len();
    while k > 0
        invariant
            k <= all@.len(),
            keys == keys_of(series@),
            whole == lists(all@),
            forall|k: int|
                0 <= k < all@.len() ==> in_file(rows@, (#[trigger] all@[k])@) && all@[k]@.len()
                    == 2,
            decided(rows@, whole, keys, k as int) == decided(
                rows@,
                whole,
                keys,
                whole.len() as int,
            ),
            combined(rows@, keys) == decided(rows@, whole, keys, whole.len() as int),
        decreases k,
    {
        k -= 1;
        let list = gather(rows, all.as_slice(), k, series);
        if list.is_some() {
            return list;
        }
    }
    None
}

/// Whether an implementation is among the series.
fn is_drawn(series: &[Series], implementation: &str) -> (drawn: bool)
    ensures
        drawn == keys_of(series@).contains(implementation@),
{
    let mut k: usize = 0;
    while k < series.len()
        invariant
            k <= series@.len(),
            forall|i: int| 0 <= i < k ==> #[trigger] keys_of(series@)[i] != implementation@,
        decreases series@.len() - k,
    {
        if same_text(series[k].key.as_str(), implementation) {
            assert(keys_of(series@)[k as int] == implementation@);
            return true;
        }
        k += 1;
    }
    false
}

/// The rows of a list whose implementation is among `keys`.
pub open spec fn drawn(
    rows: Seq<LatencyRow>,
    list: Seq<usize>,
    keys: Seq<Seq<char>>,
) -> Seq<usize>
    decreases list.len(),
{
    if list.len() == 0 {
        list
    } else {
        let earlier = drawn(rows, list.drop_last(), keys);
        if keys.contains(nth(rows, list, list.len() - 1).implementation@) {
            earlier.push(list.last())
        } else {
            earlier
        }
    }
}

/// Whether a row measures `operation` of implementation `key`.
pub open spec fn measures(row: LatencyRow, key: Seq<char>, operation: Seq<char>) -> bool {
    row.implementation@ == key && row.operation@ == operation
}

/// Whether a list has a row for `operation` of implementation `key`.
pub open spec fn has_measure(
    rows: Seq<LatencyRow>,
    list: Seq<usize>,
    key: Seq<char>,
    operation: Seq<char>,
) -> bool {
    exists|k: int|
        0 <= k < list.len() && measures(#[trigger] nth(rows, list, k), key, operation)
}

/// Whether the rows can be drawn together: comparable, each operation of each
/// implementation once, and no other operation.
pub open spec fn drawable(
    rows: Seq<LatencyRow>,
    list: Seq<usize>,
    keys: Seq<Seq<char>>,
) -> bool {
    &&& list.len() > 0
    &&& forall|k: int|
        0 <= k < list.len() ==> comparable(#[trigger] nth(rows, list, k), nth(rows, list, 0)) && (
        nth(rows, list, k).operation@ == "recv_wake"@ || nth(rows, list, k).operation@
            == "send_wake"@)
    &&& forall|i: int, j: int|
        0 <= i < j < list.len() ==> !measures(
            #[trigger] nth(rows, list, i),
            (#[trigger] nth(rows, list, j)).implementation@,
            nth(rows, list, j).operation@,
        )
    &&& forall|k: int|
        0 <= k < keys.len() ==> has_measure(rows, list, #[trigger] keys[k], "recv_wake"@)
            && has_measure(rows, list, keys[k], "send_wake"@)
}

/// Whether `out` lists the rows of `list` by implementation and operation: two
/// rows for each name in ascending order, the receiver's first.
pub open spec fn arranged(
    rows: Seq<LatencyRow>,
    list: Seq<usize>,
    names: Seq<Seq<char>>,
    out: Seq<usize>,
) -> bool {
    &&& out.len() == 2 * names.len()
    &&& forall|k: int|
        0 <= k < out.len() ==> list.contains(#[trigger] out[k]) && measures(
            nth(rows, out, k),
            names[k / 2],
            if k % 2 == 0 {
                "recv_wake"@
            } else {
                "send_wake"@
            },
        )
}

/// The drawn rows are rows of the list.
proof fn lemma_drawn(rows: Seq<LatencyRow>, list: Seq<usize>, keys: Seq<Seq<char>>)
    requires
        in_file(rows, list),
    ensures
        in_file(rows, drawn(rows, list, keys)),
    decreases list.len(),
{
    if list.len() > 0 {
        let fewer = list.drop_last();
        assert forall|k: int| 0 <= k < fewer.len() implies (#[trigger] fewer[k]) < rows.len() by {
            assert(fewer[k] == list[k]);
        }
        lemma_drawn(rows, fewer, keys);
        let earlier = drawn(rows, fewer, keys);
        let all = drawn(rows, list, keys);
        assert(list[list.len() - 1] < rows.len());
        assert forall|k: int| 0 <= k < all.len() implies (#[trigger] all[k]) < rows.len() by {
            if k < earlier.len() {
                assert(all[k] == earlier[k]);
            }
        }
    }
}

/// Pick the rows of a list whose implementation is among the series.
fn drawn_rows(rows: &[LatencyRow], list: &[usize], series: &[Series]) -> (chosen: Vec<usize>)
    requires
        in_file(rows@, list@),
    ensures
        chosen@ == drawn(rows@, list@, keys_of(series@)),
        in_file(rows@, chosen@),
{
    let mut chosen: Vec<usize> = Vec::new();
    let mut k: usize = 0;
    assert(list@.take(0) =~= Seq::<usize>::empty());
    while k < list.len()
        invariant
            in_file(rows@, list@),
            k <= list@.len(),
            chosen@ == drawn(rows@, list@.take(k as int), keys_of(series@)),
        decreases list@.len() - k,
    {
        proof {
            let now = list@.take(k + 1);
            assert(now.drop_last() =~= list@.take(k as int));
            assert(now.last() == list@[k as int]);
        }
        if is_drawn(series, rows[list[k]].implementation.as_str()) {
            chosen.push(list[k]);
        }
        k += 1;
    }
    assert(list@.take(k as int) =~= list@);
    proof {
        lemma_drawn(rows@, list@, keys_of(series@));
    }
    chosen
}

/// Find a row for `operation` of implementation `key`.
fn find_measure(rows: &[LatencyRow], list: &[usize], key: &str, operation: &str) -> (found: Option<
    usize,
>)
    requires
        in_file(rows@, list@),
    ensures
        match found {
            Some(row) => row < rows@.len() && list@.contains(row) && measures(
                rows@[row as int],
                key@,
                operation@,
            ) && has_measure(rows@, list@, key@, operation@),
            None => !has_measure(rows@, list@, key@, operation@),
        },
{
    let mut k: usize = 0;
    while k < list.len()
        invariant
            in_file(rows@, list@),
            k <= list@.len(),
            forall|i: int|
                0 <= i < k ==> !measures(#[trigger] nth(rows@, list@, i), key@, operation@),
        decreases list@.len() - k,
    {
        let row = &rows[list[k]];
        if same_text(row.implementation.as_str(), key) && same_text(
            row.operation.as_str(),
            operation,
        ) {
            assert(measures(nth(rows@, list@, k as int), key@, operation@));
            assert(list@[k as int] == list@[k as int]);
            return Some(list[k]);
        }
        k += 1;
    }
    None
}

/// Whether some operation of some implementation was measured twice.
fn has_repetition(rows: &[LatencyRow], list: &[usize]) -> (repeated: bool)
    requires
        in_file(rows@, list@),
    ensures
        repeated == exists|i: int, j: int|
            0 <= i < j < list@.len() && measures(
                #[trigger] nth(rows@, list@, i),
                (#[trigger] nth(rows@, list@, j)).implementation@,
                nth(rows@, list@, j).operation@,
            ),
{
    let mut j: usize = 0;
    while j < list.len()
        invariant
            in_file(rows@, list@),
            j <= list@.len(),
            forall|a: int, b: int|
                0 <= a < b < j ==> !measures(
                    #[trigger] nth(rows@, list@, a),
                    (#[trigger] nth(rows@, list@, b)).implementation@,
                    nth(rows@, list@, b).operation@,
                ),
        decreases list@.len() - j,
    {
        let mut i: usize = 0;
        while i < j
            invariant
                in_file(rows@, list@),
                i <= j < list@.len(),
                forall|a: int|
                    0 <= a < i ==> !measures(
                        #[trigger] nth(rows@, list@, a),
                        nth(rows@, list@, j as int).implementation@,
                        nth(rows@, list@, j as int).operation@,
                    ),
            decreases j - i,
        {
            let a = &rows[list[i]];
            let b = &rows[list[j]];
            if a.implementation == b.implementation && a.operation == b.operation {
                assert(measures(
                    nth(rows@, list@, i as int),
                    nth(rows@, list@, j as int).implementation@,
                    nth(rows@, list@, j as int).operation@,
                ));
                return true;
            }
            i += 1;
        }
        j += 1;
    }
    false
}

/// Whether all rows are comparable and measure a known operation.
fn is_consistent(rows: &[LatencyRow], list: &[usize]) -> (consistent: bool)
    requires
        in_file(rows@, list@),
        list@.len() > 0,
    ensures
        consistent == forall|k: int|
            0 <= k < list@.len() ==> comparable(
                #[trigger] nth(rows@, list@, k),
                nth(rows@, list@, 0),
            ) && (nth(rows@, list@, k).operation@ == "recv_wake"@ || nth(
                rows@,
                list@,
                k,
            ).operation@ == "send_wake"@),
{
    let mut k: usize = 0;
    while k < list.len()
        invariant
            in_file(rows@, list@),
            0 < list@.len(),
            k <= list@.len(),
            forall|i: int|
                0 <= i < k ==> comparable(#[trigger] nth(rows@, list@, i), nth(rows@, list@, 0)) && (
                nth(rows@, list@, i).operation@ == "recv_wake"@ || nth(rows@, list@, i).operation@
                    == "send_wake"@),
        decreases list@.len() - k,
    {
        let row = &rows[list[k]];
        let operation = row.operation.as_str();
        if !is_comparable(row, &rows[list[0]]) || !(same_text(operation, "recv_wake") || same_text(
            operation,
            "send_wake",
        )) {
            assert(*row == nth(rows@, list@, k as int));
            return false;
        }
        k += 1;
    }
    true
}

/// Arrange the rows of one run, if they are complete.
pub fn complete_rows(rows: &[LatencyRow], list: &[usize], series: &[Series]) -> (out: Option<
    Vec<usize>,
>)
    requires
        in_file(rows@, list@),
    ensures
        ({
            let keys = keys_of(series@);
            let chosen = drawn(rows@, list@, keys);
            match out {
                Some(out) => drawable(rows@, chosen, keys) && arranged(
                    rows@,
                    chosen,
                    sorted_names(keys),
                    out@,
                ),
                None => !drawable(rows@, chosen, keys),
            }
        }),
{
    let ghost keys = keys_of(series@);
    let chosen = drawn_rows(rows, list, series);
    if chosen.len() == 0 || !is_consistent(rows, chosen.as_slice()) || has_repetition(
        rows,
        chosen.as_slice(),
    ) {
        return None;
    }
    let mut names: Vec<String> = Vec::new();
    let mut k: usize = 0;
    assert(keys.take(0) =~= Seq::<Seq<char>>::empty());
    assert(texts(names@) =~= Seq::<Seq<char>>::empty());
    while k < series.len()
        invariant
            k <= series@.len(),
            keys == keys_of(series@),
            texts(names@) == sorted_names(keys.take(k as int)),
        decreases series@.len() - k,
    {
        proof {
            let now = keys.take(k + 1);
            assert(now.drop_last() =~= keys.take(k as int));
            assert(now.last() == series@[k as int].key@);
        }
        add_name(&mut names, series[k].key.as_str());
        k += 1;
    }
    assert(keys.take(k as int) =~= keys);
    let ghost known = texts(names@);
    let mut out: Vec<usize> = Vec::new();
    let mut k: usize = 0;
    while k < names.len()
        invariant
            k <= names@.len(),
            known == texts(names@),
            in_file(rows@, chosen@),
            arranged(rows@, chosen@, known.take(k as int), out@),
            forall|i: int|
                0 <= i < k ==> has_measure(rows@, chosen@, #[trigger] known[i], "recv_wake"@)
                    && has_measure(rows@, chosen@, known[i], "send_wake"@),
            known == sorted_names(keys),
            chosen@ == drawn(rows@, list@, keys),
            keys == keys_of(series@),
        decreases names@.len() - k,
    {
        let recv = find_measure(rows, chosen.as_slice(), names[k].as_str(), "recv_wake");
        let send = find_measure(rows, chosen.as_slice(), names[k].as_str(), "send_wake");
        match (recv, send) {
            (Some(recv), Some(send)) => {
                let ghost earlier = out@;
                out.push(recv);
                out.push(send);
                proof {
                    let now = known.take(k + 1);
                    assert forall|m: int| 0 <= m < out@.len() implies chosen@.contains(
                        #[trigger] out@[m],
                    ) && measures(
                        nth(rows@, out@, m),
                        now[m / 2],
                        if m % 2 == 0 {
                            "recv_wake"@
                        } else {
                            "send_wake"@
                        },
                    ) by {
                        if m < earlier.len() {
                            assert(out@[m] == earlier[m]);
                            assert(now[m / 2] == known.take(k as int)[m / 2]);
                        }
                    }
                }
            },
            _ => {
                proof {
                    lemma_sorted_names(keys);
                    assert(known.contains(known[k as int]));
                    assert(keys.contains(known[k as int]));
                    let i = choose|i: int| 0 <= i < keys.len() && keys[i] == known[k as int];
                    assert(keys[i] == known[k as int]);
                }
                return None;
            },
        }
        k += 1;
    }
    proof {
        assert(known.take(k as int) =~= known);
        lemma_sorted_names(keys);
        assert forall|i: int| 0 <= i < keys.len() implies has_measure(
            rows@,
            chosen@,
            #[trigger] keys[i],
            "recv_wake"@,
        ) && has_measure(rows@, chosen@, keys[i], "send_wake"@) by {
            assert(keys.contains(keys[i]));
            assert(known.contains(keys[i]));
            let m = choose|m: int| 0 <= m < known.len() && known[m] == keys[i];
            assert(known[m] == keys[i]);
        }
    }
    Some(out)
}

/// The rows of a run.
pub open spec fn run_rows(rows: Seq<LatencyRow>, run: Seq<char>, n: int) -> Seq<usize>
    decreases n,
{
    if n <= 0 {
        Seq::empty()
    } else {
        let earlier = run_rows(rows, run, n - 1);
        if rows[n - 1].run_id@ == run {
            earlier.push((n - 1) as usize)
        } else {
            earlier
        }
    }
}

/// Select the rows that a chart shows: those of the requested run, which must be
/// complete, or the newest comparable ones.
pub fn select_run(rows: &[LatencyRow], series: &[Series], requested_run: Option<String>) -> (
    selected: Result<Vec<usize>, ChartError>)
    ensures
        match requested_run {
            None => match combined(rows@, keys_of(series@)) {
                Some(list) => selected is Ok && selected->Ok_0@ == list,
                None => selected == Err::<Vec<usize>, ChartError>(ChartError::NoCompleteRun),
            },
            Some(run) => {
                let keys = keys_of(series@);
                let list = run_rows(rows@, run@, rows@.len() as int);
                let chosen = drawn(rows@, list, keys);
                if list.len() == 0 {
                    selected == Err::<Vec<usize>, ChartError>(ChartError::RunNotFound(run))
                } else if !drawable(rows@, chosen, keys) {
                    selected == Err::<Vec<usize>, ChartError>(ChartError::RunIncomplete(run))
                } else {
                    selected is Ok && arranged(
                        rows@,
                        chosen,
                        sorted_names(keys),
                        selected->Ok_0@,
                    )
                }
            },
        },
{
    match requested_run {
        None => match combine_latest_runs(rows, series) {
            Some(list) => Ok(list),
            None => Err(ChartError::NoCompleteRun),
        },
        Some(run) => {
            let mut list: Vec<usize> = Vec::new();
            let mut i: usize = 0;
            while i < rows.len()
                invariant
                    i <= rows@.len(),
                    list@ == run_rows(rows@, run@, i as int),
                    in_file(rows@, list@),
                decreases rows@.len() - i,
            {
                if rows[i].run_id == run {
                    list.push(i);
                }
                i += 1;
            }
            if list.len() == 0 {
                return Err(ChartError::RunNotFound(run));
            }
            match complete_rows(rows, list.as_slice(), series) {
                Some(out) => Ok(out),
                None => Err(ChartError::RunIncomplete(run)),
            }
        },
    }
}

/// Every complete measurement is a pair.
proof fn lemma_pairs(rows: Seq<LatencyRow>, ids: Seq<Seq<char>>, keys: Seq<Seq<char>>)
    ensures
        forall|k: int|
            0 <= k < pairs(rows, ids, keys).len() ==> is_pair(rows, #[trigger] pairs(rows, ids, keys)[k]),
    decreases ids.len(),
{
    if ids.len() > 0 {
        let earlier = pairs(rows, ids.drop_last(), keys);
        let more = pairs_of_run(rows, ids.last(), keys);
        let all = pairs(rows, ids, keys);
        lemma_pairs(rows, ids.drop_last(), keys);
        lemma_pairs_of_run(rows, ids.last(), keys);
        assert forall|k: int| 0 <= k < all.len() implies is_pair(rows, #[trigger] all[k]) by {
            if k < earlier.len() {
                assert(all[k] == earlier[k]);
            } else {
                assert(all[k] == more[k - earlier.len()]);
            }
        }
    }
}

proof fn lemma_pairs_of_run(rows: Seq<LatencyRow>, run: Seq<char>, keys: Seq<Seq<char>>)
    ensures
        forall|k: int|
            0 <= k < pairs_of_run(rows, run, keys).len() ==> is_pair(
                rows,
                #[trigger] pairs_of_run(rows, run, keys)[k],
            ),
    decreases keys.len(),
{
    if keys.len() > 0 {
        let earlier = pairs_of_run(rows, run, keys.drop_last());
        let all = pairs_of_run(rows, run, keys);
        lemma_pairs_of_run(rows, run, keys.drop_last());
        assert forall|k: int| 0 <= k < all.len() implies is_pair(rows, #[trigger] all[k]) by {
            if k < earlier.len() {
                assert(all[k] == earlier[k]);
            }
        }
    }
}

/// The newest comparable measurement is one of the measurements.
proof fn lemma_newest(
    rows: Seq<LatencyRow>,
    all: Seq<Seq<usize>>,
    reference: Seq<usize>,
    key: Seq<char>,
)
    requires
        forall|k: int| 0 <= k < all.len() ==> is_pair(rows, #[trigger] all[k]),
    ensures
        newest(rows, all, reference, key) matches Some(list) ==> is_pair(rows, list) && comparable(
            nth(rows, list, 0),
            nth(rows, reference, 0),
        ),
    decreases all.len(),
{
    if all.len() > 0 {
        let fewer = all.drop_last();
        assert forall|k: int| 0 <= k < fewer.len() implies is_pair(rows, #[trigger] fewer[k]) by {
            assert(fewer[k] == all[k]);
        }
        lemma_newest(rows, fewer, reference, key);
        assert(is_pair(rows, all[all.len() - 1]));
    }
}

proof fn lemma_gathered(
    rows: Seq<LatencyRow>,
    all: Seq<Seq<usize>>,
    reference: Seq<usize>,
    keys: Seq<Seq<char>>,
)
    requires
        forall|k: int| 0 <= k < all.len() ==> is_pair(rows, #[trigger] all[k]),
    ensures
        gathered(rows, all, reference, keys) matches Some(list) ==> list.len() == 2 * keys.len()
            && forall|k: int|
            0 <= k < list.len() ==> comparable(#[trigger] nth(rows, list, k), nth(rows, reference, 0)),
    decreases keys.len(),
{
    if keys.len() > 0 {
        let fewer = keys.drop_last();
        lemma_gathered(rows, all, reference, fewer);
        lemma_newest(rows, all, reference, keys.last());
        if gathered(rows, all, reference, keys) is Some {
            let earlier = gathered(rows, all, reference, fewer)->Some_0;
            let more = newest(rows, all, reference, keys.last())->Some_0;
            let list = gathered(rows, all, reference, keys)->Some_0;
            assert forall|k: int| 0 <= k < list.len() implies comparable(
                #[trigger] nth(rows, list, k),
                nth(rows, reference, 0),
            ) by {
                if k < earlier.len() {
                    assert(nth(rows, list, k) == nth(rows, earlier, k));
                } else {
                    assert(nth(rows, list, k) == nth(rows, more, k - earlier.len()));
                }
            }
        }
    }
}

proof fn lemma_decided(
    rows: Seq<LatencyRow>,
    all: Seq<Seq<usize>>,
    keys: Seq<Seq<char>>,
    n: int,
)
    requires
        n <= all.len(),
        forall|k: int| 0 <= k < all.len() ==> is_pair(rows, #[trigger] all[k]),
    ensures
        decided(rows, all, keys, n) matches Some(list) ==> list.len() == 2 * keys.len() && forall|
            i: int,
            j: int,
        |
            0 <= i < list.len() && 0 <= j < list.len() ==> comparable(
                #[trigger] nth(rows, list, i),
                #[trigger] nth(rows, list, j),
            ),
    decreases n,
{
    if n > 0 {
        lemma_gathered(rows, all, all[n - 1], keys);
        lemma_decided(rows, all, keys, n - 1);
    }
}

/// A default chart shows two rows of every implementation, all measured under the
/// same conditions.
pub proof fn law_default_chart_is_comparable(
    rows: Seq<LatencyRow>,
    keys: Seq<Seq<char>>,
    i: int,
    j: int,
)
    requires
        combined(rows, keys) is Some,
        0 <= i < combined(rows, keys)->Some_0.len(),
        0 <= j < combined(rows, keys)->Some_0.len(),
    ensures
        combined(rows, keys)->Some_0.len() == 2 * keys.len(),
        comparable(
            nth(rows, combined(rows, keys)->Some_0, i),
            nth(rows, combined(rows, keys)->Some_0, j),
        ),
{
    lemma_pairs(rows, by_number(runs(rows, rows.len() as int)), keys);
    let all = all_pairs(rows, keys);
    lemma_decided(rows, all, keys, all.len() as int);
}

/// The last row of a list that measures `operation` of implementation `key`.
pub open spec fn last_measure(
    rows: Seq<LatencyRow>,
    list: Seq<usize>,
    key: Seq<char>,
    operation: Seq<char>,
) -> Option<usize>
    decreases list.len(),
{
    if list.len() == 0 {
        None
    } else if measures(nth(rows, list, list.len() - 1), key, operation) {
        Some(list.last())
    } else {
        last_measure(rows, list.drop_last(), key, operation)
    }
}

/// Find the row behind a bar.
pub fn bar_row(rows: &[LatencyRow], list: &[usize], series: &Series, metric: Metric) -> (row: Option<
    usize,
>)
    requires
        in_file(rows@, list@),
    ensures
        row == last_measure(rows@, list@, series.key@, metric.operation_name()),
        row matches Some(row) ==> row < rows@.len(),
{
    let operation = metric.operation();
    let mut k: usize = list.len();
    assert(list@.take(k as int) =~= list@);
    while k > 0
        invariant
            in_file(rows@, list@),
            k <= list@.len(),
            operation@ == metric.operation_name(),
            last_measure(rows@, list@.take(k as int), series.key@, operation@) == last_measure(
                rows@,
                list@,
                series.key@,
                operation@,
            ),
        decreases k,
    {
        k -= 1;
        proof {
            let now = list@.take(k + 1);
            assert(now.drop_last() =~= list@.take(k as int));
            assert(now.last() == list@[k as int]);
        }
        let row = &rows[list[k]];
        if same_text(row.implementation.as_str(), series.key.as_str()) && same_text(
            row.operation.as_str(),
            operation.as_str(),
        ) {
            return Some(list[k]);
        }
    }
    assert(list@.take(0) =~= Seq::<usize>::empty());
    None
}

/// The title of a latency chart.
pub fn latency_title(topology: &str) -> (title: String)
    requires
        series_keys(topology@) is Some,
    ensures
        title@ == (if topology@ == "mpsc"@ {
            "MPSC"@
        } else {
            "MPMC"@
        }) + " blocking wake latency (lower is better)"@,
{
    let mut title = if same_text(topology, "mpsc") {
        "MPSC".to_owned()
    } else {
        "MPMC".to_owned()
    };
    title.append(" blocking wake latency (lower is better)");
    title
}

/// The line under the title: hardware and conditions, with the time for which the
/// sleeper was left alone already written out.
pub fn latency_subtitle(hardware: &str, row: &LatencyRow, settle: &str) -> (line: String)
    ensures
        line@ == hardware@ + "; capacity "@ + decimal(row.capacity as nat) + "; "@ + decimal(
            row.rounds as nat,
        ) + " rounds; "@ + settle@ + " "@ + row.settle_mode@ + " settle"@,
{
    let mut line = hardware.to_owned();
    line.append("; capacity ");
    append_decimal(&mut line, row.capacity as u64);
    line.append("; ");
    append_decimal(&mut line, row.rounds as u64);
    line.append(" rounds; ");
    line.append(settle);
    line.append(" ");
    line.append(row.settle_mode.as_str());
    line.append(" settle");
    line
}

} // verus!
