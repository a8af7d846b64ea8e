//! What the parts of a chart stand for, in plain terms.
use vstd::prelude::*;

use super::combination::ChartError;
use super::names::sorted_names;
use super::page::{
    cell_frame, cell_samples, chart_height, consumer_counts, is_mpmc, payload_order, payload_rows,
    producer_counts, samples_of, section_top, with_payload, Frame, Payload,
};
use super::rows::Row;
use super::selection::{at, implementations};
use super::series::{known_among, known_keys, present_series, unknown_among, Series};
use super::summary::{
    bar, plan_summary, summary_capacity, summary_values, Summary, SummarySeries,
};

verus! {

/// Whether two rows were measured with the same pinning and occupancy.
pub open spec fn run_alike(a: Row, b: Row) -> bool {
    &&& a.affinity@ == b.affinity@
    &&& a.throughput_profile@ == b.throughput_profile@
    &&& a.low_watermark == b.low_watermark
    &&& a.high_watermark == b.high_watermark
}

/// Whether a row was measured with eight-byte numbers and four producers.
pub open spec fn summarised(row: Row) -> bool {
    row.payload@ == "u64"@ && row.producers == 4
}

/// A summary has a capacity exactly if all rows were measured with the same
/// pinning and occupancy and those it shows, of which there are some, have one
/// capacity, which four rings can share.
pub proof fn law_summary_capacity(
    mpsc: &[Row],
    mpmc: &[Row],
    capacity: Result<usize, ChartError>,
    i: int,
    j: int,
)
    requires
        call_ensures(summary_capacity, (mpsc, mpmc), capacity),
        0 <= i < (mpsc@ + mpmc@).len(),
        0 <= j < (mpsc@ + mpmc@).len(),
    ensures
        capacity is Ok ==> {
            let rows = mpsc@ + mpmc@;
            &&& run_alike(rows[i], rows[j])
            &&& summarised(rows[i]) ==> rows[i].nominal_capacity == capacity->Ok_0
            &&& capacity->Ok_0 % 4 == 0
            &&& exists|k: int|
                0 <= k < rows.len() && summarised(#[trigger] rows[k]) && rows[k].nominal_capacity
                    == capacity->Ok_0
        },
{
    let rows = mpsc@ + mpmc@;
    if capacity is Ok {
        let k = choose|k: int| 0 <= k < rows.len() && super::summary::in_summary(#[trigger] rows[k]);
        assert(summarised(rows[k]));
        assert(super::summary::same_profile(rows[i], rows[j]));
        assert(summarised(rows[i]) == super::summary::in_summary(rows[i]));
    }
}

/// Where there is no capacity, two rows were measured with different pinning or
/// occupancy, or two that the summary shows have different capacities, or it shows
/// none, or four rings cannot share the capacity of one.
pub proof fn law_no_summary_capacity(
    mpsc: &[Row],
    mpmc: &[Row],
    capacity: Result<usize, ChartError>,
    rows: Seq<Row>,
    k: int,
)
    requires
        call_ensures(summary_capacity, (mpsc, mpmc), capacity),
        rows == mpsc@ + mpmc@,
        forall|i: int, j: int|
            0 <= i < rows.len() && 0 <= j < rows.len() ==> run_alike(
                #[trigger] rows[i],
                #[trigger] rows[j],
            ),
        0 <= k < rows.len(),
        summarised(rows[k]),
        forall|i: int|
            0 <= i < rows.len() && summarised(#[trigger] rows[i]) ==> rows[i].nominal_capacity
                == rows[k].nominal_capacity,
        rows[k].nominal_capacity % 4 == 0,
    ensures
        capacity is Ok,
{
    assert(super::summary::in_summary(rows[k]));
    assert forall|i: int|
        0 <= i < rows.len() && super::summary::in_summary(
            #[trigger] rows[i],
        ) implies rows[i].nominal_capacity == rows[k].nominal_capacity by {
        assert(summarised(rows[i]));
    }
    assert forall|i: int, j: int|
        0 <= i < rows.len() && 0 <= j < rows.len() implies super::summary::same_profile(
        #[trigger] rows[i],
        #[trigger] rows[j],
    ) by {
        assert(run_alike(rows[i], rows[j]));
    }
    let shared: usize = rows[k].nominal_capacity;
    assert(super::summary::is_capacity(mpsc@ + mpmc@, shared));
    if let Err(error) = capacity {
        assert(!super::summary::is_capacity(mpsc@ + mpmc@, shared));
    }
}

/// Whether a row belongs to a bar of the summary: with one consumer under the key
/// for one, or with four under the key for several, if the series has one.
pub open spec fn behind_bar(row: Row, series: SummarySeries, mpmc: bool) -> bool {
    &&& summarised(row)
    &&& if mpmc {
        &&& series.mpmc_key is Some
        &&& row.implementation@ == series.mpmc_key->Some_0@
        &&& row.consumers == Some(4usize)
    } else {
        &&& row.implementation@ == series.mpsc_key@
        &&& row.consumers is None
    }
}

/// Whether a list holds exactly the rows behind a bar, in order.
pub open spec fn is_bar(
    rows: Seq<Row>,
    series: SummarySeries,
    mpmc: bool,
    list: Seq<usize>,
) -> bool {
    &&& forall|i: usize| #[trigger]
        list.contains(i) <==> i < rows.len() && behind_bar(rows[i as int], series, mpmc)
    &&& forall|j: int, k: int| 0 <= j < k < list.len() ==> list[j] < list[k]
}

/// The rows of a key are the rows behind its bar.
proof fn lemma_bar(rows: Seq<Row>, key: Seq<char>, mpmc: bool, n: int)
    requires
        0 <= n <= rows.len() <= usize::MAX,
    ensures
        forall|i: usize| #[trigger]
            bar(rows, key, mpmc, n).contains(i) <==> i < n && rows[i as int].implementation@ == key
                && summarised(rows[i as int]) && rows[i as int].consumers == (if mpmc {
                Some(4usize)
            } else {
                None
            }),
        forall|j: int, k: int|
            0 <= j < k < bar(rows, key, mpmc, n).len() ==> bar(rows, key, mpmc, n)[j] < bar(
                rows,
                key,
                mpmc,
                n,
            )[k],
        forall|k: int|
            0 <= k < bar(rows, key, mpmc, n).len() ==> #[trigger] bar(rows, key, mpmc, n)[k] < n,
    decreases n,
{
    if n > 0 {
        lemma_bar(rows, key, mpmc, n - 1);
        let earlier = bar(rows, key, mpmc, n - 1);
        let all = bar(rows, key, mpmc, n);
        assert forall|i: usize| #[trigger] all.contains(i) <==> i < n
            && rows[i as int].implementation@ == key && summarised(rows[i as int])
            && rows[i as int].consumers == (if mpmc {
            Some(4usize)
        } else {
            None
        }) by {
            if all.contains(i) {
                let k = choose|k: int| 0 <= k < all.len() && all[k] == i;
                if k < earlier.len() {
                    assert(earlier[k] == i);
                    assert(earlier.contains(i));
                }
            }
            if i < n && rows[i as int].implementation@ == key && summarised(rows[i as int])
                && rows[i as int].consumers == (if mpmc {
                Some(4usize)
            } else {
                None
            }) {
                if i < n - 1 {
                    assert(earlier.contains(i));
                    let k = choose|k: int| 0 <= k < earlier.len() && earlier[k] == i;
                    assert(all[k] == i);
                } else {
                    assert(all[all.len() - 1] == i);
                }
            }
        }
    }
}

/// The rows of a series are the rows behind its bar.
proof fn lemma_is_bar(rows: Seq<Row>, series: SummarySeries, mpmc: bool)
    requires
        rows.len() <= usize::MAX,
    ensures
        is_bar(rows, series, mpmc, super::summary::bar_of(rows, series, mpmc)),
{
    match super::summary::key_in(series, mpmc) {
        Some(key) => {
            lemma_bar(rows, key, mpmc, rows.len() as int);
            let list = super::summary::bar_of(rows, series, mpmc);
            assert forall|i: usize| #[trigger]
                list.contains(i) <==> i < rows.len() && behind_bar(
                    rows[i as int],
                    series,
                    mpmc,
                ) by {}
        },
        None => {
            let list = super::summary::bar_of(rows, series, mpmc);
            assert forall|i: usize| #[trigger]
                list.contains(i) <==> i < rows.len() && behind_bar(
                    rows[i as int],
                    series,
                    mpmc,
                ) by {}
        },
    }
}

/// Each bar of a summary stands for exactly the rows of its series.
pub proof fn law_summary_values(
    rows: &[Row],
    series: &[SummarySeries],
    mpmc: bool,
    bars: Vec<Vec<usize>>,
    k: int,
)
    requires
        call_ensures(summary_values, (rows, series, mpmc), bars),
        rows@.len() <= usize::MAX,
        0 <= k < series@.len(),
    ensures
        bars@.len() == series@.len(),
        is_bar(rows@, series@[k], mpmc, bars@[k]@),
{
    lemma_is_bar(rows@, series@[k], mpmc);
}

/// A summary is drawn with the bars of both topologies and the capacity that its
/// rows share, and only where every series has a bar: for one consumer, and for
/// several if it has a key there.
pub proof fn law_plan_summary(
    mpsc: &[Row],
    mpmc: &[Row],
    series: &[SummarySeries],
    plan: Result<Summary, ChartError>,
    k: int,
)
    requires
        call_ensures(plan_summary, (mpsc, mpmc, series), plan),
        plan is Ok,
        mpsc@.len() + mpmc@.len() <= usize::MAX,
        0 <= k < series@.len(),
    ensures
        is_bar(mpsc@, series@[k], false, plan->Ok_0.mpsc@[k]@),
        is_bar(mpmc@, series@[k], true, plan->Ok_0.mpmc@[k]@),
        plan->Ok_0.mpsc@.len() == series@.len(),
        plan->Ok_0.mpmc@.len() == series@.len(),
        plan->Ok_0.mpsc@[k]@.len() > 0,
        series@[k].mpmc_key is Some ==> plan->Ok_0.mpmc@[k]@.len() > 0,
        forall|i: int|
            0 <= i < mpsc@.len() && summarised(#[trigger] mpsc@[i]) ==> mpsc@[i].nominal_capacity
                == plan->Ok_0.capacity,
        forall|i: int|
            0 <= i < mpmc@.len() && summarised(#[trigger] mpmc@[i]) ==> mpmc@[i].nominal_capacity
                == plan->Ok_0.capacity,
        plan->Ok_0.capacity % 4 == 0,
{
    lemma_is_bar(mpsc@, series@[k], false);
    lemma_is_bar(mpmc@, series@[k], true);
    let rows = mpsc@ + mpmc@;
    assert(super::summary::key_in(series@[k], false) is Some);
    assert forall|i: int|
        0 <= i < mpsc@.len() && summarised(#[trigger] mpsc@[i]) implies mpsc@[i].nominal_capacity
        == plan->Ok_0.capacity by {
        assert(rows[i] == mpsc@[i]);
        assert(super::summary::in_summary(rows[i]));
    }
    assert forall|i: int|
        0 <= i < mpmc@.len() && summarised(#[trigger] mpmc@[i]) implies mpmc@[i].nominal_capacity
        == plan->Ok_0.capacity by {
        assert(rows[mpsc@.len() + i] == mpmc@[i]);
        assert(super::summary::in_summary(rows[mpsc@.len() + i]));
    }
}

/// Where a summary has a capacity and every series has a row behind each of its
/// bars, it is drawn.
pub proof fn law_summary_is_owed(
    mpsc: &[Row],
    mpmc: &[Row],
    series: &[SummarySeries],
    plan: Result<Summary, ChartError>,
    capacity: Result<usize, ChartError>,
)
    requires
        call_ensures(plan_summary, (mpsc, mpmc, series), plan),
        call_ensures(summary_capacity, (mpsc, mpmc), capacity),
        mpsc@.len() + mpmc@.len() <= usize::MAX,
        capacity is Ok,
        forall|k: int|
            0 <= k < series@.len() ==> has_row(mpsc@, #[trigger] series@[k], false) && (
            series@[k].mpmc_key is Some ==> has_row(mpmc@, series@[k], true)),
    ensures
        plan is Ok,
{
    assert forall|k: int|
        0 <= k < series@.len() && super::summary::key_in(
            #[trigger] series@[k],
            false,
        ) is Some implies super::summary::bar_of(mpsc@, series@[k], false).len() > 0 by {
        lemma_is_bar(mpsc@, series@[k], false);
        assert(has_row(mpsc@, series@[k], false));
        let i = choose|i: int|
            0 <= i < mpsc@.len() && behind_bar(#[trigger] mpsc@[i], series@[k], false);
        assert(super::summary::bar_of(mpsc@, series@[k], false).contains(i as usize));
    }
    assert forall|k: int|
        0 <= k < series@.len() && super::summary::key_in(
            #[trigger] series@[k],
            true,
        ) is Some implies super::summary::bar_of(mpmc@, series@[k], true).len() > 0 by {
        lemma_is_bar(mpmc@, series@[k], true);
        assert(has_row(mpmc@, series@[k], true));
        let i = choose|i: int|
            0 <= i < mpmc@.len() && behind_bar(#[trigger] mpmc@[i], series@[k], true);
        assert(super::summary::bar_of(mpmc@, series@[k], true).contains(i as usize));
    }
}

/// Whether some row is behind a bar.
pub open spec fn has_row(rows: Seq<Row>, series: SummarySeries, mpmc: bool) -> bool {
    exists|i: int| 0 <= i < rows.len() && behind_bar(#[trigger] rows[i], series, mpmc)
}

/// Whether some row of a list has so many producers.
pub open spec fn has_producers(rows: Seq<Row>, list: Seq<usize>, n: usize) -> bool {
    exists|k: int| 0 <= k < list.len() && rows[#[trigger] list[k] as int].producers == n
}

/// Whether some row of a list counts so many consumers.
pub open spec fn has_consumers(rows: Seq<Row>, list: Seq<usize>, n: usize) -> bool {
    exists|k: int| 0 <= k < list.len() && rows[#[trigger] list[k] as int].consumers == Some(n)
}

/// The columns of a chart are the numbers of producers and of consumers that its
/// rows have, each once and in ascending order; it is one for several consumers
/// exactly if it has a number of them.
pub proof fn law_columns(
    rows: &[Row],
    list: &[usize],
    producers: Vec<usize>,
    consumers: Vec<usize>,
    mpmc: bool,
)
    requires
        call_ensures(producer_counts, (rows, list), producers),
        call_ensures(consumer_counts, (rows, list), consumers),
        call_ensures(is_mpmc, (rows, list), mpmc),
    ensures
        forall|i: int, j: int| 0 <= i < j < producers@.len() ==> producers@[i] < producers@[j],
        forall|i: int, j: int| 0 <= i < j < consumers@.len() ==> consumers@[i] < consumers@[j],
        forall|k: int|
            0 <= k < list@.len() ==> producers@.contains(
                rows@[#[trigger] list@[k] as int].producers,
            ),
        forall|c: int|
            0 <= c < producers@.len() ==> has_producers(rows@, list@, #[trigger] producers@[c]),
        forall|k: int|
            0 <= k < list@.len() ==> (rows@[#[trigger] list@[k] as int].consumers matches Some(n)
                ==> consumers@.contains(n)),
        forall|c: int|
            0 <= c < consumers@.len() ==> has_consumers(rows@, list@, #[trigger] consumers@[c]),
        mpmc <==> consumers@.len() > 0,
{
    assert forall|k: int| 0 <= k < list@.len() implies producers@.contains(
        rows@[#[trigger] list@[k] as int].producers,
    ) by {
        assert(at(rows@, list@, k).producers == rows@[list@[k] as int].producers);
    }
    assert forall|c: int| 0 <= c < producers@.len() implies has_producers(
        rows@,
        list@,
        #[trigger] producers@[c],
    ) by {
        assert(producers@.contains(producers@[c]));
        let k = choose|k: int|
            0 <= k < list@.len() && (#[trigger] at(rows@, list@, k)).producers == producers@[c];
        assert(rows@[list@[k] as int].producers == producers@[c]);
    }
    assert forall|k: int| 0 <= k < list@.len() implies (rows@[#[trigger] list@[k] as int].consumers
        matches Some(n) ==> consumers@.contains(n)) by {
        assert(at(rows@, list@, k).consumers == rows@[list@[k] as int].consumers);
    }
    assert forall|c: int| 0 <= c < consumers@.len() implies has_consumers(
        rows@,
        list@,
        #[trigger] consumers@[c],
    ) by {
        assert(consumers@.contains(consumers@[c]));
        let k = choose|k: int|
            0 <= k < list@.len() && (#[trigger] at(rows@, list@, k)).consumers == Some(
                consumers@[c],
            );
        assert(rows@[list@[k] as int].consumers == Some(consumers@[c]));
    }
    if consumers@.len() > 0 {
        assert(consumers@.contains(consumers@[0]));
    }
    if mpmc {
        let k = choose|k: int|
            0 <= k < list@.len() && (#[trigger] at(rows@, list@, k)).consumers is Some;
        assert(consumers@.contains(at(rows@, list@, k).consumers->Some_0));
    }
}

/// The rows of a section are those of the list with its payload, in order.
pub proof fn law_payload_rows(rows: &[Row], list: &[usize], payload: &str, chosen: Vec<usize>)
    requires
        call_ensures(payload_rows, (rows, list, payload), chosen),
    ensures
        forall|i: usize| #[trigger]
            chosen@.contains(i) <==> list@.contains(i) && rows@[i as int].payload@ == payload@,
        keeps_order(list@, chosen@),
{
    lemma_with_payload(rows@, list@, payload@);
}

/// Whether one list has entries of another in the same order.
pub open spec fn keeps_order(list: Seq<usize>, chosen: Seq<usize>) -> bool {
    (forall|j: int, k: int| 0 <= j < k < list.len() ==> list[j] < list[k]) ==> forall|j: int, k: int|
        0 <= j < k < chosen.len() ==> chosen[j] < chosen[k]
}

/// The rows with a payload.
proof fn lemma_with_payload(rows: Seq<Row>, list: Seq<usize>, payload: Seq<char>)
    ensures
        forall|i: usize| #[trigger]
            with_payload(rows, list, payload).contains(i) <==> list.contains(i)
                && rows[i as int].payload@ == payload,
        keeps_order(list, with_payload(rows, list, payload)),
    decreases list.len(),
{
    if list.len() > 0 {
        let fewer = list.drop_last();
        let earlier = with_payload(rows, fewer, payload);
        let all = with_payload(rows, list, payload);
        lemma_with_payload(rows, fewer, payload);
        assert forall|i: usize| #[trigger] all.contains(i) <==> list.contains(i)
            && rows[i as int].payload@ == payload by {
            lemma_pushed(list, i);
            if at(rows, list, list.len() - 1).payload@ == payload {
                assert(all.drop_last() =~= earlier);
                lemma_pushed(all, i);
            }
        }
        lemma_order(fewer, earlier, list, all);
    }
}

/// What a list holds is what it held before, and its last entry.
proof fn lemma_pushed(list: Seq<usize>, i: usize)
    requires
        list.len() > 0,
    ensures
        list.contains(i) <==> list.drop_last().contains(i) || i == list.last(),
{
    let fewer = list.drop_last();
    if list.contains(i) {
        let k = choose|k: int| 0 <= k < list.len() && list[k] == i;
        if k < fewer.len() {
            assert(fewer[k] == i);
        }
    }
    if fewer.contains(i) {
        let k = choose|k: int| 0 <= k < fewer.len() && fewer[k] == i;
        assert(list[k] == i);
    }
    assert(list[list.len() - 1] == list.last());
}

/// One more entry keeps the order.
proof fn lemma_order(fewer: Seq<usize>, earlier: Seq<usize>, list: Seq<usize>, all: Seq<usize>)
    requires
        list.len() > 0,
        fewer == list.drop_last(),
        keeps_order(fewer, earlier),
        forall|i: usize| #[trigger] earlier.contains(i) ==> fewer.contains(i),
        all == earlier || all == earlier.push(list.last()),
    ensures
        keeps_order(list, all),
{
    if forall|j: int, k: int| 0 <= j < k < list.len() ==> list[j] < list[k] {
        assert(forall|j: int, k: int| 0 <= j < k < fewer.len() ==> fewer[j] < fewer[k]);
        assert forall|k: int| 0 <= k < earlier.len() implies #[trigger] earlier[k]
            < list.last() by {
            assert(earlier.contains(earlier[k]));
            let j = choose|j: int| 0 <= j < fewer.len() && fewer[j] == earlier[k];
            assert(list[j] == earlier[k]);
        }
    }
}

/// The samples of a cell are the rows of the list with its implementation and its
/// numbers of producers and consumers, in order; a row that counts no consumers
/// has zero.
pub proof fn law_cell_samples(
    rows: &[Row],
    list: &[usize],
    key: &str,
    producers: usize,
    consumers: usize,
    chosen: Vec<usize>,
)
    requires
        call_ensures(cell_samples, (rows, list, key, producers, consumers), chosen),
    ensures
        forall|i: usize| #[trigger]
            chosen@.contains(i) <==> {
                &&& list@.contains(i)
                &&& rows@[i as int].implementation@ == key@
                &&& rows@[i as int].producers == producers
                &&& rows@[i as int].consumers == Some(consumers) || (rows@[i as int].consumers is None
                    && consumers == 0)
            },
        keeps_order(list@, chosen@),
{
    lemma_samples(rows@, list@, key@, producers, consumers);
}

/// The samples of a cell.
proof fn lemma_samples(
    rows: Seq<Row>,
    list: Seq<usize>,
    key: Seq<char>,
    producers: usize,
    consumers: usize,
)
    ensures
        forall|i: usize| #[trigger]
            samples_of(rows, list, key, producers, consumers).contains(i) <==> {
                &&& list.contains(i)
                &&& rows[i as int].implementation@ == key
                &&& rows[i as int].producers == producers
                &&& rows[i as int].consumers == Some(consumers) || (rows[i as int].consumers is None
                    && consumers == 0)
            },
        keeps_order(list, samples_of(rows, list, key, producers, consumers)),
    decreases list.len(),
{
    if list.len() > 0 {
        let fewer = list.drop_last();
        let earlier = samples_of(rows, fewer, key, producers, consumers);
        let all = samples_of(rows, list, key, producers, consumers);
        lemma_samples(rows, fewer, key, producers, consumers);
        assert forall|i: usize| #[trigger] all.contains(i) <==> {
            &&& list.contains(i)
            &&& rows[i as int].implementation@ == key
            &&& rows[i as int].producers == producers
            &&& rows[i as int].consumers == Some(consumers) || (rows[i as int].consumers is None
                && consumers == 0)
        } by {
            lemma_pushed(list, i);
            if super::page::in_cell(at(rows, list, list.len() - 1), key, producers, consumers) {
                assert(all.drop_last() =~= earlier);
                lemma_pushed(all, i);
            }
        }
        lemma_order(fewer, earlier, list, all);
    }
}

/// The sections of a chart are those of the payloads of its rows, each once, the
/// smaller above the larger and those of one size in the order of their names. A
/// payload has the size that the last row with it says.
pub proof fn law_payload_order(rows: &[Row], list: &[usize], payloads: Vec<Payload>)
    requires
        call_ensures(payload_order, (rows, list), payloads),
    ensures
        forall|i: int, j: int|
            0 <= i < j < payloads@.len() ==> {
                ||| (#[trigger] payloads@[i]).bytes < (#[trigger] payloads@[j]).bytes
                ||| payloads@[i].bytes == payloads@[j].bytes && super::words::precedes(
                    payloads@[i].name@,
                    payloads@[j].name@,
                )
            },
        forall|i: int|
            0 <= i < payloads@.len() ==> is_last_size(rows@, list@, #[trigger] payloads@[i]),
        forall|k: int|
            0 <= k < list@.len() ==> has_section(
                payloads@,
                rows@[#[trigger] list@[k] as int].payload@,
            ),
{
    assert forall|i: int, j: int|
        0 <= i < j < payloads@.len() implies {
        ||| (#[trigger] payloads@[i]).bytes < (#[trigger] payloads@[j]).bytes
        ||| payloads@[i].bytes == payloads@[j].bytes && super::words::precedes(
            payloads@[i].name@,
            payloads@[j].name@,
        )
    } by {
        assert(super::page::above(payloads@[i], payloads@[j]));
    }
    assert forall|i: int| 0 <= i < payloads@.len() implies is_last_size(
        rows@,
        list@,
        #[trigger] payloads@[i],
    ) by {
        let p = payloads@[i];
        assert(super::page::sized(rows@, list@, 0, p));
        let k = choose|k: int|
            0 <= k < list@.len() && (#[trigger] at(rows@, list@, k)).payload@ == p.name@ && at(
                rows@,
                list@,
                k,
            ).payload_bytes == p.bytes && forall|j: int|
                k < j < list@.len() ==> (#[trigger] at(rows@, list@, j)).payload@ != p.name@;
        assert forall|j: int| k < j < list@.len() implies rows@[#[trigger] list@[j] as int].payload@
            != p.name@ by {
            assert(at(rows@, list@, j).payload@ != p.name@);
        }
        assert(rows@[list@[k] as int].payload@ == p.name@);
    }
    assert forall|k: int| 0 <= k < list@.len() implies has_section(
        payloads@,
        rows@[#[trigger] list@[k] as int].payload@,
    ) by {
        assert(super::page::is_listed(payloads@, at(rows@, list@, k).payload@));
    }
}

/// Whether there is a section for a payload.
pub open spec fn has_section(payloads: Seq<Payload>, name: Seq<char>) -> bool {
    exists|i: int| 0 <= i < payloads.len() && (#[trigger] payloads[i]).name@ == name
}

/// Whether a payload has the size that the last row with it says.
pub open spec fn is_last_size(rows: Seq<Row>, list: Seq<usize>, payload: Payload) -> bool {
    exists|k: int|
        {
            &&& 0 <= k < list.len()
            &&& rows[#[trigger] list[k] as int].payload@ == payload.name@
            &&& rows[list[k] as int].payload_bytes == payload.bytes
            &&& forall|j: int|
                k < j < list.len() ==> rows[#[trigger] list[j] as int].payload@ != payload.name@
        }
}

/// A chart is as high as its head, a section for each payload and its foot, and
/// the sections follow one another below the head.
pub proof fn law_heights(payloads: usize, index: usize, height: i32, top: i32)
    requires
        call_ensures(chart_height, (payloads,), height),
        call_ensures(section_top, (index,), top),
        index <= payloads,
    ensures
        height == 58 + 236 * payloads + 24,
        top == 58 + 236 * index,
        height - top == 236 * (payloads - index) + 24,
{
}

/// A cell leaves the same margin on every side, and its middle lies halfway
/// between its edges.
pub proof fn law_cell_frame(x: i32, y: i32, width: i32, height: i32, frame: Frame)
    requires
        call_ensures(cell_frame, (x, y, width, height), frame),
        x + 2 + x + width - 2 >= 0,
        y + 2 + y + height - 2 >= 0,
    ensures
        frame.x0 - x == 2,
        x + width - frame.x1 == 2,
        frame.y0 - y == 2,
        y + height - frame.y1 == 2,
        2 * frame.cx <= frame.x0 + frame.x1 <= 2 * frame.cx + 1,
        2 * frame.cy <= frame.y0 + frame.y1 <= 2 * frame.cy + 1,
{
}

/// Where an implementation stands on a chart: the known ones first, in a fixed
/// order.
pub open spec fn rank(key: Seq<char>) -> int {
    if key == "fanring"@ {
        0
    } else if key == "fanring-mpmc"@ {
        1
    } else if key == "crossbeam-channel"@ {
        2
    } else if key == "concurrent-queue"@ {
        3
    } else if key == "thingbuf"@ {
        4
    } else if key == "flume"@ {
        5
    } else if key == "kanal"@ {
        6
    } else {
        7
    }
}

/// The name that an implementation is drawn under: its own, unless it is known.
pub open spec fn drawn_under(key: Seq<char>) -> Seq<char> {
    if key == "fanring-mpmc"@ {
        "fanring"@
    } else if key == "crossbeam-channel"@ {
        "crossbeam-channel 0.5.16"@
    } else if key == "concurrent-queue"@ {
        "concurrent-queue 2.5.0"@
    } else if key == "thingbuf"@ {
        "thingbuf 0.1.6"@
    } else if key == "flume"@ {
        "flume 0.12.0"@
    } else if key == "kanal"@ {
        "kanal 0.1.1"@
    } else {
        key
    }
}

/// The known implementations are told apart.
proof fn lemma_ranks()
    ensures
        known_keys().len() == 7,
        forall|k: int|
            0 <= k < 7 ==> rank(#[trigger] known_keys()[k]) == k && drawn_under(known_keys()[k])
                == super::series::known_labels()[k],
        forall|key: Seq<char>| #[trigger] known_keys().contains(key) <==> rank(key) < 7,
        forall|key: Seq<char>| #[trigger] rank(key) == 7 ==> drawn_under(key) == key,
{
    reveal_strlit("fanring");
    reveal_strlit("fanring-mpmc");
    reveal_strlit("crossbeam-channel");
    reveal_strlit("concurrent-queue");
    reveal_strlit("thingbuf");
    reveal_strlit("flume");
    reveal_strlit("kanal");
    assert("fanring"@.len() == 7 && "fanring-mpmc"@.len() == 12 && "crossbeam-channel"@.len() == 17);
    assert("concurrent-queue"@.len() == 16 && "thingbuf"@.len() == 8 && "flume"@.len() == 5);
    assert("kanal"@.len() == 5);
    assert("flume"@[0] != "kanal"@[0]);
    assert forall|key: Seq<char>| #[trigger] known_keys().contains(key) <==> rank(key) < 7 by {
        if rank(key) < 7 {
            assert(known_keys()[rank(key)] == key);
        }
    }
}

/// The known implementations of a chart are those among its names.
proof fn lemma_known(names: Seq<Seq<char>>, n: int)
    requires
        0 <= n <= 7,
    ensures
        forall|j: int|
            0 <= j < known_among(names, n).len() ==> 0 <= #[trigger] known_among(names, n)[j] < n
                && names.contains(known_keys()[known_among(names, n)[j]]),
        forall|i: int, j: int|
            0 <= i < j < known_among(names, n).len() ==> known_among(names, n)[i] < known_among(
                names,
                n,
            )[j],
        forall|p: int|
            0 <= p < n && names.contains(#[trigger] known_keys()[p]) ==> known_among(
                names,
                n,
            ).contains(p),
    decreases n,
{
    if n > 0 {
        lemma_known(names, n - 1);
        let earlier = known_among(names, n - 1);
        let all = known_among(names, n);
        assert forall|p: int| 0 <= p < n && names.contains(#[trigger] known_keys()[p]) implies all.contains(
            p,
        ) by {
            if p < n - 1 {
                assert(earlier.contains(p));
                let j = choose|j: int| 0 <= j < earlier.len() && earlier[j] == p;
                assert(all[j] == p);
            } else {
                assert(all[all.len() - 1] == p);
            }
        }
    }
}

/// The other implementations of a chart are the rest, in order.
proof fn lemma_unknown(names: Seq<Seq<char>>)
    requires
        super::names::ascending(names),
    ensures
        super::names::ascending(unknown_among(names)),
        forall|name: Seq<char>| #[trigger]
            unknown_among(names).contains(name) <==> names.contains(name)
                && !known_keys().contains(name),
    decreases names.len(),
{
    if names.len() > 0 {
        let fewer = names.drop_last();
        let earlier = unknown_among(fewer);
        let all = unknown_among(names);
        assert forall|i: int, j: int| 0 <= i < j < fewer.len() implies super::words::precedes(
            #[trigger] fewer[i],
            #[trigger] fewer[j],
        ) by {
            assert(super::words::precedes(names[i], names[j]));
        }
        lemma_unknown(fewer);
        assert forall|name: Seq<char>| #[trigger] all.contains(name) <==> names.contains(name)
            && !known_keys().contains(name) by {
            if all.contains(name) {
                let k = choose|k: int| 0 <= k < all.len() && all[k] == name;
                if k < earlier.len() {
                    assert(earlier[k] == name);
                    assert(earlier.contains(name));
                    let j = choose|j: int| 0 <= j < fewer.len() && fewer[j] == name;
                    assert(names[j] == name);
                } else {
                    assert(names[names.len() - 1] == name);
                }
            }
            if names.contains(name) && !known_keys().contains(name) {
                let j = choose|j: int| 0 <= j < names.len() && names[j] == name;
                if j < fewer.len() {
                    assert(fewer[j] == name);
                    assert(fewer.contains(name));
                    assert(earlier.contains(name));
                    let k = choose|k: int| 0 <= k < earlier.len() && earlier[k] == name;
                    assert(all[k] == name);
                } else {
                    assert(all[all.len() - 1] == name);
                }
            }
        }
        assert forall|i: int, j: int| 0 <= i < j < all.len() implies super::words::precedes(
            #[trigger] all[i],
            #[trigger] all[j],
        ) by {
            if j < earlier.len() {
                assert(super::words::precedes(earlier[i], earlier[j]));
            } else {
                assert(earlier.contains(earlier[i]));
                let p = choose|p: int| 0 <= p < fewer.len() && fewer[p] == earlier[i];
                assert(super::words::precedes(names[p], names[names.len() - 1]));
            }
        }
    }
}

/// A chart shows every implementation of its rows and no other, each once, under
/// its name: the known ones in their order, then the others in ascending order.
pub proof fn law_present_series(rows: &[Row], list: &[usize], series: Vec<Series>)
    requires
        call_ensures(present_series, (rows, list), series),
    ensures
        forall|k: int|
            0 <= k < list@.len() ==> exists|s: int|
                0 <= s < series@.len() && (#[trigger] series@[s]).key@ == rows@[(
                #[trigger] list@[k]) as int].implementation@,
        forall|s: int|
            0 <= s < series@.len() ==> exists|k: int|
                0 <= k < list@.len() && rows@[(#[trigger] list@[k]) as int].implementation@ == (
                #[trigger] series@[s]).key@,
        forall|s: int|
            0 <= s < series@.len() ==> (#[trigger] series@[s]).label@ == drawn_under(
                series@[s].key@,
            ),
        forall|s: int, t: int|
            0 <= s < t < series@.len() ==> {
                ||| rank((#[trigger] series@[s]).key@) < rank((#[trigger] series@[t]).key@)
                ||| rank(series@[s].key@) == 7 && rank(series@[t].key@) == 7
                    && super::words::precedes(series@[s].key@, series@[t].key@)
            },
{
    let all = implementations(rows@, list@);
    let names = sorted_names(all);
    let known = known_among(names, 7);
    let others = unknown_among(names);
    super::names::lemma_sorted_names(all);
    lemma_ranks();
    lemma_known(names, 7);
    lemma_unknown(names);
    assert forall|s: int| 0 <= s < series@.len() implies {
        &&& names.contains((#[trigger] series@[s]).key@)
        &&& series@[s].label@ == drawn_under(series@[s].key@)
        &&& s < known.len() ==> rank(series@[s].key@) == known[s]
        &&& s >= known.len() ==> rank(series@[s].key@) == 7
    } by {
        if s < known.len() {
            assert(0 <= known[s] < 7);
            assert(series@[s].key@ == known_keys()[known[s]]);
        } else {
            assert(others.contains(others[s - known.len()]));
            assert(!known_keys().contains(series@[s].key@));
        }
    }
    assert forall|s: int| 0 <= s < series@.len() implies exists|k: int|
        0 <= k < list@.len() && rows@[(#[trigger] list@[k]) as int].implementation@ == (
        #[trigger] series@[s]).key@ by {
        assert(names.contains(series@[s].key@));
        assert(all.contains(series@[s].key@));
        let k = choose|k: int| 0 <= k < all.len() && all[k] == series@[s].key@;
        assert(rows@[list@[k] as int].implementation@ == series@[s].key@);
    }
    assert forall|k: int| 0 <= k < list@.len() implies exists|s: int|
        0 <= s < series@.len() && (#[trigger] series@[s]).key@ == rows@[(
        #[trigger] list@[k]) as int].implementation@ by {
        let name = rows@[list@[k] as int].implementation@;
        assert(all[k] == name);
        assert(all.contains(name));
        assert(names.contains(name));
        if known_keys().contains(name) {
            let p = choose|p: int| 0 <= p < 7 && known_keys()[p] == name;
            assert(known.contains(p));
            let s = choose|s: int| 0 <= s < known.len() && known[s] == p;
            assert(series@[s].key@ == name);
        } else {
            assert(others.contains(name));
            let x = choose|x: int| 0 <= x < others.len() && others[x] == name;
            assert(series@[known.len() + x].key@ == name);
        }
    }
    assert forall|s: int, t: int| 0 <= s < t < series@.len() implies {
        ||| rank((#[trigger] series@[s]).key@) < rank((#[trigger] series@[t]).key@)
        ||| rank(series@[s].key@) == 7 && rank(series@[t].key@) == 7 && super::words::precedes(
            series@[s].key@,
            series@[t].key@,
        )
    } by {
        if s >= known.len() {
            assert(super::words::precedes(others[s - known.len()], others[t - known.len()]));
        }
    }
}

} // verus!
