//! The summary chart: one bar for each implementation and topology.
use vstd::prelude::*;

use crate::text::{append_decimal, decimal};

use super::combination::ChartError;
use super::rows::{affinity_text, profile_text, Row};
use super::words::same_text;

verus! {

/// An implementation with one key for each topology.
pub struct SummarySeries {
    /// Key among the results with one consumer.
    pub mpsc_key: String,
    /// Key among the results with several, if it is drawn there.
    pub mpmc_key: Option<String>,
    /// The name it is drawn under.
    pub label: String,
}

/// The keys of the summary's implementations for one consumer.
pub open spec fn mpsc_keys() -> Seq<Seq<char>> {
    seq![
        "fanring"@,
        "crossbeam-channel"@,
        "concurrent-queue"@,
        "thingbuf"@,
        "flume"@,
        "kanal"@,
    ]
}

/// Their keys for several consumers.
pub open spec fn mpmc_keys() -> Seq<Option<Seq<char>>> {
    seq![
        Some("fanring-mpmc"@),
        Some("crossbeam-channel"@),
        None,
        None,
        Some("flume"@),
        Some("kanal"@),
    ]
}

/// Their names.
pub open spec fn summary_labels() -> Seq<Seq<char>> {
    seq![
        "fanring"@,
        "crossbeam-channel 0.5.16"@,
        "concurrent-queue 2.5.0"@,
        "thingbuf 0.1.6"@,
        "flume 0.12.0"@,
        "kanal 0.1.1"@,
    ]
}

/// The key of a series for a topology.
pub open spec fn key_in(series: SummarySeries, mpmc: bool) -> Option<Seq<char>> {
    if mpmc {
        match series.mpmc_key {
            Some(key) => Some(key@),
            None => None,
        }
    } else {
        Some(series.mpsc_key@)
    }
}

fn one_series(mpsc_key: &str, mpmc_key: Option<&str>, label: &str) -> (series: SummarySeries)
    ensures
        series.mpsc_key@ == mpsc_key@,
        key_in(series, true) == match mpmc_key {
            Some(key) => Some(key@),
            None => None,
        },
        series.label@ == label@,
{
    let mpmc_key: Option<String> = match mpmc_key {
        Some(key) => Some(key.to_owned()),
        None => None,
    };
    SummarySeries { mpsc_key: mpsc_key.to_owned(), mpmc_key, label: label.to_owned() }
}

/// The implementations of the summary, in the order they are drawn.
pub fn summary_series() -> (series: Vec<SummarySeries>)
    ensures
        series@.len() == 6,
        forall|k: int|
            0 <= k < 6 ==> (#[trigger] series@[k]).mpsc_key@ == mpsc_keys()[k] && key_in(
                series@[k],
                true,
            ) == mpmc_keys()[k] && series@[k].label@ == summary_labels()[k],
{
    let mut series: Vec<SummarySeries> = Vec::new();
    series.push(one_series("fanring", Some("fanring-mpmc"), "fanring"));
    series.push(
        one_series("crossbeam-channel", Some("crossbeam-channel"), "crossbeam-channel 0.5.16"),
    );
    series.push(one_series("concurrent-queue", None, "concurrent-queue 2.5.0"));
    series.push(one_series("thingbuf", None, "thingbuf 0.1.6"));
    series.push(one_series("flume", Some("flume"), "flume 0.12.0"));
    series.push(one_series("kanal", Some("kanal"), "kanal 0.1.1"));
    series
}

/// Whether two rows were measured with the same pinning and occupancy.
pub open spec fn same_profile(a: Row, b: Row) -> bool {
    &&& a.affinity@ == b.affinity@
    &&& a.throughput_profile@ == b.throughput_profile@
    &&& a.low_watermark == b.low_watermark
    &&& a.high_watermark == b.high_watermark
}

/// Whether a row counts for the summary.
pub open spec fn in_summary(row: Row) -> bool {
    row.payload@ == "u64"@ && row.producers == 4
}

/// Whether `capacity` is the capacity of the summary of these rows: all have the
/// same profile, some count, and those have that capacity, which four rings can
/// share.
pub open spec fn is_capacity(rows: Seq<Row>, capacity: usize) -> bool {
    &&& forall|i: int, j: int|
        0 <= i < rows.len() && 0 <= j < rows.len() ==> same_profile(
            #[trigger] rows[i],
            #[trigger] rows[j],
        )
    &&& exists|i: int| 0 <= i < rows.len() && in_summary(#[trigger] rows[i])
    &&& forall|i: int|
        0 <= i < rows.len() && in_summary(#[trigger] rows[i]) ==> rows[i].nominal_capacity
            == capacity
    &&& capacity % 4 == 0
}

/// Whether two rows have the same profile.
fn profiles_are(a: &Row, b: &Row) -> (same: bool)
    ensures
        same == same_profile(*a, *b),
{
    a.affinity == b.affinity && a.throughput_profile == b.throughput_profile && a.low_watermark
        == b.low_watermark && a.high_watermark == b.high_watermark
}

/// Whether a row counts.
fn counts(row: &Row) -> (r: bool)
    ensures
        r == in_summary(*row),
{
    same_text(row.payload.as_str(), "u64") && row.producers == 4
}

/// The row at place `k` of two lists.
fn row_at<'a>(first: &'a [Row], second: &'a [Row], k: usize) -> (row: &'a Row)
    requires
        k < first@.len() + second@.len(),
    ensures
        *row == (first@ + second@)[k as int],
{
    if k < first.len() {
        &first[k]
    } else {
        &second[k - first.len()]
    }
}

/// The capacity of the summary, if there is one.
pub fn summary_capacity(mpsc_rows: &[Row], mpmc_rows: &[Row]) -> (capacity: Result<
    usize,
    ChartError,
>)
    requires
        mpsc_rows@.len() + mpmc_rows@.len() <= usize::MAX,
    ensures
        match capacity {
            Ok(capacity) => is_capacity(mpsc_rows@ + mpmc_rows@, capacity),
            Err(error) => error == ChartError::NoRenderableRows && forall|capacity: usize|
                !#[trigger] is_capacity(mpsc_rows@ + mpmc_rows@, capacity),
        },
{
    let ghost rows = mpsc_rows@ + mpmc_rows@;
    let n: usize = mpsc_rows.len() + mpmc_rows.len();
    let mut found: Option<usize> = None;
    let mut k: usize = 0;
    while k < n
        invariant
            rows == mpsc_rows@ + mpmc_rows@,
            n == rows.len(),
            k <= n,
            forall|i: int| 0 <= i < k ==> same_profile(#[trigger] rows[i], rows[0]),
            found is None ==> forall|i: int| 0 <= i < k ==> !in_summary(#[trigger] rows[i]),
            found is Some ==> exists|i: int| 0 <= i < k && in_summary(#[trigger] rows[i]),
            found is Some ==> forall|i: int|
                0 <= i < k && in_summary(#[trigger] rows[i]) ==> rows[i].nominal_capacity
                    == found->Some_0,
        decreases n - k,
    {
        let row = row_at(mpsc_rows, mpmc_rows, k);
        let first = row_at(mpsc_rows, mpmc_rows, 0);
        if !profiles_are(row, first) {
            assert(!same_profile(rows[k as int], rows[0]));
            return Err(ChartError::NoRenderableRows);
        }
        if counts(row) {
            match found {
                None => {
                    found = Some(row.nominal_capacity);
                    assert(in_summary(rows[k as int]));
                },
                Some(capacity) => {
                    if row.nominal_capacity != capacity {
                        proof {
                            let i = choose|i: int| 0 <= i < k && in_summary(#[trigger] rows[i]);
                            assert(rows[i].nominal_capacity == capacity);
                            assert(in_summary(rows[k as int]));
                        }
                        return Err(ChartError::NoRenderableRows);
                    }
                },
            }
        }
        k += 1;
    }
    match found {
        Some(capacity) => {
            if capacity % 4 == 0 {
                Ok(capacity)
            } else {
                proof {
                    let i = choose|i: int| 0 <= i < k && in_summary(#[trigger] rows[i]);
                    assert(rows[i].nominal_capacity == capacity);
                }
                Err(ChartError::NoRenderableRows)
            }
        },
        None => Err(ChartError::NoRenderableRows),
    }
}

/// Whether a row belongs to the bar of implementation `key`.
pub open spec fn in_bar(row: Row, key: Seq<char>, mpmc: bool) -> bool {
    &&& row.implementation@ == key
    &&& in_summary(row)
    &&& row.consumers == if mpmc {
        Some(4usize)
    } else {
        None
    }
}

/// The first `n` rows that belong to the bar of implementation `key`.
pub open spec fn bar(rows: Seq<Row>, key: Seq<char>, mpmc: bool, n: int) -> Seq<usize>
    decreases n,
{
    if n <= 0 {
        Seq::empty()
    } else {
        let earlier = bar(rows, key, mpmc, n - 1);
        if in_bar(rows[n - 1], key, mpmc) {
            earlier.push((n - 1) as usize)
        } else {
            earlier
        }
    }
}

/// The rows behind the bar of a series; none where the series is not drawn for
/// the topology.
pub open spec fn bar_of(rows: Seq<Row>, series: SummarySeries, mpmc: bool) -> Seq<usize> {
    match key_in(series, mpmc) {
        Some(key) => bar(rows, key, mpmc, rows.len() as int),
        None => Seq::empty(),
    }
}

/// Pick the rows behind the bar of a series.
fn bar_rows(rows: &[Row], series: &SummarySeries, mpmc: bool) -> (list: Vec<usize>)
    ensures
        list@ == bar_of(rows@, *series, mpmc),
{
    let mut list: Vec<usize> = Vec::new();
    let key: &str = if mpmc {
        match &series.mpmc_key {
            Some(key) => key.as_str(),
            None => return list,
        }
    } else {
        series.mpsc_key.as_str()
    };
    let mut i: usize = 0;
    while i < rows.len()
        invariant
            i <= rows@.len(),
            list@ == bar(rows@, key@, mpmc, i as int),
        decreases rows@.len() - i,
    {
        let row = &rows[i];
        let consumers: bool = match row.consumers {
            Some(consumers) => mpmc && consumers == 4,
            None => !mpmc,
        };
        if same_text(row.implementation.as_str(), key) && counts(row) && consumers {
            list.push(i);
        }
        i += 1;
    }
    list
}

/// What the summary shows.
pub struct Summary {
    /// Capacity of the channels.
    pub capacity: usize,
    /// The rows behind each bar with one consumer, by series.
    pub mpsc: Vec<Vec<usize>>,
    /// The rows behind each bar with several, by series; none where a series is
    /// not drawn.
    pub mpmc: Vec<Vec<usize>>,
}

/// Whether every bar of a topology has rows.
pub open spec fn has_bars(rows: Seq<Row>, series: Seq<SummarySeries>, mpmc: bool) -> bool {
    forall|k: int|
        0 <= k < series.len() && key_in(#[trigger] series[k], mpmc) is Some ==> bar_of(
            rows,
            series[k],
            mpmc,
        ).len() > 0
}

/// Collect the bars of a topology, by series. A series that is not drawn there, or
/// of which nothing was measured, has none.
pub fn summary_values(rows: &[Row], series: &[SummarySeries], mpmc: bool) -> (bars: Vec<Vec<usize>>)
    ensures
        bars@.len() == series@.len(),
        forall|k: int|
            0 <= k < series@.len() ==> (#[trigger] bars@[k])@ == bar_of(rows@, series@[k], mpmc),
{
    let mut bars: Vec<Vec<usize>> = Vec::new();
    let mut k: usize = 0;
    while k < series.len()
        invariant
            k <= series@.len(),
            bars@.len() == k,
            forall|i: int|
                0 <= i < k ==> (#[trigger] bars@[i])@ == bar_of(rows@, series@[i], mpmc),
        decreases series@.len() - k,
    {
        bars.push(bar_rows(rows, &series[k], mpmc));
        k += 1;
    }
    bars
}

/// Whether every series that is drawn for a topology has a bar.
fn bars_complete(bars: &[Vec<usize>], series: &[SummarySeries], mpmc: bool) -> (complete: bool)
    requires
        bars@.len() == series@.len(),
    ensures
        complete == forall|k: int|
            0 <= k < series@.len() && key_in(#[trigger] series@[k], mpmc) is Some
                ==> bars@[k]@.len() > 0,
{
    let mut k: usize = 0;
    while k < series.len()
        invariant
            k <= series@.len(),
            bars@.len() == series@.len(),
            forall|i: int|
                0 <= i < k && key_in(#[trigger] series@[i], mpmc) is Some ==> bars@[i]@.len() > 0,
        decreases series@.len() - k,
    {
        let drawn: bool = !mpmc || series[k].mpmc_key.is_some();
        if drawn && bars[k].len() == 0 {
            assert(key_in(series@[k as int], mpmc) is Some);
            return false;
        }
        k += 1;
    }
    true
}

/// Decide what the summary shows. Mixed profiles or capacities, and bars without
/// rows, cannot be drawn.
pub fn plan_summary(mpsc_rows: &[Row], mpmc_rows: &[Row], series: &[SummarySeries]) -> (plan:
    Result<Summary, ChartError>)
    requires
        mpsc_rows@.len() + mpmc_rows@.len() <= usize::MAX,
    ensures
        match plan {
            Ok(plan) => {
                &&& is_capacity(mpsc_rows@ + mpmc_rows@, plan.capacity)
                &&& plan.mpsc@.len() == series@.len()
                &&& plan.mpmc@.len() == series@.len()
                &&& forall|k: int|
                    0 <= k < series@.len() ==> (#[trigger] plan.mpsc@[k])@ == bar_of(
                        mpsc_rows@,
                        series@[k],
                        false,
                    )
                &&& forall|k: int|
                    0 <= k < series@.len() ==> (#[trigger] plan.mpmc@[k])@ == bar_of(
                        mpmc_rows@,
                        series@[k],
                        true,
                    )
                &&& has_bars(mpsc_rows@, series@, false)
                &&& has_bars(mpmc_rows@, series@, true)
            },
            Err(error) => {
                &&& error == ChartError::NoRenderableRows
                &&& !has_bars(mpsc_rows@, series@, false) || !has_bars(mpmc_rows@, series@, true)
                    || forall|capacity: usize|
                    !#[trigger] is_capacity(mpsc_rows@ + mpmc_rows@, capacity)
            },
        },
{
    match summary_capacity(mpsc_rows, mpmc_rows) {
        Err(error) => Err(error),
        Ok(capacity) => {
            let mpsc = summary_values(mpsc_rows, series, false);
            let mpmc = summary_values(mpmc_rows, series, true);
            if !bars_complete(mpsc.as_slice(), series, false) || !bars_complete(
                mpmc.as_slice(),
                series,
                true,
            ) {
                return Err(ChartError::NoRenderableRows);
            }
            Ok(Summary { capacity, mpsc, mpmc })
        },
    }
}

/// The title of the summary.
pub fn summary_title(capacity: usize) -> (title: String)
    ensures
        title@ == "u64 channel throughput with capacity="@ + decimal(capacity as nat)
            + " (higher is better)"@,
{
    let mut title = "u64 channel throughput with capacity=".to_owned();
    append_decimal(&mut title, capacity as u64);
    title.append(" (higher is better)");
    title
}

/// The line under the title: hardware, pinning and occupancy.
pub fn summary_subtitle(hardware: &str, row: &Row) -> (line: String)
    ensures
        line@ == hardware@ + ", "@ + affinity_text(row.affinity@) + ", "@ + profile_text(*row),
{
    let mut line = hardware.to_owned();
    line.append(", ");
    line.append(row.affinity_label().as_str());
    line.append(", ");
    line.append(row.throughput_profile_label().as_str());
    line
}

/// What the legend says of a series. The capacity of fanring is spread over four
/// rings.
pub fn legend_text(series: &SummarySeries, capacity: usize) -> (text: String)
    ensures
        text@ == if series.mpsc_key@ == "fanring"@ {
            "fanring (4 x "@ + decimal((capacity / 4) as nat) + "-item rings)"@
        } else {
            series.label@
        },
{
    if same_text(series.mpsc_key.as_str(), "fanring") {
        let mut text = "fanring (4 x ".to_owned();
        append_decimal(&mut text, (capacity / 4) as u64);
        text.append("-item rings)");
        text
    } else {
        series.label.clone()
    }
}

/// Column and line of an entry of a legend with three columns.
pub fn legend_place(index: usize) -> (place: (usize, usize))
    ensures
        place.0 == index % 3,
        place.1 == index / 3,
{
    (index % 3, index / 3)
}

/// The summary of a channel never mixes pinning policies or occupancies.
pub proof fn law_summary_is_uniform(rows: Seq<Row>, capacity: usize, i: int, j: int)
    requires
        is_capacity(rows, capacity),
        0 <= i < rows.len(),
        0 <= j < rows.len(),
    ensures
        same_profile(rows[i], rows[j]),
{
}

} // verus!
