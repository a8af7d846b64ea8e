//! What a wake-latency chart shows, in plain terms.
use vstd::prelude::*;

use super::combination::ChartError;
use super::latency::{
    all_pairs, bar_row, by_number, comparable, complete_implementation, decided, digits_value,
    drawn, gathered, has_measure, is_pair, last_measure, law_runs_are_sorted, measured, measures,
    newest, nth, number_of_run, pairs, pairs_of_run, run_number, run_rows, runs, select_run,
    LatencyRow, Metric,
};
use super::names::{lemma_sorted_names, sorted_names};
use super::series::{keys_of, Series};

verus! {

/// Whether two rows were measured on the same machine in the same way.
pub open spec fn measured_alike(a: LatencyRow, b: LatencyRow) -> bool {
    &&& a.cpu@ == b.cpu@
    &&& a.capacity == b.capacity
    &&& a.rounds == b.rounds
    &&& a.settle_mode@ == b.settle_mode@
    &&& a.settle_ns == b.settle_ns
}

/// Whether two rows are the two halves of a measurement: one of a sleeping
/// receiver and one of a sleeping sender, measured in the same way.
pub open spec fn complement(a: LatencyRow, b: LatencyRow) -> bool {
    &&& measured_alike(a, b)
    &&& {
        ||| a.operation@ == "recv_wake"@ && b.operation@ == "send_wake"@
        ||| a.operation@ == "send_wake"@ && b.operation@ == "recv_wake"@
    }
}

/// Whether rows `i` and `j`, in this order, are all that their run has of their
/// implementation, and a whole measurement.
pub open spec fn whole(rows: Seq<LatencyRow>, i: int, j: int) -> bool {
    &&& 0 <= i < j < rows.len()
    &&& complement(rows[i], rows[j])
    &&& rows[i].run_id@ == rows[j].run_id@
    &&& rows[i].implementation@ == rows[j].implementation@
    &&& forall|k: int|
        0 <= k < rows.len() && (#[trigger] rows[k]).run_id@ == rows[i].run_id@
            && rows[k].implementation@ == rows[i].implementation@ ==> k == i || k == j
}

/// A measurement of an implementation is complete exactly if it is one row for
/// each side, measured in the same way.
pub proof fn law_complete_implementation(rows: &[LatencyRow], list: &[usize], complete: bool)
    requires
        call_ensures(complete_implementation, (rows, list), complete),
        forall|k: int| 0 <= k < list@.len() ==> (#[trigger] list@[k]) < rows@.len(),
    ensures
        complete <==> list@.len() == 2 && complement(
            rows@[list@[0] as int],
            rows@[list@[1] as int],
        ),
{
}

/// The rows of an implementation in a run, in order.
proof fn lemma_measured(rows: Seq<LatencyRow>, run: Seq<char>, key: Seq<char>, n: int)
    requires
        0 <= n <= rows.len() <= usize::MAX,
    ensures
        forall|i: usize| #[trigger]
            measured(rows, run, key, n).contains(i) <==> i < n && rows[i as int].run_id@ == run
                && rows[i as int].implementation@ == key,
        forall|j: int, k: int|
            0 <= j < k < measured(rows, run, key, n).len() ==> measured(rows, run, key, n)[j]
                < measured(rows, run, key, n)[k],
        forall|k: int|
            0 <= k < measured(rows, run, key, n).len() ==> #[trigger] measured(
                rows,
                run,
                key,
                n,
            )[k] < n,
    decreases n,
{
    if n > 0 {
        lemma_measured(rows, run, key, n - 1);
        let earlier = measured(rows, run, key, n - 1);
        let all = measured(rows, run, key, n);
        assert forall|i: usize| #[trigger] all.contains(i) <==> i < n && rows[i as int].run_id@
            == run && rows[i as int].implementation@ == key by {
            if all.contains(i) {
                let k = choose|k: int| 0 <= k < all.len() && all[k] == i;
                if k < earlier.len() {
                    assert(earlier[k] == i);
                    assert(earlier.contains(i));
                }
            }
            if i < n && rows[i as int].run_id@ == run && rows[i as int].implementation@ == key {
                if i < n - 1 {
                    assert(earlier.contains(i));
                    let k = choose|k: int| 0 <= k < earlier.len() && earlier[k] == i;
                    assert(all[k] == i);
                } else {
                    assert(all[all.len() - 1] == i);
                }
            }
        }
    }
}

/// The rows of an implementation in a run are a pair exactly if they are a whole
/// measurement.
proof fn lemma_whole(rows: Seq<LatencyRow>, run: Seq<char>, key: Seq<char>)
    requires
        rows.len() <= usize::MAX,
    ensures
        ({
            let list = measured(rows, run, key, rows.len() as int);
            is_pair(rows, list) ==> {
                &&& whole(rows, list[0] as int, list[1] as int)
                &&& rows[list[0] as int].run_id@ == run
                &&& rows[list[0] as int].implementation@ == key
            }
        }),
{
    let list = measured(rows, run, key, rows.len() as int);
    lemma_measured(rows, run, key, rows.len() as int);
    if is_pair(rows, list) {
        assert(list.contains(list[0]) && list.contains(list[1]));
        let i = list[0] as int;
        let j = list[1] as int;
        assert forall|k: int|
            0 <= k < rows.len() && (#[trigger] rows[k]).run_id@ == rows[i].run_id@
                && rows[k].implementation@ == rows[i].implementation@ implies k == i || k == j by {
            assert(list.contains(k as usize));
        }
    }
}

/// A whole measurement is what its run has of its implementation.
proof fn lemma_is_pair(rows: Seq<LatencyRow>, i: int, j: int)
    requires
        rows.len() <= usize::MAX,
        whole(rows, i, j),
    ensures
        measured(rows, rows[i].run_id@, rows[i].implementation@, rows.len() as int) == seq![
            i as usize,
            j as usize,
        ],
        is_pair(rows, seq![i as usize, j as usize]),
{
    let list = measured(rows, rows[i].run_id@, rows[i].implementation@, rows.len() as int);
    lemma_measured(rows, rows[i].run_id@, rows[i].implementation@, rows.len() as int);
    assert(list.contains(i as usize) && list.contains(j as usize));
    let a = choose|a: int| 0 <= a < list.len() && list[a] == i as usize;
    let b = choose|b: int| 0 <= b < list.len() && list[b] == j as usize;
    assert forall|k: int| 0 <= k < list.len() implies #[trigger] list[k] == i as usize || list[k]
        == j as usize by {
        assert(list.contains(list[k]));
        assert(rows[list[k] as int].run_id@ == rows[i].run_id@);
    }
    assert(list.len() >= 2);
    assert(list[0] < list[1]);
    if list.len() > 2 {
        assert(list[1] < list[2]);
    }
    assert(list =~= seq![i as usize, j as usize]);
}

/// Every pair of a run is one of its implementations.
proof fn lemma_of_run(rows: Seq<LatencyRow>, run: Seq<char>, keys: Seq<Seq<char>>, g: int) -> (
    k: int)
    requires
        0 <= g < pairs_of_run(rows, run, keys).len(),
    ensures
        0 <= k < keys.len(),
        is_pair(rows, pairs_of_run(rows, run, keys)[g]),
        pairs_of_run(rows, run, keys)[g] == measured(rows, run, keys[k], rows.len() as int),
    decreases keys.len(),
{
    let fewer = keys.drop_last();
    let earlier = pairs_of_run(rows, run, fewer);
    if g < earlier.len() {
        let k = lemma_of_run(rows, run, fewer, g);
        assert(pairs_of_run(rows, run, keys)[g] == earlier[g]);
        k
    } else {
        keys.len() - 1
    }
}

/// Every pair belongs to a run.
proof fn lemma_of_runs(
    rows: Seq<LatencyRow>,
    ids: Seq<Seq<char>>,
    keys: Seq<Seq<char>>,
    g: int,
) -> (found: (int, int))
    requires
        0 <= g < pairs(rows, ids, keys).len(),
    ensures
        0 <= found.0 < ids.len(),
        0 <= found.1 < keys.len(),
        g < pairs(rows, ids.take(found.0 + 1), keys).len(),
        is_pair(rows, pairs(rows, ids, keys)[g]),
        pairs(rows, ids, keys)[g] == measured(
            rows,
            ids[found.0],
            keys[found.1],
            rows.len() as int,
        ),
    decreases ids.len(),
{
    let fewer = ids.drop_last();
    let earlier = pairs(rows, fewer, keys);
    if g < earlier.len() {
        let found = lemma_of_runs(rows, fewer, keys, g);
        assert(fewer.take(found.0 + 1) =~= ids.take(found.0 + 1));
        assert(pairs(rows, ids, keys)[g] == earlier[g]);
        found
    } else {
        let k = lemma_of_run(rows, ids.last(), keys, g - earlier.len());
        assert(ids.take(ids.len() as int) =~= ids);
        (ids.len() - 1, k)
    }
}

/// A pair of a run stands among its pairs.
proof fn lemma_in_run(rows: Seq<LatencyRow>, run: Seq<char>, keys: Seq<Seq<char>>, k: int) -> (
    g: int)
    requires
        0 <= k < keys.len(),
        is_pair(rows, measured(rows, run, keys[k], rows.len() as int)),
    ensures
        0 <= g < pairs_of_run(rows, run, keys).len(),
        pairs_of_run(rows, run, keys)[g] == measured(rows, run, keys[k], rows.len() as int),
    decreases keys.len(),
{
    let fewer = keys.drop_last();
    if k < fewer.len() {
        let g = lemma_in_run(rows, run, fewer, k);
        assert(pairs_of_run(rows, run, keys)[g] == pairs_of_run(rows, run, fewer)[g]);
        g
    } else {
        pairs_of_run(rows, run, fewer).len() as int
    }
}

/// A pair of a run stands behind those of the runs before.
proof fn lemma_in_runs(
    rows: Seq<LatencyRow>,
    ids: Seq<Seq<char>>,
    keys: Seq<Seq<char>>,
    a: int,
    k: int,
) -> (g: int)
    requires
        0 <= a < ids.len(),
        0 <= k < keys.len(),
        is_pair(rows, measured(rows, ids[a], keys[k], rows.len() as int)),
    ensures
        pairs(rows, ids.take(a), keys).len() <= g < pairs(rows, ids, keys).len(),
        pairs(rows, ids, keys)[g] == measured(rows, ids[a], keys[k], rows.len() as int),
    decreases ids.len(),
{
    let fewer = ids.drop_last();
    let earlier = pairs(rows, fewer, keys);
    if a < fewer.len() {
        assert(fewer.take(a) =~= ids.take(a));
        let g = lemma_in_runs(rows, fewer, keys, a, k);
        assert(pairs(rows, ids, keys)[g] == earlier[g]);
        g
    } else {
        assert(ids.take(a) =~= fewer);
        earlier.len() + lemma_in_run(rows, ids.last(), keys, k)
    }
}

/// There are no more pairs of fewer runs.
proof fn lemma_fewer(
    rows: Seq<LatencyRow>,
    ids: Seq<Seq<char>>,
    keys: Seq<Seq<char>>,
    a: int,
    b: int,
)
    requires
        0 <= a <= b <= ids.len(),
    ensures
        pairs(rows, ids.take(a), keys).len() <= pairs(rows, ids.take(b), keys).len(),
    decreases b - a,
{
    if a < b {
        lemma_fewer(rows, ids, keys, a, b - 1);
        assert(ids.take(b).drop_last() =~= ids.take(b - 1));
    }
}

/// The runs are those of the rows.
proof fn lemma_runs(rows: Seq<LatencyRow>, n: int, i: int)
    requires
        0 <= i < n <= rows.len(),
    ensures
        runs(rows, n).contains(rows[i].run_id@),
    decreases n,
{
    let earlier = runs(rows, n - 1);
    let all = runs(rows, n);
    let run = rows[i].run_id@;
    if i < n - 1 {
        lemma_runs(rows, n - 1, i);
    }
    if earlier.contains(run) {
        let k = choose|k: int| 0 <= k < earlier.len() && earlier[k] == run;
        assert(all[k] == run);
    } else {
        assert(all[all.len() - 1] == run);
    }
}

/// Sorting the runs loses none.
proof fn lemma_by_number(ids: Seq<Seq<char>>, run: Seq<char>)
    requires
        ids.contains(run),
    ensures
        by_number(ids).contains(run),
{
    law_runs_are_sorted(ids);
    ids.to_multiset_ensures();
    by_number(ids).to_multiset_ensures();
    assert(ids.to_multiset().count(run) > 0);
    assert(by_number(ids).to_multiset().count(run) > 0);
}

/// The newest comparable pair of an implementation is the last one.
proof fn lemma_newest(
    rows: Seq<LatencyRow>,
    all: Seq<Seq<usize>>,
    reference: Seq<usize>,
    key: Seq<char>,
) -> (h: int)
    ensures
        newest(rows, all, reference, key) is Some ==> {
            &&& 0 <= h < all.len()
            &&& newest(rows, all, reference, key) == Some(all[h])
            &&& nth(rows, all[h], 0).implementation@ == key
            &&& comparable(nth(rows, all[h], 0), nth(rows, reference, 0))
        },
        newest(rows, all, reference, key) is None ==> h == -1,
        forall|g: int|
            h < g < all.len() ==> !(nth(rows, #[trigger] all[g], 0).implementation@ == key
                && comparable(nth(rows, all[g], 0), nth(rows, reference, 0))),
    decreases all.len(),
{
    if all.len() == 0 {
        -1
    } else if nth(rows, all.last(), 0).implementation@ == key && comparable(
        nth(rows, all.last(), 0),
        nth(rows, reference, 0),
    ) {
        all.len() - 1
    } else {
        let fewer = all.drop_last();
        let h = lemma_newest(rows, fewer, reference, key);
        assert forall|g: int| h < g < all.len() implies !(nth(
            rows,
            #[trigger] all[g],
            0,
        ).implementation@ == key && comparable(nth(rows, all[g], 0), nth(rows, reference, 0))) by {
            if g < fewer.len() {
                assert(fewer[g] == all[g]);
            }
        }
        h
    }
}

/// What was gathered holds the newest pair of every implementation.
proof fn lemma_gathered(
    rows: Seq<LatencyRow>,
    all: Seq<Seq<usize>>,
    reference: Seq<usize>,
    keys: Seq<Seq<char>>,
)
    requires
        forall|g: int| 0 <= g < all.len() ==> (#[trigger] all[g]).len() == 2,
    ensures
        gathered(rows, all, reference, keys) is Some <==> forall|k: int|
            0 <= k < keys.len() ==> newest(rows, all, reference, #[trigger] keys[k]) is Some,
        gathered(rows, all, reference, keys) matches Some(list) ==> {
            &&& list.len() == 2 * keys.len()
            &&& forall|k: int|
                0 <= k < keys.len() ==> newest(rows, all, reference, #[trigger] keys[k]) == Some(
                    seq![list[2 * k], list[2 * k + 1]],
                )
        },
    decreases keys.len(),
{
    if keys.len() > 0 {
        let fewer = keys.drop_last();
        let last = keys.len() - 1;
        lemma_gathered(rows, all, reference, fewer);
        let h = lemma_newest(rows, all, reference, keys.last());
        if gathered(rows, all, reference, keys) is Some {
            let list = gathered(rows, all, reference, keys)->Some_0;
            let earlier = gathered(rows, all, reference, fewer)->Some_0;
            let more = newest(rows, all, reference, keys.last())->Some_0;
            assert(more.len() == 2);
            assert forall|k: int| 0 <= k < keys.len() implies newest(
                rows,
                all,
                reference,
                #[trigger] keys[k],
            ) == Some(seq![list[2 * k], list[2 * k + 1]]) by {
                if k < last {
                    assert(fewer[k] == keys[k]);
                    assert(list[2 * k] == earlier[2 * k]);
                    assert(list[2 * k + 1] == earlier[2 * k + 1]);
                } else {
                    assert(more =~= seq![list[2 * k], list[2 * k + 1]]);
                }
            }
        } else if forall|k: int|
            0 <= k < keys.len() ==> newest(rows, all, reference, #[trigger] keys[k]) is Some {
            assert(newest(rows, all, reference, keys[last]) is Some);
            assert forall|k: int| 0 <= k < fewer.len() implies newest(
                rows,
                all,
                reference,
                #[trigger] fewer[k],
            ) is Some by {
                assert(fewer[k] == keys[k]);
            }
        }
    }
}

/// What decides is the last pair with which all implementations can be gathered.
proof fn lemma_decided(
    rows: Seq<LatencyRow>,
    all: Seq<Seq<usize>>,
    keys: Seq<Seq<char>>,
    n: int,
) -> (d: int)
    requires
        0 <= n <= all.len(),
    ensures
        decided(rows, all, keys, n) is Some ==> 0 <= d < n && decided(rows, all, keys, n)
            == gathered(rows, all, all[d], keys),
        decided(rows, all, keys, n) is None ==> d == -1,
        forall|g: int| d < g < n ==> gathered(rows, all, #[trigger] all[g], keys) is None,
    decreases n,
{
    if n <= 0 {
        -1
    } else if gathered(rows, all, all[n - 1], keys) is Some {
        n - 1
    } else {
        lemma_decided(rows, all, keys, n - 1)
    }
}

/// Every pair is a whole measurement of one of the implementations.
proof fn lemma_all(rows: Seq<LatencyRow>, keys: Seq<Seq<char>>)
    requires
        rows.len() <= usize::MAX,
    ensures
        forall|g: int|
            0 <= g < all_pairs(rows, keys).len() ==> {
                let pair = #[trigger] all_pairs(rows, keys)[g];
                &&& pair.len() == 2
                &&& whole(rows, pair[0] as int, pair[1] as int)
                &&& keys.contains(rows[pair[0] as int].implementation@)
            },
{
    let ids = by_number(runs(rows, rows.len() as int));
    assert forall|g: int| 0 <= g < all_pairs(rows, keys).len() implies {
        let pair = #[trigger] all_pairs(rows, keys)[g];
        &&& pair.len() == 2
        &&& whole(rows, pair[0] as int, pair[1] as int)
        &&& keys.contains(rows[pair[0] as int].implementation@)
    } by {
        let (a, k) = lemma_of_runs(rows, ids, keys, g);
        lemma_whole(rows, ids[a], keys[k]);
        assert(keys.contains(keys[k]));
    }
}

/// Whether series `k` is shown by two rows that are a whole measurement of it.
pub open spec fn shows_series(
    rows: Seq<LatencyRow>,
    list: Seq<usize>,
    series: Seq<Series>,
    k: int,
) -> bool {
    &&& whole(rows, list[2 * k] as int, list[2 * k + 1] as int)
    &&& rows[list[2 * k] as int].implementation@ == series[k].key@
}

/// A default chart shows two rows for every series, in the order of the series:
/// the two halves of what one run has of its implementation. All of them were
/// measured on the same machine in the same way.
pub proof fn law_default_chart_shows_whole_measurements(
    rows: &[LatencyRow],
    series: &[Series],
    selected: Result<Vec<usize>, ChartError>,
)
    requires
        call_ensures(select_run, (rows, series, None), selected),
        selected is Ok,
        rows@.len() <= usize::MAX,
    ensures
        selected->Ok_0@.len() == 2 * series@.len(),
        forall|k: int|
            0 <= k < series@.len() ==> #[trigger] shows_series(
                rows@,
                selected->Ok_0@,
                series@,
                k,
            ),
        forall|a: int, b: int|
            0 <= a < selected->Ok_0@.len() && 0 <= b < selected->Ok_0@.len() ==> measured_alike(
                rows@[#[trigger] selected->Ok_0@[a] as int],
                rows@[#[trigger] selected->Ok_0@[b] as int],
            ),
{
    let r = rows@;
    let keys = keys_of(series@);
    let list = selected->Ok_0@;
    let all = all_pairs(r, keys);
    lemma_all(r, keys);
    let d = lemma_decided(r, all, keys, all.len() as int);
    let reference = all[d];
    lemma_gathered(r, all, reference, keys);
    let base = nth(r, reference, 0);
    assert forall|k: int| 0 <= k < keys.len() implies {
        let i = list[2 * k] as int;
        let j = list[2 * k + 1] as int;
        &&& whole(r, i, j)
        &&& r[i].implementation@ == #[trigger] keys[k]
        &&& measured_alike(r[i], base)
        &&& measured_alike(r[j], base)
    } by {
        let h = lemma_newest(r, all, reference, keys[k]);
        assert(all[h] == seq![list[2 * k], list[2 * k + 1]]);
        assert(all[h][0] == list[2 * k] && all[h][1] == list[2 * k + 1]);
    }
    assert forall|k: int| 0 <= k < series@.len() implies #[trigger] shows_series(
        r,
        list,
        series@,
        k,
    ) by {
        assert(keys[k] == series@[k].key@);
    }
    assert forall|a: int| 0 <= a < list.len() implies measured_alike(
        r[#[trigger] list[a] as int],
        base,
    ) by {
        assert(keys[a / 2] == keys[a / 2]);
        assert(a == 2 * (a / 2) || a == 2 * (a / 2) + 1);
    }
}

/// The pair of a whole measurement stands among the pairs.
proof fn lemma_listed(rows: Seq<LatencyRow>, keys: Seq<Seq<char>>, i: int, j: int) -> (g: int)
    requires
        rows.len() <= usize::MAX,
        whole(rows, i, j),
        keys.contains(rows[i].implementation@),
    ensures
        0 <= g < all_pairs(rows, keys).len(),
        all_pairs(rows, keys)[g] == seq![i as usize, j as usize],
        forall|h: int|
            0 <= h < all_pairs(rows, keys).len() && run_number(
                nth(rows, #[trigger] all_pairs(rows, keys)[h], 0).run_id@,
            ) < run_number(rows[i].run_id@) ==> h < g,
{
    let raw = runs(rows, rows.len() as int);
    let ids = by_number(raw);
    let all = all_pairs(rows, keys);
    lemma_runs(rows, rows.len() as int, i);
    lemma_by_number(raw, rows[i].run_id@);
    let a = choose|a: int| 0 <= a < ids.len() && ids[a] == rows[i].run_id@;
    let k = choose|k: int| 0 <= k < keys.len() && keys[k] == rows[i].implementation@;
    lemma_is_pair(rows, i, j);
    let g = lemma_in_runs(rows, ids, keys, a, k);
    law_runs_are_sorted(raw);
    assert forall|h: int|
        0 <= h < all.len() && run_number(nth(rows, #[trigger] all[h], 0).run_id@) < run_number(
            rows[i].run_id@,
        ) implies h < g by {
        let (c, l) = lemma_of_runs(rows, ids, keys, h);
        lemma_whole(rows, ids[c], keys[l]);
        assert(nth(rows, all[h], 0).run_id@ == ids[c]);
        if a <= c {
            if a < c {
                assert(run_number(ids[a]) <= run_number(ids[c]));
            }
            assert(false);
        }
        lemma_fewer(rows, ids, keys, c + 1, a);
    }
    g
}

/// Of every series a default chart shows the newest measurement: no whole
/// measurement of the same implementation, measured in the same way, has a run
/// with a larger number.
pub proof fn law_default_chart_shows_the_newest(
    rows: &[LatencyRow],
    series: &[Series],
    selected: Result<Vec<usize>, ChartError>,
    k: int,
    i: int,
    j: int,
)
    requires
        call_ensures(select_run, (rows, series, None), selected),
        selected is Ok,
        rows@.len() <= usize::MAX,
        0 <= k < series@.len(),
        whole(rows@, i, j),
        rows@[i].implementation@ == series@[k].key@,
        measured_alike(rows@[i], rows@[selected->Ok_0@[2 * k] as int]),
    ensures
        run_number(rows@[i].run_id@) <= run_number(
            rows@[selected->Ok_0@[2 * k] as int].run_id@,
        ),
{
    let r = rows@;
    let keys = keys_of(series@);
    let list = selected->Ok_0@;
    let all = all_pairs(r, keys);
    lemma_all(r, keys);
    let d = lemma_decided(r, all, keys, all.len() as int);
    let reference = all[d];
    lemma_gathered(r, all, reference, keys);
    assert(keys[k] == series@[k].key@);
    let h = lemma_newest(r, all, reference, keys[k]);
    assert(all[h] == seq![list[2 * k], list[2 * k + 1]]);
    assert(all[h][0] == list[2 * k]);
    assert(keys.contains(keys[k]));
    let g = lemma_listed(r, keys, i, j);
    assert(all[g][0] == i as usize);
    if run_number(r[i].run_id@) > run_number(r[list[2 * k] as int].run_id@) {
        assert(run_number(nth(r, all[h], 0).run_id@) < run_number(r[i].run_id@));
        assert(h < g);
    }
}

/// Whether every series has a whole measurement like row `i`.
pub open spec fn all_measured_like(rows: Seq<LatencyRow>, series: Seq<Series>, i: int) -> bool {
    forall|k: int|
        0 <= k < series.len() ==> exists|a: int, b: int|
            #[trigger] whole(rows, a, b) && rows[a].implementation@ == (
            #[trigger] series[k]).key@ && measured_alike(rows[a], rows[i])
}

/// A default chart is drawn if some whole measurement of a series is such that
/// every series has a whole measurement made in the same way. No such measurement
/// is newer than everything on the chart.
pub proof fn law_default_chart_is_owed(
    rows: &[LatencyRow],
    series: &[Series],
    selected: Result<Vec<usize>, ChartError>,
    i: int,
    j: int,
    k: int,
)
    requires
        call_ensures(select_run, (rows, series, None), selected),
        rows@.len() <= usize::MAX,
        whole(rows@, i, j),
        0 <= k < series@.len(),
        rows@[i].implementation@ == series@[k].key@,
        all_measured_like(rows@, series@, i),
    ensures
        selected is Ok,
        exists|x: int|
            0 <= x < selected->Ok_0@.len() && run_number(rows@[i].run_id@) <= run_number(
                rows@[#[trigger] selected->Ok_0@[x] as int].run_id@,
            ),
{
    let r = rows@;
    let keys = keys_of(series@);
    let all = all_pairs(r, keys);
    lemma_all(r, keys);
    assert(keys[k] == series@[k].key@);
    assert(keys.contains(keys[k]));
    let g = lemma_listed(r, keys, i, j);
    let d = lemma_decided(r, all, keys, all.len() as int);
    lemma_gathered(r, all, all[g], keys);
    assert forall|n: int| 0 <= n < keys.len() implies newest(
        r,
        all,
        all[g],
        #[trigger] keys[n],
    ) is Some by {
        assert(keys[n] == series@[n].key@);
        let (a, b) = choose|a: int, b: int|
            #[trigger] whole(r, a, b) && r[a].implementation@ == series@[n].key@
                && measured_alike(r[a], r[i]);
        assert(keys.contains(keys[n]));
        let x = lemma_listed(r, keys, a, b);
        let h = lemma_newest(r, all, all[g], keys[n]);
        assert(all[x][0] == a as usize);
        assert(all[g][0] == i as usize);
    }
    let list = selected->Ok_0@;
    lemma_gathered(r, all, all[d], keys);
    let key = nth(r, all[d], 0).implementation@;
    assert(keys.contains(key));
    let n = choose|n: int| 0 <= n < keys.len() && keys[n] == key;
    let h = lemma_newest(r, all, all[d], keys[n]);
    assert(h >= d >= g);
    assert(all[h] == seq![list[2 * n], list[2 * n + 1]]);
    assert(nth(r, all[h], 0) == r[list[2 * n] as int]);
}

/// A chart without complete rows says so.
pub proof fn law_no_default_chart(
    rows: &[LatencyRow],
    series: &[Series],
    selected: Result<Vec<usize>, ChartError>,
)
    requires
        call_ensures(select_run, (rows, series, None), selected),
        selected is Err,
    ensures
        selected->Err_0 is NoCompleteRun,
{
}

/// The rows of a run are those with its name.
proof fn lemma_run_rows(rows: Seq<LatencyRow>, run: Seq<char>, n: int)
    requires
        0 <= n <= rows.len() <= usize::MAX,
    ensures
        forall|i: usize| #[trigger]
            run_rows(rows, run, n).contains(i) <==> i < n && rows[i as int].run_id@ == run,
    decreases n,
{
    if n > 0 {
        lemma_run_rows(rows, run, n - 1);
        let earlier = run_rows(rows, run, n - 1);
        let all = run_rows(rows, run, n);
        assert forall|i: usize| #[trigger] all.contains(i) <==> i < n && rows[i as int].run_id@
            == run by {
            if all.contains(i) {
                let k = choose|k: int| 0 <= k < all.len() && all[k] == i;
                if k < earlier.len() {
                    assert(earlier[k] == i);
                    assert(earlier.contains(i));
                }
            }
            if i < n && rows[i as int].run_id@ == run {
                if i < n - 1 {
                    assert(earlier.contains(i));
                    let k = choose|k: int| 0 <= k < earlier.len() && earlier[k] == i;
                    assert(all[k] == i);
                } else {
                    assert(all[all.len() - 1] == i);
                }
            }
        }
    }
}

/// The drawn rows are those of the series.
proof fn lemma_drawn(rows: Seq<LatencyRow>, list: Seq<usize>, keys: Seq<Seq<char>>)
    ensures
        forall|i: usize| #[trigger]
            drawn(rows, list, keys).contains(i) <==> list.contains(i) && keys.contains(
                rows[i as int].implementation@,
            ),
    decreases list.len(),
{
    if list.len() > 0 {
        let fewer = list.drop_last();
        let earlier = drawn(rows, fewer, keys);
        let all = drawn(rows, list, keys);
        lemma_drawn(rows, fewer, keys);
        assert forall|i: usize| #[trigger] all.contains(i) <==> list.contains(i) && keys.contains(
            rows[i as int].implementation@,
        ) by {
            if all.contains(i) {
                let k = choose|k: int| 0 <= k < all.len() && all[k] == i;
                if k < earlier.len() {
                    assert(earlier[k] == i);
                    assert(earlier.contains(i));
                    let j = choose|j: int| 0 <= j < fewer.len() && fewer[j] == i;
                    assert(list[j] == i);
                } else {
                    assert(list[list.len() - 1] == i);
                }
            }
            if list.contains(i) && keys.contains(rows[i as int].implementation@) {
                let j = choose|j: int| 0 <= j < list.len() && list[j] == i;
                if j < fewer.len() {
                    assert(fewer[j] == i);
                    assert(earlier.contains(i));
                    let k = choose|k: int| 0 <= k < earlier.len() && earlier[k] == i;
                    assert(all[k] == i);
                } else {
                    assert(all[all.len() - 1] == i);
                }
            }
        }
    }
}

/// A requested run is shown as pairs, the receiver's half first, the
/// implementations in ascending order. All rows are of the run and of the series
/// and were measured in the same way. Every series is shown, and no row of the run
/// that belongs to a series is left out.
pub proof fn law_requested_run(
    rows: &[LatencyRow],
    series: &[Series],
    run: String,
    selected: Result<Vec<usize>, ChartError>,
)
    requires
        call_ensures(select_run, (rows, series, Some(run)), selected),
        selected is Ok,
        rows@.len() <= usize::MAX,
    ensures
        selected->Ok_0@.len() % 2 == 0,
        forall|k: int|
            0 <= k < selected->Ok_0@.len() ==> {
                let row = rows@[#[trigger] selected->Ok_0@[k] as int];
                &&& selected->Ok_0@[k] < rows@.len()
                &&& row.run_id@ == run@
                &&& row.operation@ == if k % 2 == 0 {
                    "recv_wake"@
                } else {
                    "send_wake"@
                }
                &&& keys_of(series@).contains(row.implementation@)
                &&& k % 2 == 1 ==> row.implementation@ == rows@[selected->Ok_0@[k
                    - 1] as int].implementation@
            },
        forall|a: int, b: int|
            0 <= a < selected->Ok_0@.len() && 0 <= b < selected->Ok_0@.len() ==> measured_alike(
                rows@[#[trigger] selected->Ok_0@[a] as int],
                rows@[#[trigger] selected->Ok_0@[b] as int],
            ),
        forall|k: int|
            #![trigger series@[k]]
            0 <= k < series@.len() ==> exists|a: int|
                0 <= a < selected->Ok_0@.len() && rows@[#[trigger] selected->Ok_0@[a] as int].implementation@
                    == series@[k].key@,
        forall|i: int|
            0 <= i < rows@.len() && (#[trigger] rows@[i]).run_id@ == run@ && keys_of(
                series@,
            ).contains(rows@[i].implementation@) ==> selected->Ok_0@.contains(i as usize),
{
    let r = rows@;
    let keys = keys_of(series@);
    let all = run_rows(r, run@, r.len() as int);
    let chosen = drawn(r, all, keys);
    let names = sorted_names(keys);
    let list = selected->Ok_0@;
    lemma_run_rows(r, run@, r.len() as int);
    lemma_drawn(r, all, keys);
    lemma_sorted_names(keys);
    assert forall|k: int| 0 <= k < list.len() implies {
        let row = r[#[trigger] list[k] as int];
        &&& list[k] < r.len()
        &&& row.run_id@ == run@
        &&& row.operation@ == if k % 2 == 0 {
            "recv_wake"@
        } else {
            "send_wake"@
        }
        &&& keys.contains(row.implementation@)
        &&& measured_alike(row, nth(r, chosen, 0))
        &&& k % 2 == 1 ==> row.implementation@ == r[list[k - 1] as int].implementation@
    } by {
        assert(chosen.contains(list[k]));
        let c = choose|c: int| 0 <= c < chosen.len() && chosen[c] == list[k];
        assert(comparable(nth(r, chosen, c), nth(r, chosen, 0)));
        if k % 2 == 1 {
            assert(chosen.contains(list[k - 1]));
            assert((k - 1) / 2 == k / 2);
        }
    }
    assert forall|k: int|
        #![trigger series@[k]]
        0 <= k < series@.len() implies exists|a: int|
        0 <= a < list.len() && r[#[trigger] list[a] as int].implementation@
            == series@[k].key@ by {
        assert(keys[k] == series@[k].key@);
        assert(keys.contains(keys[k]));
        assert(names.contains(keys[k]));
        let n = choose|n: int| 0 <= n < names.len() && names[n] == keys[k];
        assert(chosen.contains(list[2 * n]));
        assert((2 * n) / 2 == n);
        assert(r[list[2 * n] as int].implementation@ == series@[k].key@);
    }
    assert forall|i: int|
        0 <= i < r.len() && (#[trigger] r[i]).run_id@ == run@ && keys.contains(
            r[i].implementation@,
        ) implies list.contains(i as usize) by {
        assert(all.contains(i as usize));
        assert(chosen.contains(i as usize));
        let c = choose|c: int| 0 <= c < chosen.len() && chosen[c] == i as usize;
        assert(nth(r, chosen, c).operation@ == "recv_wake"@ || nth(r, chosen, c).operation@
            == "send_wake"@);
        assert(names.contains(r[i].implementation@));
        let n = choose|n: int| 0 <= n < names.len() && names[n] == r[i].implementation@;
        let a = if r[i].operation@ == "recv_wake"@ {
            2 * n
        } else {
            2 * n + 1
        };
        assert(a / 2 == n);
        assert(chosen.contains(list[a]));
        let b = choose|b: int| 0 <= b < chosen.len() && chosen[b] == list[a];
        if b < c {
            assert(measures(nth(r, chosen, b), nth(r, chosen, c).implementation@, nth(r, chosen, c).operation@));
        } else if c < b {
            assert(measures(nth(r, chosen, c), nth(r, chosen, b).implementation@, nth(r, chosen, b).operation@));
        }
        assert(list[a] == i as usize);
    }
}

/// A requested run is refused as not found exactly if no row is of it, and as
/// incomplete only otherwise: where its rows of the series were measured in
/// different ways, or one of them repeats another or measures neither side, or a
/// series lacks one side.
pub proof fn law_refused_run(
    rows: &[LatencyRow],
    series: &[Series],
    run: String,
    selected: Result<Vec<usize>, ChartError>,
)
    requires
        call_ensures(select_run, (rows, series, Some(run)), selected),
        rows@.len() <= usize::MAX,
    ensures
        selected is Err && selected->Err_0 is RunNotFound <==> forall|i: int|
            0 <= i < rows@.len() ==> (#[trigger] rows@[i]).run_id@ != run@,
        match selected {
            Ok(_) => true,
            Err(ChartError::RunNotFound(id)) => id@ == run@,
            Err(ChartError::RunIncomplete(id)) => id@ == run@ && !clean(rows@, series@, run@),
            Err(_) => false,
        },
{
    let r = rows@;
    let keys = keys_of(series@);
    let all = run_rows(r, run@, r.len() as int);
    let chosen = drawn(r, all, keys);
    lemma_run_rows(r, run@, r.len() as int);
    lemma_drawn(r, all, keys);
    if all.len() > 0 {
        assert(all.contains(all[0]));
        assert(r[all[0] as int].run_id@ == run@);
    } else {
        assert forall|i: int| 0 <= i < r.len() implies (#[trigger] r[i]).run_id@ != run@ by {
            assert(!all.contains(i as usize));
        }
    }
    if selected is Err && selected->Err_0 is RunIncomplete && clean(r, series@, run@) {
        lemma_run_is_rising(r, run@, r.len() as int);
        lemma_drawn_is_rising(r, all, keys);
        assert forall|k: int| 0 <= k < chosen.len() implies comparable(
            #[trigger] nth(r, chosen, k),
            nth(r, chosen, 0),
        ) && (nth(r, chosen, k).operation@ == "recv_wake"@ || nth(r, chosen, k).operation@
            == "send_wake"@) by {
            assert(chosen.contains(chosen[k]) && chosen.contains(chosen[0]));
            assert(in_series(r[chosen[k] as int], series@, run@));
            assert(in_series(r[chosen[0] as int], series@, run@));
        }
        assert forall|i: int, j: int| 0 <= i < j < chosen.len() implies !measures(
            #[trigger] nth(r, chosen, i),
            (#[trigger] nth(r, chosen, j)).implementation@,
            nth(r, chosen, j).operation@,
        ) by {
            assert(chosen.contains(chosen[i]) && chosen.contains(chosen[j]));
            assert(in_series(r[chosen[i] as int], series@, run@));
            assert(in_series(r[chosen[j] as int], series@, run@));
        }
        assert forall|k: int| 0 <= k < keys.len() implies has_measure(
            r,
            chosen,
            #[trigger] keys[k],
            "recv_wake"@,
        ) && has_measure(r, chosen, keys[k], "send_wake"@) by {
            assert(keys[k] == series@[k].key@);
            assert(keys.contains(keys[k]));
            assert(has_side(r, run@, keys[k], "recv_wake"@));
            assert(has_side(r, run@, keys[k], "send_wake"@));
            let x = choose|x: int|
                0 <= x < r.len() && (#[trigger] r[x]).run_id@ == run@ && r[x].implementation@
                    == keys[k] && r[x].operation@ == "recv_wake"@;
            let y = choose|y: int|
                0 <= y < r.len() && (#[trigger] r[y]).run_id@ == run@ && r[y].implementation@
                    == keys[k] && r[y].operation@ == "send_wake"@;
            assert(all.contains(x as usize) && all.contains(y as usize));
            assert(chosen.contains(x as usize) && chosen.contains(y as usize));
            let a = choose|a: int| 0 <= a < chosen.len() && chosen[a] == x as usize;
            let b = choose|b: int| 0 <= b < chosen.len() && chosen[b] == y as usize;
            assert(measures(nth(r, chosen, a), keys[k], "recv_wake"@));
            assert(measures(nth(r, chosen, b), keys[k], "send_wake"@));
        }
        assert(keys[0] == series@[0].key@);
        assert(has_measure(r, chosen, keys[0], "recv_wake"@));
    }
}

/// Whether a row is of a run and of one of the series.
pub open spec fn in_series(row: LatencyRow, series: Seq<Series>, run: Seq<char>) -> bool {
    row.run_id@ == run && keys_of(series).contains(row.implementation@)
}

/// Whether a run measured one side of an implementation.
pub open spec fn has_side(
    rows: Seq<LatencyRow>,
    run: Seq<char>,
    key: Seq<char>,
    operation: Seq<char>,
) -> bool {
    exists|i: int|
        0 <= i < rows.len() && (#[trigger] rows[i]).run_id@ == run && rows[i].implementation@ == key
            && rows[i].operation@ == operation
}

/// Whether the rows of a run make a chart: they measured both sides of every
/// series in the same way, each side once, and nothing else.
pub open spec fn clean(rows: Seq<LatencyRow>, series: Seq<Series>, run: Seq<char>) -> bool {
    &&& series.len() > 0
    &&& forall|k: int|
        0 <= k < series.len() ==> has_side(rows, run, (#[trigger] series[k]).key@, "recv_wake"@)
            && has_side(rows, run, series[k].key@, "send_wake"@)
    &&& forall|i: int|
        0 <= i < rows.len() && in_series(#[trigger] rows[i], series, run) ==> rows[i].operation@
            == "recv_wake"@ || rows[i].operation@ == "send_wake"@
    &&& forall|i: int, j: int|
        0 <= i < rows.len() && 0 <= j < rows.len() && in_series(#[trigger] rows[i], series, run)
            && in_series(#[trigger] rows[j], series, run) ==> measured_alike(rows[i], rows[j]) && (
        i != j ==> rows[i].implementation@ != rows[j].implementation@ || rows[i].operation@
            != rows[j].operation@)
}

/// The rows of a run stand in the order of the results.
proof fn lemma_run_is_rising(rows: Seq<LatencyRow>, run: Seq<char>, n: int)
    requires
        0 <= n <= rows.len() <= usize::MAX,
    ensures
        forall|j: int, k: int|
            0 <= j < k < run_rows(rows, run, n).len() ==> run_rows(rows, run, n)[j] < run_rows(
                rows,
                run,
                n,
            )[k],
    decreases n,
{
    if n > 0 {
        lemma_run_is_rising(rows, run, n - 1);
        lemma_run_rows(rows, run, n - 1);
        let earlier = run_rows(rows, run, n - 1);
        assert forall|k: int| 0 <= k < earlier.len() implies #[trigger] earlier[k] < n - 1 by {
            assert(earlier.contains(earlier[k]));
        }
    }
}

/// The drawn rows keep the order of the list.
proof fn lemma_drawn_is_rising(rows: Seq<LatencyRow>, list: Seq<usize>, keys: Seq<Seq<char>>)
    requires
        forall|j: int, k: int| 0 <= j < k < list.len() ==> list[j] < list[k],
    ensures
        forall|j: int, k: int|
            0 <= j < k < drawn(rows, list, keys).len() ==> drawn(rows, list, keys)[j] < drawn(
                rows,
                list,
                keys,
            )[k],
    decreases list.len(),
{
    if list.len() > 0 {
        let fewer = list.drop_last();
        lemma_drawn_is_rising(rows, fewer, keys);
        lemma_drawn(rows, fewer, keys);
        let earlier = drawn(rows, fewer, keys);
        assert forall|k: int| 0 <= k < earlier.len() implies #[trigger] earlier[k]
            < list.last() by {
            assert(earlier.contains(earlier[k]));
            let j = choose|j: int| 0 <= j < fewer.len() && fewer[j] == earlier[k];
            assert(list[j] == earlier[k]);
        }
    }
}

/// The bar of a series stands for the last of the rows that measured its
/// implementation, on the side that the bar is about.
pub proof fn law_bar_row(
    rows: &[LatencyRow],
    list: &[usize],
    series: &Series,
    metric: Metric,
    row: Option<usize>,
)
    requires
        call_ensures(bar_row, (rows, list, series, metric), row),
    ensures
        match row {
            Some(row) => exists|k: int|
                0 <= k < list@.len() && #[trigger] list@[k] == row && behind_bar(
                    rows@[row as int],
                    *series,
                    metric,
                ) && forall|j: int|
                    k < j < list@.len() ==> !behind_bar(
                        rows@[#[trigger] list@[j] as int],
                        *series,
                        metric,
                    ),
            None => forall|j: int|
                0 <= j < list@.len() ==> !behind_bar(
                    rows@[#[trigger] list@[j] as int],
                    *series,
                    metric,
                ),
        },
{
    lemma_last(rows@, list@, *series, metric);
}

/// Whether a row measured what a bar of a series is about.
pub open spec fn behind_bar(row: LatencyRow, series: Series, metric: Metric) -> bool {
    row.implementation@ == series.key@ && row.operation@ == match metric {
        Metric::RecvMedian => "recv_wake"@,
        Metric::RecvTail => "recv_wake"@,
        Metric::SendMedian => "send_wake"@,
        Metric::SendTail => "send_wake"@,
    }
}

/// The last row behind a bar.
proof fn lemma_last(rows: Seq<LatencyRow>, list: Seq<usize>, series: Series, metric: Metric)
    ensures
        match last_measure(rows, list, series.key@, metric.operation_name()) {
            Some(row) => exists|k: int|
                0 <= k < list.len() && #[trigger] list[k] == row && behind_bar(
                    rows[row as int],
                    series,
                    metric,
                ) && forall|j: int|
                    k < j < list.len() ==> !behind_bar(
                        rows[#[trigger] list[j] as int],
                        series,
                        metric,
                    ),
            None => forall|j: int|
                0 <= j < list.len() ==> !behind_bar(
                    rows[#[trigger] list[j] as int],
                    series,
                    metric,
                ),
        },
    decreases list.len(),
{
    if list.len() > 0 {
        let fewer = list.drop_last();
        lemma_last(rows, fewer, series, metric);
        if behind_bar(rows[list.last() as int], series, metric) {
            assert(list[list.len() - 1] == list.last());
        } else {
            match last_measure(rows, fewer, series.key@, metric.operation_name()) {
                Some(row) => {
                    let k = choose|k: int|
                        0 <= k < fewer.len() && #[trigger] fewer[k] == row && behind_bar(
                            rows[row as int],
                            series,
                            metric,
                        ) && forall|j: int|
                            k < j < fewer.len() ==> !behind_bar(
                                rows[#[trigger] fewer[j] as int],
                                series,
                                metric,
                            );
                    assert(list[k] == row);
                    assert forall|j: int| k < j < list.len() implies !behind_bar(
                        rows[#[trigger] list[j] as int],
                        series,
                        metric,
                    ) by {
                        if j < fewer.len() {
                            assert(fewer[j] == list[j]);
                        }
                    }
                },
                None => {
                    assert forall|j: int| 0 <= j < list.len() implies !behind_bar(
                        rows[#[trigger] list[j] as int],
                        series,
                        metric,
                    ) by {
                        if j < fewer.len() {
                            assert(fewer[j] == list[j]);
                        }
                    }
                },
            }
        }
    }
}

/// The number of a run is read digit by digit: one more digit makes ten times the
/// number and the digit, if that fits. A plus sign in front changes nothing, and
/// a name with any other character, or with nothing but a plus sign, has number
/// zero.
pub proof fn law_number_of_run(
    id: &str,
    longer: &str,
    signed: &str,
    number: u128,
    larger: u128,
    same: u128,
    c: char,
)
    requires
        call_ensures(number_of_run, (id,), number),
        call_ensures(number_of_run, (longer,), larger),
        call_ensures(number_of_run, (signed,), same),
        longer@ == id@.push(c),
        signed@ == seq!['+'] + id@,
    ensures
        id@.len() == 0 ==> number == 0,
        (exists|k: int| 0 <= k < id@.len() && !('0' <= #[trigger] id@[k] <= '9') && (k > 0
            || id@[k] != '+')) ==> number == 0,
        id@.len() > 0 && id@[0] != '+' ==> same == number,
        '0' <= c <= '9' && (forall|k: int|
            0 <= k < id@.len() ==> '0' <= #[trigger] id@[k] <= '9') && digits_fit(id@) && number
            * 10 + (c as int - '0' as int) <= u128::MAX ==> larger == number * 10 + (c as int
            - '0' as int),
{
    assert(signed@.skip(1) =~= id@);
    assert(longer@.drop_last() =~= id@);
    assert(longer@.last() == c);
    if id@.len() > 0 && id@[0] == '+' {
        assert(longer@[0] == id@[0]);
    }
    if exists|k: int| 0 <= k < id@.len() && !('0' <= #[trigger] id@[k] <= '9') && (k > 0 || id@[k]
        != '+') {
        let k = choose|k: int|
            0 <= k < id@.len() && !('0' <= #[trigger] id@[k] <= '9') && (k > 0 || id@[k] != '+');
        if id@[0] == '+' {
            assert(id@.skip(1)[k - 1] == id@[k]);
        }
    }
    if '0' <= c <= '9' && forall|k: int| 0 <= k < id@.len() ==> '0' <= #[trigger] id@[k] <= '9' {
        assert forall|k: int| 0 <= k < longer@.len() implies '0' <= #[trigger] longer@[k] <= '9' by {
            if k < id@.len() {
                assert(longer@[k] == id@[k]);
            }
        }
        assert(longer@[0] != '+');
    }
}

/// Whether the number that some digits make fits.
pub open spec fn digits_fit(s: Seq<char>) -> bool {
    digits_value(s) <= u128::MAX
}

} // verus!
