//! What a throughput chart shows, in plain terms: which rows it takes from the
//! results, and what they have in common.
use vstd::prelude::*;

use super::combination::{
    all_groups, combined, complete_groups, implementation_of, run_rows, runs,
    select_run_with_default_mode, wanted, ChartError,
};
use super::laws::{
    law_default_chart_is_broadest, law_default_chart_is_uniform,
    law_default_chart_shows_the_newest, law_default_chart_shows_whole_groups, reference_group,
    shown_groups, shown_names, whole,
};
use super::names::{lemma_sorted_names, sorted_names};
use super::rows::Row;
use super::selection::{
    at, complete, groups_of, has_sample, implementations, of_implementation, opens, run_is_complete,
    same_configuration, sampled,
};
use super::shape::{agree, configuration, configurations, same_shape, uniform};
use super::words::{lemma_irreflexive, precedes};

verus! {

/// Whether a row belongs to a run, and was measured in the mode, if one is asked for.
pub open spec fn belongs(row: Row, mode: Option<Seq<char>>, run: Seq<char>) -> bool {
    row.run_id@ == run && (mode is None || row.mode@ == mode->Some_0)
}

/// Whether two rows were measured on the same machine in the same way.
pub open spec fn measured_alike(a: Row, b: Row) -> bool {
    &&& a.cpu@ == b.cpu@
    &&& a.affinity@ == b.affinity@
    &&& a.mode@ == b.mode@
    &&& a.nominal_capacity == b.nominal_capacity
    &&& a.throughput_profile@ == b.throughput_profile@
    &&& a.low_watermark == b.low_watermark
    &&& a.high_watermark == b.high_watermark
    &&& a.samples == b.samples
}

/// Whether two rows measured the same payload with the same threads.
pub open spec fn loaded_alike(a: Row, b: Row) -> bool {
    &&& a.payload@ == b.payload@
    &&& a.payload_bytes == b.payload_bytes
    &&& a.producers == b.producers
    &&& a.consumers == b.consumers
}

/// Whether two rows are samples of the same measurement.
pub open spec fn sampled_alike(a: Row, b: Row) -> bool {
    &&& a.implementation@ == b.implementation@
    &&& a.payload@ == b.payload@
    &&& a.producers == b.producers
    &&& a.consumers == b.consumers
}

/// The rows of a run are those that belong to it, in order.
proof fn lemma_run(rows: Seq<Row>, mode: Option<Seq<char>>, run: Seq<char>, n: int)
    requires
        0 <= n <= rows.len() <= usize::MAX,
    ensures
        forall|i: usize| #[trigger]
            run_rows(rows, mode, run, n).contains(i) <==> i < n && belongs(
                rows[i as int],
                mode,
                run,
            ),
        forall|j: int, k: int|
            0 <= j < k < run_rows(rows, mode, run, n).len() ==> run_rows(rows, mode, run, n)[j]
                < run_rows(rows, mode, run, n)[k],
        forall|k: int|
            0 <= k < run_rows(rows, mode, run, n).len() ==> #[trigger] run_rows(
                rows,
                mode,
                run,
                n,
            )[k] < n,
    decreases n,
{
    if n > 0 {
        lemma_run(rows, mode, run, n - 1);
        let earlier = run_rows(rows, mode, run, n - 1);
        let all = run_rows(rows, mode, run, n);
        assert forall|i: usize| #[trigger] all.contains(i) <==> i < n && belongs(
            rows[i as int],
            mode,
            run,
        ) by {
            if all.contains(i) {
                let k = choose|k: int| 0 <= k < all.len() && all[k] == i;
                if k < earlier.len() {
                    assert(earlier[k] == i);
                    assert(earlier.contains(i));
                }
            }
            if i < n && belongs(rows[i as int], mode, run) {
                if i < n - 1 {
                    assert(earlier.contains(i));
                    let k = choose|k: int| 0 <= k < earlier.len() && earlier[k] == i;
                    assert(all[k] == i);
                } else {
                    assert(all[all.len() - 1] == i);
                }
            }
        }
    }
}

/// The rows of an implementation are those of the list with its name, in order.
proof fn lemma_of_name(rows: Seq<Row>, list: Seq<usize>, name: Seq<char>)
    ensures
        forall|i: usize| #[trigger]
            of_implementation(rows, list, name).contains(i) <==> list.contains(i)
                && rows[i as int].implementation@ == name,
    decreases list.len(),
{
    if list.len() > 0 {
        let fewer = list.drop_last();
        let earlier = of_implementation(rows, fewer, name);
        let all = of_implementation(rows, list, name);
        lemma_of_name(rows, fewer, name);
        assert forall|i: usize| #[trigger] all.contains(i) <==> list.contains(i)
            && rows[i as int].implementation@ == name by {
            if all.contains(i) {
                let k = choose|k: int| 0 <= k < all.len() && all[k] == i;
                if k < earlier.len() {
                    assert(earlier[k] == i);
                    assert(earlier.contains(i));
                    let j = choose|j: int| 0 <= j < fewer.len() && fewer[j] == i;
                    assert(list[j] == i);
                } else {
                    assert(list[list.len() - 1] == i);
                }
            }
            if list.contains(i) && rows[i as int].implementation@ == name {
                let j = choose|j: int| 0 <= j < list.len() && list[j] == i;
                if j < fewer.len() {
                    assert(fewer[j] == i);
                    assert(earlier.contains(i));
                    let k = choose|k: int| 0 <= k < earlier.len() && earlier[k] == i;
                    assert(all[k] == i);
                } else {
                    assert(all[all.len() - 1] == i);
                }
            }
        }
    }
}

/// What is in one of several lists is in all of them together.
proof fn lemma_flat(groups: Seq<Seq<usize>>)
    ensures
        forall|i: usize| #[trigger]
            groups.flatten().contains(i) <==> exists|k: int|
                0 <= k < groups.len() && (#[trigger] groups[k]).contains(i),
    decreases groups.len(),
{
    if groups.len() > 0 {
        let rest = groups.drop_first();
        lemma_flat(rest);
        let all = groups.flatten();
        let first = groups.first();
        assert forall|i: usize| #[trigger] all.contains(i) <==> exists|k: int|
            0 <= k < groups.len() && (#[trigger] groups[k]).contains(i) by {
            if all.contains(i) {
                let p = choose|p: int| 0 <= p < all.len() && all[p] == i;
                if p < first.len() {
                    assert(first[p] == i);
                    assert(groups[0].contains(i));
                } else {
                    assert(rest.flatten()[p - first.len()] == i);
                    assert(rest.flatten().contains(i));
                    let k = choose|k: int| 0 <= k < rest.len() && (#[trigger] rest[k]).contains(i);
                    assert(groups[k + 1] == rest[k]);
                }
            }
            if exists|k: int| 0 <= k < groups.len() && (#[trigger] groups[k]).contains(i) {
                let k = choose|k: int| 0 <= k < groups.len() && (#[trigger] groups[k]).contains(i);
                if k == 0 {
                    let p = choose|p: int| 0 <= p < first.len() && first[p] == i;
                    assert(all[p] == i);
                } else {
                    assert(rest[k - 1] == groups[k]);
                    assert(rest.flatten().contains(i));
                    let p = choose|p: int| 0 <= p < rest.flatten().len() && rest.flatten()[p] == i;
                    assert(all[first.len() + p] == i);
                }
            }
        }
    } else {
        assert(groups.flatten() =~= Seq::<usize>::empty());
    }
}

/// Whether a list shows the row at place `i` of the results.
pub open spec fn shows(list: Seq<usize>, i: int) -> bool {
    exists|k: int| 0 <= k < list.len() && #[trigger] list[k] == i
}

/// Where a shown row comes from: the group of its implementation in one complete run.
proof fn lemma_shown(rows: Seq<Row>, mode: Option<Seq<char>>, i: usize) -> (found: (int, Seq<char>))
    requires
        rows.len() <= usize::MAX,
        combined(rows, mode) is Some,
        combined(rows, mode)->Some_0.contains(i),
    ensures
        ({
            let (k, run) = found;
            let group = shown_groups(rows, mode)[k];
            &&& 0 <= k < shown_groups(rows, mode).len()
            &&& group.contains(i)
            &&& i < rows.len()
            &&& belongs(rows[i as int], mode, run)
            &&& rows[i as int].implementation@ == shown_names(rows, mode)[k]
            &&& group == of_implementation(
                rows,
                run_rows(rows, mode, run, rows.len() as int),
                rows[i as int].implementation@,
            )
            &&& complete(rows, run_rows(rows, mode, run, rows.len() as int))
            &&& runs(rows, mode, rows.len() as int).contains(run)
        }),
{
    law_default_chart_shows_whole_groups(rows, mode);
    let groups = shown_groups(rows, mode);
    lemma_flat(groups);
    let k = choose|k: int| 0 <= k < groups.len() && (#[trigger] groups[k]).contains(i);
    let group = groups[k];
    assert(whole(rows, mode, group));
    let run = choose|run: Seq<char>|
        {
            &&& #[trigger] runs(rows, mode, rows.len() as int).contains(run)
            &&& complete(rows, run_rows(rows, mode, run, rows.len() as int))
            &&& group == of_implementation(
                rows,
                run_rows(rows, mode, run, rows.len() as int),
                implementation_of(rows, group),
            )
        };
    lemma_run(rows, mode, run, rows.len() as int);
    lemma_of_name(
        rows,
        run_rows(rows, mode, run, rows.len() as int),
        implementation_of(rows, group),
    );
    (k, run)
}

/// A default chart never mixes results: all its rows were measured on the same
/// machine with the same pinning, mode, capacity, occupancy and number of samples.
/// Each implementation is shown with all its rows of one run, in the mode that was
/// asked for, if any.
pub proof fn law_default_chart_compares_like_with_like(
    rows: &[Row],
    mode: Option<&str>,
    selected: Result<Vec<usize>, ChartError>,
    i: int,
    j: int,
)
    requires
        call_ensures(select_run_with_default_mode, (rows, None, mode), selected),
        selected is Ok,
        rows@.len() <= usize::MAX,
        shows(selected->Ok_0@, i),
        shows(selected->Ok_0@, j),
    ensures
        0 <= i < rows@.len(),
        measured_alike(rows@[i], rows@[j]),
        rows@[i].implementation@ == rows@[j].implementation@ ==> rows@[i].run_id@
            == rows@[j].run_id@,
        mode matches Some(mode) ==> rows@[i].mode@ == mode@,
        forall|other: int|
            0 <= other < rows@.len() && (#[trigger] rows@[other]).run_id@ == rows@[i].run_id@
                && rows@[other].implementation@ == rows@[i].implementation@ && (mode matches Some(
                mode,
            ) ==> rows@[other].mode@ == mode@) ==> shows(selected->Ok_0@, other),
{
    let list = selected->Ok_0@;
    let m = wanted(mode);
    let a = choose|k: int| 0 <= k < list.len() && #[trigger] list[k] == i;
    let b = choose|k: int| 0 <= k < list.len() && #[trigger] list[k] == j;
    law_default_chart_is_uniform(rows@, m, a, b);
    assert(list.contains(i as usize)) by {
        assert(list[a] == i as usize);
    }
    assert(list.contains(j as usize)) by {
        assert(list[b] == j as usize);
    }
    let (k, run) = lemma_shown(rows@, m, i as usize);
    let (l, other_run) = lemma_shown(rows@, m, j as usize);
    law_default_chart_shows_whole_groups(rows@, m);
    if rows@[i].implementation@ == rows@[j].implementation@ {
        let names = shown_names(rows@, m);
        if k != l {
            if k < l {
                assert(precedes(names[k], names[l]));
            } else {
                assert(precedes(names[l], names[k]));
            }
            lemma_irreflexive(names[k]);
        }
        lemma_run(rows@, m, run, rows@.len() as int);
        lemma_of_name(
            rows@,
            run_rows(rows@, m, run, rows@.len() as int),
            rows@[i].implementation@,
        );
        assert(shown_groups(rows@, m)[k].contains(j as usize));
    }
    assert forall|other: int|
        0 <= other < rows@.len() && (#[trigger] rows@[other]).run_id@ == rows@[i].run_id@
            && rows@[other].implementation@ == rows@[i].implementation@ && (mode matches Some(
            mode,
        ) ==> rows@[other].mode@ == mode@) implies shows(list, other) by {
        let o = other as usize;
        lemma_run(rows@, m, run, rows@.len() as int);
        lemma_of_name(
            rows@,
            run_rows(rows@, m, run, rows@.len() as int),
            rows@[i].implementation@,
        );
        assert(run_rows(rows@, m, run, rows@.len() as int).contains(o));
        assert(shown_groups(rows@, m)[k].contains(o));
        lemma_flat(shown_groups(rows@, m));
        assert(list.contains(o));
        let p = choose|p: int| 0 <= p < list.len() && list[p] == o;
        assert(list[p] == other);
    }
}

/// Whether the results hold sample `s` of the measurement of row `i`, among the
/// rows of a list.
pub open spec fn holds_sample(rows: Seq<Row>, list: Seq<usize>, i: int, s: int) -> bool {
    exists|k: int|
        0 <= k < list.len() && sampled_alike(rows[#[trigger] list[k] as int], rows[i])
            && rows[list[k] as int].sample == s
}

/// Whether no row before place `k` of a list is of the same measurement.
pub open spec fn begins(rows: Seq<Row>, list: Seq<usize>, k: int) -> bool {
    forall|j: int|
        0 <= j < k ==> !sampled_alike(
            rows[#[trigger] list[j] as int],
            rows[list[k] as int],
        )
}

/// A list of rows is complete exactly if it has rows, as many as each of them
/// expects where the first expects any, and every measurement in it has all the
/// samples that its first row announces, at least one, and no others.
pub proof fn law_run_is_complete(rows: &[Row], list: &[usize], all: bool)
    requires
        call_ensures(run_is_complete, (rows, list), all),
        forall|k: int| 0 <= k < list@.len() ==> (#[trigger] list@[k]) < rows@.len(),
    ensures
        all <==> {
            &&& list@.len() > 0
            &&& rows@[list@[0] as int].expected_rows == 0 || forall|k: int|
                0 <= k < list@.len() ==> rows@[#[trigger] list@[k] as int].expected_rows
                    == list@.len()
            &&& forall|k: int|
                0 <= k < list@.len() && #[trigger] begins(rows@, list@, k) ==> {
                    let first = rows@[list@[k] as int];
                    &&& first.samples > 0
                    &&& forall|s: int|
                        0 <= s < first.samples ==> #[trigger] holds_sample(
                            rows@,
                            list@,
                            list@[k] as int,
                            s,
                        )
                    &&& forall|j: int|
                        0 <= j < list@.len() && sampled_alike(
                            rows@[#[trigger] list@[j] as int],
                            first,
                        ) ==> rows@[list@[j] as int].sample < first.samples
                }
        },
{
    let r = rows@;
    let l = list@;
    assert forall|k: int| 0 <= k < l.len() implies #[trigger] begins(r, l, k) == opens(
        r,
        l,
        k,
    ) by {
        assert forall|j: int| 0 <= j < k implies sampled_alike(
            r[#[trigger] l[j] as int],
            r[l[k] as int],
        ) == same_configuration(at(r, l, j), at(r, l, k)) by {}
        if begins(r, l, k) {
            assert forall|j: int| 0 <= j < k implies !same_configuration(
                #[trigger] at(r, l, j),
                at(r, l, k),
            ) by {
                assert(!sampled_alike(r[l[j] as int], r[l[k] as int]));
            }
        }
        if opens(r, l, k) {
            assert forall|j: int| 0 <= j < k implies !sampled_alike(
                r[#[trigger] l[j] as int],
                r[l[k] as int],
            ) by {
                assert(!same_configuration(at(r, l, j), at(r, l, k)));
            }
        }
    }
    assert forall|k: int, s: int| 0 <= k < l.len() implies #[trigger] has_sample(r, l, k, s)
        == holds_sample(r, l, l[k] as int, s) by {
        if has_sample(r, l, k, s) {
            let j = choose|j: int|
                0 <= j < l.len() && same_configuration(#[trigger] at(r, l, j), at(r, l, k)) && at(
                    r,
                    l,
                    j,
                ).sample == s;
            assert(sampled_alike(r[l[j] as int], r[l[k] as int]));
        }
        if holds_sample(r, l, l[k] as int, s) {
            let j = choose|j: int|
                0 <= j < l.len() && sampled_alike(r[#[trigger] l[j] as int], r[l[k] as int])
                    && r[l[j] as int].sample == s;
            assert(same_configuration(at(r, l, j), at(r, l, k)));
        }
    }
    if all {
        assert forall|k: int| 0 <= k < l.len() && #[trigger] begins(r, l, k) implies {
            let first = r[l[k] as int];
            &&& first.samples > 0
            &&& forall|s: int|
                0 <= s < first.samples ==> #[trigger] holds_sample(r, l, l[k] as int, s)
            &&& forall|j: int|
                0 <= j < l.len() && sampled_alike(r[#[trigger] l[j] as int], first)
                    ==> r[l[j] as int].sample < first.samples
        } by {
            assert(opens(r, l, k));
            assert(sampled(r, l, k));
            let first = r[l[k] as int];
            assert forall|s: int| 0 <= s < first.samples implies #[trigger] holds_sample(
                r,
                l,
                l[k] as int,
                s,
            ) by {
                assert(has_sample(r, l, k, s));
            }
            assert forall|j: int|
                0 <= j < l.len() && sampled_alike(r[#[trigger] l[j] as int], first) implies r[l[j] as int].sample
                < first.samples by {
                assert(same_configuration(at(r, l, j), at(r, l, k)));
            }
        }
        if r[l[0] as int].expected_rows != 0 {
            assert forall|k: int| 0 <= k < l.len() implies r[#[trigger] l[k] as int].expected_rows
                == l.len() by {
                assert(at(r, l, k).expected_rows == at(r, l, 0).expected_rows);
            }
        }
    } else if l.len() > 0 && (r[l[0] as int].expected_rows == 0 || forall|k: int|
        0 <= k < l.len() ==> r[#[trigger] l[k] as int].expected_rows == l.len()) {
        if r[l[0] as int].expected_rows != 0 {
            assert forall|k: int| 0 <= k < l.len() implies (#[trigger] at(r, l, k)).expected_rows
                == at(r, l, 0).expected_rows by {
                assert(r[l[k] as int].expected_rows == l.len());
                assert(r[l[0] as int].expected_rows == l.len());
            }
        }
        let k = choose|k: int|
            0 <= k < l.len() && #[trigger] opens(r, l, k) && !sampled(r, l, k);
        assert(begins(r, l, k));
        let first = r[l[k] as int];
        if first.samples > 0 {
            if exists|s: int| 0 <= s < first.samples && !(#[trigger] has_sample(r, l, k, s)) {
                let s = choose|s: int|
                    0 <= s < first.samples && !(#[trigger] has_sample(r, l, k, s));
                assert(!holds_sample(r, l, l[k] as int, s));
            } else {
                let j = choose|j: int|
                    0 <= j < l.len() && same_configuration(#[trigger] at(r, l, j), at(r, l, k))
                        && !(at(r, l, j).sample < first.samples);
                assert(sampled_alike(r[l[j] as int], first));
            }
        }
    }
}

/// Whether the rows of a run, as far as they are in the mode, are complete.
pub open spec fn is_complete(rows: Seq<Row>, mode: Option<Seq<char>>, run: Seq<char>) -> bool {
    complete(rows, run_rows(rows, mode, run, rows.len() as int))
}

/// The rows of a run are found, if it has any, exactly if they are complete, and
/// then all of them are shown, in the order of the results.
pub proof fn law_requested_run(
    rows: &[Row],
    run: String,
    mode: Option<&str>,
    selected: Result<Vec<usize>, ChartError>,
)
    requires
        call_ensures(select_run_with_default_mode, (rows, Some(run), mode), selected),
        rows@.len() <= usize::MAX,
    ensures
        match selected {
            Ok(list) => {
                &&& forall|i: int|
                    shows(list@, i) <==> 0 <= i < rows@.len() && (#[trigger] rows@[i]).run_id@
                        == run@
                &&& forall|j: int, k: int| 0 <= j < k < list@.len() ==> list@[j] < list@[k]
                &&& is_complete(rows@, None, run@)
            },
            Err(ChartError::RunNotFound(id)) => id@ == run@ && forall|i: int|
                0 <= i < rows@.len() ==> (#[trigger] rows@[i]).run_id@ != run@,
            Err(ChartError::RunIncomplete(id)) => {
                &&& id@ == run@
                &&& exists|i: int| 0 <= i < rows@.len() && (#[trigger] rows@[i]).run_id@ == run@
                &&& !is_complete(rows@, None, run@)
            },
            Err(_) => false,
        },
{
    let all = run_rows(rows@, None, run@, rows@.len() as int);
    lemma_run(rows@, None, run@, rows@.len() as int);
    assert forall|i: int|
        0 <= i < rows@.len() && (#[trigger] rows@[i]).run_id@ == run@ implies all.contains(
        i as usize,
    ) by {
        assert(belongs(rows@[i], None, run@));
    }
    match selected {
        Ok(list) => {
            assert forall|i: int|
                shows(list@, i) <==> 0 <= i < rows@.len() && (#[trigger] rows@[i]).run_id@
                    == run@ by {
                if shows(list@, i) {
                    let k = choose|k: int| 0 <= k < list@.len() && #[trigger] list@[k] == i;
                    assert(all.contains(list@[k]));
                }
                if 0 <= i < rows@.len() && rows@[i].run_id@ == run@ {
                    let k = choose|k: int| 0 <= k < all.len() && all[k] == i as usize;
                    assert(list@[k] == i);
                }
            }
        },
        Err(ChartError::RunNotFound(id)) => {
            assert forall|i: int| 0 <= i < rows@.len() implies (#[trigger] rows@[i]).run_id@
                != run@ by {}
        },
        Err(ChartError::RunIncomplete(id)) => {
            assert(all.contains(all[0]));
            assert(rows@[all[0] as int].run_id@ == run@);
        },
        Err(_) => {},
    }
}

/// A measurement that a default chart shows is shown with every sample, and with
/// no sample beyond the number that were taken.
pub proof fn law_default_chart_shows_every_sample(
    rows: &[Row],
    mode: Option<&str>,
    selected: Result<Vec<usize>, ChartError>,
    i: int,
    s: int,
)
    requires
        call_ensures(select_run_with_default_mode, (rows, None, mode), selected),
        selected is Ok,
        rows@.len() <= usize::MAX,
        shows(selected->Ok_0@, i),
    ensures
        rows@[i].sample < rows@[i].samples,
        0 <= s < rows@[i].samples ==> holds_sample(rows@, selected->Ok_0@, i, s),
{
    let r = rows@;
    let list = selected->Ok_0@;
    let m = wanted(mode);
    let a = choose|k: int| 0 <= k < list.len() && #[trigger] list[k] == i;
    assert(list.contains(list[a]));
    let (g, run) = lemma_shown(r, m, i as usize);
    let all = run_rows(r, m, run, r.len() as int);
    lemma_run(r, m, run, r.len() as int);
    lemma_of_name(r, all, r[i].implementation@);
    assert(all.contains(i as usize));
    let place = choose|k: int| 0 <= k < all.len() && all[k] == i as usize;
    let first = lemma_first(r, all, place);
    assert(all.contains(all[first]));
    let o = all[first] as int;
    assert(sampled(r, all, first));
    law_default_chart_compares_like_with_like(rows, mode, selected, i, i);
    assert(r[o].run_id@ == r[i].run_id@);
    assert(shows(list, o));
    law_default_chart_compares_like_with_like(rows, mode, selected, i, o);
    assert(same_configuration(at(r, all, place), at(r, all, first)));
    if 0 <= s < r[i].samples {
        assert(has_sample(r, all, first, s));
        let j = choose|j: int|
            0 <= j < all.len() && same_configuration(#[trigger] at(r, all, j), at(r, all, first))
                && at(r, all, j).sample == s;
        assert(all.contains(all[j]));
        let other = all[j] as int;
        assert(r[other].run_id@ == r[i].run_id@);
        assert(shows(list, other));
        let b = choose|k: int| 0 <= k < list.len() && #[trigger] list[k] == other;
        assert(sampled_alike(r[list[b] as int], r[i]));
    }
}

/// The first row of a measurement.
proof fn lemma_first(rows: Seq<Row>, list: Seq<usize>, k: int) -> (first: int)
    requires
        0 <= k < list.len(),
    ensures
        0 <= first <= k,
        opens(rows, list, first),
        same_configuration(at(rows, list, first), at(rows, list, k)),
    decreases k,
{
    if opens(rows, list, k) {
        k
    } else {
        let j = choose|j: int|
            0 <= j < k && same_configuration(#[trigger] at(rows, list, j), at(rows, list, k));
        lemma_first(rows, list, j)
    }
}

/// Whether a list shows the load of row `i` for an implementation.
pub open spec fn shows_load(rows: Seq<Row>, list: Seq<usize>, name: Seq<char>, i: int) -> bool {
    exists|k: int|
        0 <= k < list.len() && rows[#[trigger] list[k] as int].implementation@ == name
            && loaded_alike(rows[list[k] as int], rows[i])
}

/// Every implementation of a default chart is shown under every load that the
/// chart shows.
pub proof fn law_default_chart_has_no_gaps(
    rows: &[Row],
    mode: Option<&str>,
    selected: Result<Vec<usize>, ChartError>,
    i: int,
    j: int,
)
    requires
        call_ensures(select_run_with_default_mode, (rows, None, mode), selected),
        selected is Ok,
        rows@.len() <= usize::MAX,
        shows(selected->Ok_0@, i),
        shows(selected->Ok_0@, j),
    ensures
        shows_load(rows@, selected->Ok_0@, rows@[i].implementation@, j),
{
    let r = rows@;
    let list = selected->Ok_0@;
    let m = wanted(mode);
    let a = choose|k: int| 0 <= k < list.len() && #[trigger] list[k] == i;
    let b = choose|k: int| 0 <= k < list.len() && #[trigger] list[k] == j;
    assert(list.contains(list[a]) && list.contains(list[b]));
    let (g, run) = lemma_shown(r, m, i as usize);
    let (h, other_run) = lemma_shown(r, m, j as usize);
    law_default_chart_is_broadest(r, m);
    law_default_chart_shows_whole_groups(r, m);
    let mine = shown_groups(r, m)[g];
    let other = shown_groups(r, m)[h];
    assert(configurations(r, mine) == configurations(r, other));
    lemma_configurations(r, mine, configuration(r[j]));
    lemma_configurations(r, other, configuration(r[j]));
    let p = choose|p: int| 0 <= p < other.len() && other[p] == j as usize;
    assert(configuration(at(r, other, p)) == configuration(r[j]));
    let q = choose|q: int|
        0 <= q < mine.len() && configuration(#[trigger] at(r, mine, q)) == configuration(r[j]);
    assert(mine.contains(mine[q]));
    lemma_flat(shown_groups(r, m));
    assert(list.contains(mine[q]));
    let k = choose|k: int| 0 <= k < list.len() && list[k] == mine[q];
    lemma_run(r, m, run, r.len() as int);
    lemma_of_name(r, run_rows(r, m, run, r.len() as int), r[i].implementation@);
    assert(r[list[k] as int].implementation@ == r[i].implementation@);
    assert(loaded_alike(r[list[k] as int], r[j]));
}

/// The configurations of a list are those of its rows.
proof fn lemma_configurations(
    rows: Seq<Row>,
    list: Seq<usize>,
    load: (Seq<char>, usize, usize, Option<usize>),
)
    ensures
        configurations(rows, list).contains(load) <==> exists|k: int|
            0 <= k < list.len() && configuration(#[trigger] at(rows, list, k)) == load,
{
    let all = Seq::new(list.len(), |k: int| configuration(at(rows, list, k)));
    if configurations(rows, list).contains(load) {
        let k = choose|k: int| 0 <= k < all.len() && all[k] == load;
        assert(configuration(at(rows, list, k)) == load);
    }
    if exists|k: int|
        0 <= k < list.len() && configuration(#[trigger] at(rows, list, k)) == load {
        let k = choose|k: int|
            0 <= k < list.len() && configuration(#[trigger] at(rows, list, k)) == load;
        assert(all[k] == load);
    }
}

/// Every run with a row in the mode is among the runs, and every one of those has
/// such a row.
proof fn lemma_runs(rows: Seq<Row>, mode: Option<Seq<char>>, n: int, run: Seq<char>)
    requires
        0 <= n <= rows.len(),
    ensures
        runs(rows, mode, n).contains(run) <==> exists|p: int|
            0 <= p < n && #[trigger] belongs(rows[p], mode, run),
    decreases n,
{
    if n > 0 {
        lemma_runs(rows, mode, n - 1, run);
        let earlier = runs(rows, mode, n - 1);
        let all = runs(rows, mode, n);
        if all.contains(run) {
            let k = choose|k: int| 0 <= k < all.len() && all[k] == run;
            if k < earlier.len() {
                assert(earlier[k] == run);
                assert(earlier.contains(run));
            } else {
                assert(belongs(rows[n - 1], mode, run));
            }
        }
        if exists|p: int| 0 <= p < n && #[trigger] belongs(rows[p], mode, run) {
            let p = choose|p: int| 0 <= p < n && #[trigger] belongs(rows[p], mode, run);
            if earlier.contains(run) {
                let k = choose|k: int| 0 <= k < earlier.len() && earlier[k] == run;
                assert(all[k] == run);
            } else {
                assert(p == n - 1);
                assert(all[all.len() - 1] == run);
            }
        }
    }
}

/// Whether row `p` belongs to one run and stands before every row of another, or
/// is the first row of both.
pub open spec fn leads(
    rows: Seq<Row>,
    mode: Option<Seq<char>>,
    n: int,
    p: int,
    run: Seq<char>,
    other: Seq<char>,
) -> bool {
    &&& 0 <= p < n
    &&& belongs(rows[p], mode, run)
    &&& forall|q: int| 0 <= q < n && #[trigger] belongs(rows[q], mode, other) ==> p <= q
}

/// The runs stand in order of their first rows.
proof fn lemma_order(rows: Seq<Row>, mode: Option<Seq<char>>, n: int, a: int, c: int) -> (p: int)
    requires
        0 <= n <= rows.len(),
        0 <= a <= c < runs(rows, mode, n).len(),
    ensures
        leads(rows, mode, n, p, runs(rows, mode, n)[a], runs(rows, mode, n)[c]),
    decreases n,
{
    let earlier = runs(rows, mode, n - 1);
    let all = runs(rows, mode, n);
    if c < earlier.len() {
        let p = lemma_order(rows, mode, n - 1, a, c);
        assert(all[a] == earlier[a] && all[c] == earlier[c]);
        p
    } else {
        lemma_runs(rows, mode, n - 1, all[c]);
        assert(belongs(rows[n - 1], mode, all[c]));
        if a == c {
            n - 1
        } else {
            assert(all[a] == earlier[a]);
            lemma_order(rows, mode, n - 1, a, a)
        }
    }
}

/// Every group of a complete run stands among the groups of that run.
proof fn lemma_group(
    rows: Seq<Row>,
    mode: Option<Seq<char>>,
    ids: Seq<Seq<char>>,
    a: int,
    i: usize,
) -> (g: int)
    requires
        rows.len() <= usize::MAX,
        0 <= a < ids.len(),
        is_complete(rows, mode, ids[a]),
        i < rows.len(),
        belongs(rows[i as int], mode, ids[a]),
    ensures
        complete_groups(rows, mode, ids.take(a)).len() <= g < complete_groups(
            rows,
            mode,
            ids,
        ).len(),
        complete_groups(rows, mode, ids)[g] == of_implementation(
            rows,
            run_rows(rows, mode, ids[a], rows.len() as int),
            rows[i as int].implementation@,
        ),
    decreases ids.len(),
{
    let fewer = ids.drop_last();
    let earlier = complete_groups(rows, mode, fewer);
    if a < fewer.len() {
        assert(fewer[a] == ids[a]);
        assert(fewer.take(a) =~= ids.take(a));
        let g = lemma_group(rows, mode, fewer, a, i);
        assert(complete_groups(rows, mode, ids)[g] == earlier[g]);
        g
    } else {
        assert(ids.take(a) =~= fewer);
        let run = run_rows(rows, mode, ids[a], rows.len() as int);
        let all = implementations(rows, run);
        let names = sorted_names(all);
        lemma_run(rows, mode, ids[a], rows.len() as int);
        assert(run.contains(i));
        let k = choose|k: int| 0 <= k < run.len() && run[k] == i;
        assert(all[k] == rows[i as int].implementation@);
        lemma_sorted_names(all);
        assert(all.contains(rows[i as int].implementation@));
        assert(names.contains(rows[i as int].implementation@));
        let n = choose|n: int| 0 <= n < names.len() && names[n] == rows[i as int].implementation@;
        assert(groups_of(rows, run)[n] == of_implementation(
            rows,
            run,
            rows[i as int].implementation@,
        ));
        earlier.len() + n
    }
}

/// Whether a group holds what a run has of an implementation.
pub open spec fn is_group(
    rows: Seq<Row>,
    mode: Option<Seq<char>>,
    group: Seq<usize>,
    run: Seq<char>,
    name: Seq<char>,
) -> bool {
    forall|i: usize| #[trigger]
        group.contains(i) <==> i < rows.len() && belongs(rows[i as int], mode, run)
            && rows[i as int].implementation@ == name
}

/// What a run has of an implementation is a group.
proof fn lemma_is_group(
    rows: Seq<Row>,
    mode: Option<Seq<char>>,
    run: Seq<char>,
    name: Seq<char>,
)
    requires
        rows.len() <= usize::MAX,
    ensures
        is_group(
            rows,
            mode,
            of_implementation(rows, run_rows(rows, mode, run, rows.len() as int), name),
            run,
            name,
        ),
{
    lemma_run(rows, mode, run, rows.len() as int);
    lemma_of_name(rows, run_rows(rows, mode, run, rows.len() as int), name);
}

/// Every group is one of a complete run, and later groups are of no earlier runs.
proof fn lemma_run_of_group(
    rows: Seq<Row>,
    mode: Option<Seq<char>>,
    ids: Seq<Seq<char>>,
    g: int,
) -> (a: int)
    requires
        rows.len() <= usize::MAX,
        0 <= g < complete_groups(rows, mode, ids).len(),
    ensures
        0 <= a < ids.len(),
        is_complete(rows, mode, ids[a]),
        g < complete_groups(rows, mode, ids.take(a + 1)).len(),
        complete_groups(rows, mode, ids)[g].len() > 0,
        is_group(
            rows,
            mode,
            complete_groups(rows, mode, ids)[g],
            ids[a],
            implementation_of(rows, complete_groups(rows, mode, ids)[g]),
        ),
    decreases ids.len(),
{
    let fewer = ids.drop_last();
    let earlier = complete_groups(rows, mode, fewer);
    if g < earlier.len() {
        let a = lemma_run_of_group(rows, mode, fewer, g);
        assert(fewer.take(a + 1) =~= ids.take(a + 1));
        assert(complete_groups(rows, mode, ids)[g] == earlier[g]);
        assert(ids[a] == fewer[a]);
        a
    } else {
        let a = ids.len() - 1;
        assert(ids.take(a + 1) =~= ids);
        let run = run_rows(rows, mode, ids[a], rows.len() as int);
        let names = sorted_names(implementations(rows, run));
        let name = names[g - earlier.len()];
        let group = complete_groups(rows, mode, ids)[g];
        assert(group == of_implementation(rows, run, name));
        lemma_run(rows, mode, ids[a], rows.len() as int);
        lemma_sorted_names(implementations(rows, run));
        assert(names.contains(name));
        assert(implementations(rows, run).contains(name));
        let k = choose|k: int|
            0 <= k < implementations(rows, run).len() && implementations(rows, run)[k] == name;
        lemma_of_name(rows, run, name);
        assert(run.contains(run[k]));
        assert(group.contains(run[k]));
        assert(group.contains(group[0]));
        lemma_is_group(rows, mode, ids[a], name);
        a
    }
}

/// There are no more groups of fewer runs.
proof fn lemma_fewer_groups(
    rows: Seq<Row>,
    mode: Option<Seq<char>>,
    ids: Seq<Seq<char>>,
    a: int,
    b: int,
)
    requires
        0 <= a <= b <= ids.len(),
    ensures
        complete_groups(rows, mode, ids.take(a)).len() <= complete_groups(
            rows,
            mode,
            ids.take(b),
        ).len(),
    decreases b - a,
{
    if a < b {
        lemma_fewer_groups(rows, mode, ids, a, b - 1);
        assert(ids.take(b).drop_last() =~= ids.take(b - 1));
    }
}

/// Whether some complete run measured one implementation in two ways.
pub open spec fn some_run_is_mixed(rows: Seq<Row>, mode: Option<Seq<char>>) -> bool {
    exists|i: int, j: int|
        {
            &&& 0 <= i < rows.len()
            &&& 0 <= j < rows.len()
            &&& is_complete(rows, mode, rows[i].run_id@)
            &&& belongs(rows[i], mode, rows[i].run_id@)
            &&& belongs(rows[j], mode, rows[i].run_id@)
            &&& rows[i].implementation@ == rows[j].implementation@
            &&& !(#[trigger] measured_alike(rows[i], rows[j]))
        }
}

/// A default chart is drawn exactly if there is a complete run and no complete
/// run measured an implementation in different ways.
pub proof fn law_default_chart_is_owed(
    rows: &[Row],
    mode: Option<&str>,
    selected: Result<Vec<usize>, ChartError>,
)
    requires
        call_ensures(select_run_with_default_mode, (rows, None, mode), selected),
        rows@.len() <= usize::MAX,
    ensures
        selected is Ok <==> {
            &&& exists|run: Seq<char>| #[trigger] is_complete(rows@, wanted(mode), run)
            &&& !some_run_is_mixed(rows@, wanted(mode))
        },
        selected is Err ==> selected->Err_0 is NoCompleteRun,
{
    let r = rows@;
    let m = wanted(mode);
    let ids = runs(r, m, r.len() as int);
    let groups = all_groups(r, m);
    if selected is Ok {
        let a = lemma_run_of_group(r, m, ids, 0);
        assert(is_complete(r, m, ids[a]));
        if some_run_is_mixed(r, m) {
            let (i, j) = choose|i: int, j: int|
                {
                    &&& 0 <= i < r.len()
                    &&& 0 <= j < r.len()
                    &&& is_complete(r, m, r[i].run_id@)
                    &&& belongs(r[i], m, r[i].run_id@)
                    &&& belongs(r[j], m, r[i].run_id@)
                    &&& r[i].implementation@ == r[j].implementation@
                    &&& !(#[trigger] measured_alike(r[i], r[j]))
                };
            lemma_runs(r, m, r.len() as int, r[i].run_id@);
            assert(ids.contains(r[i].run_id@));
            let a = choose|a: int| 0 <= a < ids.len() && ids[a] == r[i].run_id@;
            let g = lemma_group(r, m, ids, a, i as usize);
            let run = run_rows(r, m, ids[a], r.len() as int);
            lemma_run(r, m, ids[a], r.len() as int);
            lemma_of_name(r, run, r[i].implementation@);
            assert(run.contains(i as usize) && run.contains(j as usize));
            assert(groups[g].contains(i as usize) && groups[g].contains(j as usize));
            let x = choose|x: int| 0 <= x < groups[g].len() && groups[g][x] == i as usize;
            let y = choose|y: int| 0 <= y < groups[g].len() && groups[g][y] == j as usize;
            assert(uniform(r, groups[g]));
            assert(agree(at(r, groups[g], x), at(r, groups[g], 0)));
            assert(agree(at(r, groups[g], y), at(r, groups[g], 0)));
        }
    } else if exists|run: Seq<char>| #[trigger] is_complete(r, m, run) {
        let id = choose|run: Seq<char>| #[trigger] is_complete(r, m, run);
        let run = run_rows(r, m, id, r.len() as int);
        lemma_run(r, m, id, r.len() as int);
        assert(run.contains(run[0]));
        assert(belongs(r[run[0] as int], m, id));
        lemma_runs(r, m, r.len() as int, id);
        let a = choose|a: int| 0 <= a < ids.len() && ids[a] == id;
        let g = lemma_group(r, m, ids, a, run[0]);
        let g = choose|g: int| 0 <= g < groups.len() && !uniform(r, #[trigger] groups[g]);
        let a = lemma_run_of_group(r, m, ids, g);
        let x = choose|x: int|
            0 <= x < groups[g].len() && !agree(#[trigger] at(r, groups[g], x), at(r, groups[g], 0));
        let i = groups[g][x] as int;
        let j = groups[g][0] as int;
        assert(groups[g].contains(groups[g][x]) && groups[g].contains(groups[g][0]));
        assert(belongs(r[i], m, ids[a]) && belongs(r[j], m, ids[a]));
        assert(!measured_alike(r[i], r[j]));
    }
}

/// Whether row `i` comes from a group with the shape of a chart: it was measured
/// as the rows of the chart, its run has every load of the chart for its
/// implementation, and no other.
pub open spec fn fits(rows: Seq<Row>, mode: Option<Seq<char>>, list: Seq<usize>, i: int) -> bool {
    &&& forall|k: int|
        0 <= k < list.len() ==> measured_alike(rows[i], rows[#[trigger] list[k] as int])
    &&& forall|k: int|
        0 <= k < list.len() ==> has_load(rows, mode, i, rows[#[trigger] list[k] as int])
    &&& forall|j: int|
        0 <= j < rows.len() && belongs(#[trigger] rows[j], mode, rows[i].run_id@)
            && rows[j].implementation@ == rows[i].implementation@ ==> exists|k: int|
            0 <= k < list.len() && loaded_alike(rows[#[trigger] list[k] as int], rows[j])
}

/// Whether the run of row `i` has a load for the implementation of that row.
pub open spec fn has_load(rows: Seq<Row>, mode: Option<Seq<char>>, i: int, load: Row) -> bool {
    exists|j: int|
        0 <= j < rows.len() && belongs(#[trigger] rows[j], mode, rows[i].run_id@)
            && rows[j].implementation@ == rows[i].implementation@ && loaded_alike(rows[j], load)
}

/// The group of a row has the configurations of its run and implementation.
proof fn lemma_loads(
    rows: Seq<Row>,
    mode: Option<Seq<char>>,
    group: Seq<usize>,
    i: int,
    load: Row,
)
    requires
        is_group(rows, mode, group, rows[i].run_id@, rows[i].implementation@),
        rows.len() <= usize::MAX,
    ensures
        configurations(rows, group).contains(configuration(load)) <==> has_load(
            rows,
            mode,
            i,
            load,
        ),
{
    lemma_configurations(rows, group, configuration(load));
    if configurations(rows, group).contains(configuration(load)) {
        let k = choose|k: int|
            0 <= k < group.len() && configuration(#[trigger] at(rows, group, k)) == configuration(
                load,
            );
        assert(group.contains(group[k]));
        let j = group[k] as int;
        assert(belongs(rows[j], mode, rows[i].run_id@));
        assert(loaded_alike(rows[j], load));
    }
    if has_load(rows, mode, i, load) {
        let j = choose|j: int|
            0 <= j < rows.len() && belongs(#[trigger] rows[j], mode, rows[i].run_id@)
                && rows[j].implementation@ == rows[i].implementation@ && loaded_alike(
                rows[j],
                load,
            );
        assert(belongs(rows[j as usize as int], mode, rows[i].run_id@));
        assert(group.contains(j as usize));
        let k = choose|k: int| 0 <= k < group.len() && group[k] == j as usize;
        assert(configuration(at(rows, group, k)) == configuration(load));
    }
}

/// A group with the loads of a chart has the configurations of its groups.
proof fn lemma_same_loads(
    rows: &[Row],
    mode: Option<&str>,
    selected: Result<Vec<usize>, ChartError>,
    i: int,
    own: Seq<usize>,
)
    requires
        call_ensures(select_run_with_default_mode, (rows, None, mode), selected),
        selected is Ok,
        rows@.len() <= usize::MAX,
        0 <= i < rows@.len(),
        fits(rows@, wanted(mode), selected->Ok_0@, i),
        is_group(rows@, wanted(mode), own, rows@[i].run_id@, rows@[i].implementation@),
    ensures
        configurations(rows@, own) == configurations(
            rows@,
            reference_group(rows@, wanted(mode)),
        ),
{
    let r = rows@;
    let list = selected->Ok_0@;
    let m = wanted(mode);
    let reference = reference_group(r, m);
    law_default_chart_shows_whole_groups(r, m);
    law_default_chart_is_broadest(r, m);
    let top = shown_groups(r, m)[0];
    lemma_flat(shown_groups(r, m));
    assert(same_shape(r, top, reference));
    assert forall|x: usize| top.contains(x) implies list.contains(x) by {
        assert(shown_groups(r, m)[0].contains(x));
    }
    let mine = configurations(r, own);
    let theirs = configurations(r, top);
    assert forall|c: (Seq<char>, usize, usize, Option<usize>)|
        mine.contains(c) <==> theirs.contains(c) by {
        lemma_configurations(r, own, c);
        lemma_configurations(r, top, c);
        if mine.contains(c) {
            let y = choose|y: int|
                0 <= y < own.len() && configuration(#[trigger] at(r, own, y)) == c;
            let j = own[y] as int;
            assert(own.contains(own[y]));
            assert(belongs(r[j], m, r[i].run_id@));
            let k = choose|k: int|
                0 <= k < list.len() && loaded_alike(r[#[trigger] list[k] as int], r[j]);
            assert(list.contains(list[k]));
            let (h, other) = lemma_shown(r, m, list[k]);
            let group = shown_groups(r, m)[h];
            assert(configurations(r, group) == configurations(r, reference));
            lemma_configurations(r, group, c);
            let z = choose|z: int| 0 <= z < group.len() && group[z] == list[k];
            assert(configuration(at(r, group, z)) == c);
        }
        if theirs.contains(c) {
            let y = choose|y: int|
                0 <= y < top.len() && configuration(#[trigger] at(r, top, y)) == c;
            assert(top.contains(top[y]));
            let k = choose|k: int| 0 <= k < list.len() && list[k] == top[y];
            assert(has_load(r, m, i, r[list[k] as int]));
            lemma_loads(r, m, own, i, r[list[k] as int]);
        }
    }
    assert(mine =~= theirs);
}

/// A default chart leaves nothing out that could be compared and shows the newest
/// of it. Whatever row of a complete run comes from a group with the shape of the
/// chart, its implementation is shown, from a run that does not start earlier.
#[verifier::rlimit(50)]
pub proof fn law_default_chart_is_up_to_date(
    rows: &[Row],
    mode: Option<&str>,
    selected: Result<Vec<usize>, ChartError>,
    i: int,
) -> (shown: int)
    requires
        call_ensures(select_run_with_default_mode, (rows, None, mode), selected),
        selected is Ok,
        rows@.len() <= usize::MAX,
        0 <= i < rows@.len(),
        belongs(rows@[i], wanted(mode), rows@[i].run_id@),
        is_complete(rows@, wanted(mode), rows@[i].run_id@),
        fits(rows@, wanted(mode), selected->Ok_0@, i),
    ensures
        shows(selected->Ok_0@, shown),
        rows@[shown].implementation@ == rows@[i].implementation@,
        exists|p: int| #[trigger]
            leads(
                rows@,
                wanted(mode),
                rows@.len() as int,
                p,
                rows@[i].run_id@,
                rows@[shown].run_id@,
            ),
{
    let r = rows@;
    let list = selected->Ok_0@;
    let m = wanted(mode);
    let n = r.len() as int;
    let ids = runs(r, m, n);
    let groups = all_groups(r, m);
    let reference = reference_group(r, m);
    lemma_runs(r, m, n, r[i].run_id@);
    let a = choose|a: int| 0 <= a < ids.len() && ids[a] == r[i].run_id@;
    let g = lemma_group(r, m, ids, a, i as usize);
    lemma_is_group(r, m, ids[a], r[i].implementation@);
    law_default_chart_shows_whole_groups(r, m);
    law_default_chart_is_broadest(r, m);
    let top = shown_groups(r, m)[0];
    lemma_flat(shown_groups(r, m));
    assert(same_shape(r, top, reference));
    assert forall|x: usize| top.contains(x) implies list.contains(x) by {
        assert(shown_groups(r, m)[0].contains(x));
    }
    assert(top.contains(top[0]));
    let t = choose|t: int| 0 <= t < list.len() && list[t] == top[0];
    assert(measured_alike(r[i], r[list[t] as int]));
    assert(belongs(r[i as usize as int], m, r[i].run_id@));
    assert(groups[g].contains(i as usize));
    let x = choose|x: int| 0 <= x < groups[g].len() && groups[g][x] == i as usize;
    assert(uniform(r, groups[g]));
    assert(agree(at(r, groups[g], x), at(r, groups[g], 0)));
    assert(agree(at(r, groups[g], 0), at(r, reference, 0)));
    lemma_same_loads(rows, mode, selected, i, groups[g]);
    assert(same_shape(r, groups[g], reference));
    let k = law_default_chart_shows_the_newest(r, m, g);
    let group = shown_groups(r, m)[k];
    let h = choose|h: int| g <= h < groups.len() && group == #[trigger] groups[h];
    let c = lemma_run_of_group(r, m, ids, h);
    if c < a {
        lemma_fewer_groups(r, m, ids, c + 1, a);
    }
    let p = lemma_order(r, m, n, a, c);
    assert(group.contains(group[0]));
    assert(belongs(r[group[0] as int], m, ids[c]));
    assert(list.contains(group[0]));
    let t = choose|t: int| 0 <= t < list.len() && list[t] == group[0];
    assert(groups[g].contains(groups[g][0]));
    assert(belongs(r[groups[g][0] as int], m, r[i].run_id@));
    group[0] as int
}

/// No group of a complete run has all the loads of a default chart and another
/// one besides.
pub proof fn law_default_chart_is_widest(
    rows: &[Row],
    mode: Option<&str>,
    selected: Result<Vec<usize>, ChartError>,
    i: int,
)
    requires
        call_ensures(select_run_with_default_mode, (rows, None, mode), selected),
        selected is Ok,
        rows@.len() <= usize::MAX,
        0 <= i < rows@.len(),
        belongs(rows@[i], wanted(mode), rows@[i].run_id@),
        is_complete(rows@, wanted(mode), rows@[i].run_id@),
        forall|k: int|
            0 <= k < selected->Ok_0@.len() ==> has_load(
                rows@,
                wanted(mode),
                i,
                rows@[#[trigger] selected->Ok_0@[k] as int],
            ),
    ensures
        exists|k: int|
            0 <= k < selected->Ok_0@.len() && loaded_alike(
                rows@[#[trigger] selected->Ok_0@[k] as int],
                rows@[i],
            ),
{
    let r = rows@;
    let list = selected->Ok_0@;
    let m = wanted(mode);
    let n = r.len() as int;
    let ids = runs(r, m, n);
    let groups = all_groups(r, m);
    let reference = reference_group(r, m);
    lemma_runs(r, m, n, r[i].run_id@);
    let a = choose|a: int| 0 <= a < ids.len() && ids[a] == r[i].run_id@;
    let g = lemma_group(r, m, ids, a, i as usize);
    lemma_is_group(r, m, ids[a], r[i].implementation@);
    law_default_chart_shows_whole_groups(r, m);
    law_default_chart_is_broadest(r, m);
    let top = shown_groups(r, m)[0];
    lemma_flat(shown_groups(r, m));
    assert(same_shape(r, top, reference));
    assert forall|x: usize| top.contains(x) implies list.contains(x) by {
        assert(shown_groups(r, m)[0].contains(x));
    }
    let mine = configurations(r, groups[g]);
    let theirs = configurations(r, top);
    assert forall|c: (Seq<char>, usize, usize, Option<usize>)| #[trigger]
        theirs.contains(c) implies mine.contains(c) by {
        lemma_configurations(r, top, c);
        let y = choose|y: int| 0 <= y < top.len() && configuration(#[trigger] at(r, top, y)) == c;
        assert(top.contains(top[y]));
        let k = choose|k: int| 0 <= k < list.len() && list[k] == top[y];
        assert(has_load(r, m, i, r[list[k] as int]));
        lemma_loads(r, m, groups[g], i, r[list[k] as int]);
    }
    let own = configuration(r[i]);
    assert(belongs(r[i as usize as int], m, r[i].run_id@));
    assert(groups[g].contains(i as usize));
    lemma_configurations(r, groups[g], own);
    lemma_configurations(r, top, own);
    let x = choose|x: int| 0 <= x < groups[g].len() && groups[g][x] == i as usize;
    assert(configuration(at(r, groups[g], x)) == own);
    assert(mine.contains(own));
    if !theirs.contains(own) {
        Seq::new(groups[g].len(), |k: int| configuration(at(r, groups[g], k))).lemma_cardinality_of_set();
        assert(theirs.subset_of(mine.remove(own)));
        vstd::set_lib::lemma_len_subset(theirs, mine.remove(own));
        assert(mine.len() <= configurations(r, reference).len());
        assert(false);
    }
    let y = choose|y: int| 0 <= y < top.len() && configuration(#[trigger] at(r, top, y)) == own;
    assert(top.contains(top[y]));
    let k = choose|k: int| 0 <= k < list.len() && list[k] == top[y];
    assert(loaded_alike(r[list[k] as int], r[i]));
}

} // verus!
