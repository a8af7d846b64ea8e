//! What a default chart is made of.
use vstd::prelude::*;

use super::combination::{
    all_groups, broadest, combined, comparable, complete_groups, implementation_of,
    lemma_run_rows, newest, newest_of, run_rows, runs,
};
use super::names::{ascending, lemma_sorted_names, sorted_names};
use super::rows::Row;
use super::selection::{
    at, complete, groups_of, implementations, lemma_of_implementation, of_implementation,
};
use super::shape::{agree, configurations, same_shape, uniform};

verus! {

/// The group that sets the shape of a default chart.
pub open spec fn reference_group(rows: Seq<Row>, mode: Option<Seq<char>>) -> Seq<usize> {
    all_groups(rows, mode)[broadest(rows, all_groups(rows, mode))]
}

/// The implementations of a default chart, in ascending order.
pub open spec fn shown_names(rows: Seq<Row>, mode: Option<Seq<char>>) -> Seq<Seq<char>> {
    sorted_names(comparable(rows, all_groups(rows, mode), reference_group(rows, mode)))
}

/// The groups of a default chart, one for each implementation.
pub open spec fn shown_groups(rows: Seq<Row>, mode: Option<Seq<char>>) -> Seq<Seq<usize>> {
    Seq::new(
        shown_names(rows, mode).len(),
        |k: int|
            newest(
                rows,
                all_groups(rows, mode),
                reference_group(rows, mode),
                shown_names(rows, mode)[k],
            ),
    )
}

/// Whether a group is all that one complete run has of one implementation.
pub open spec fn whole(rows: Seq<Row>, mode: Option<Seq<char>>, group: Seq<usize>) -> bool {
    exists|run: Seq<char>|
        {
            &&& #[trigger] runs(rows, mode, rows.len() as int).contains(run)
            &&& complete(rows, run_rows(rows, mode, run, rows.len() as int))
            &&& group == of_implementation(
                rows,
                run_rows(rows, mode, run, rows.len() as int),
                implementation_of(rows, group),
            )
        }
}

/// Every group of a complete run is whole.
proof fn lemma_whole(
    rows: Seq<Row>,
    mode: Option<Seq<char>>,
    ids: Seq<Seq<char>>,
    k: int,
)
    requires
        rows.len() <= usize::MAX,
        forall|i: int|
            0 <= i < ids.len() ==> runs(rows, mode, rows.len() as int).contains(#[trigger] ids[i]),
        0 <= k < complete_groups(rows, mode, ids).len(),
    ensures
        whole(rows, mode, complete_groups(rows, mode, ids)[k]),
    decreases ids.len(),
{
    let fewer = ids.drop_last();
    let earlier = complete_groups(rows, mode, fewer);
    if k < earlier.len() {
        assert forall|i: int| 0 <= i < fewer.len() implies runs(
            rows,
            mode,
            rows.len() as int,
        ).contains(#[trigger] fewer[i]) by {
            assert(fewer[i] == ids[i]);
        }
        lemma_whole(rows, mode, fewer, k);
        assert(complete_groups(rows, mode, ids)[k] == earlier[k]);
    } else {
        let run = run_rows(rows, mode, ids.last(), rows.len() as int);
        let names = sorted_names(implementations(rows, run));
        let group = groups_of(rows, run)[k - earlier.len()];
        let name = names[k - earlier.len()];
        assert(complete_groups(rows, mode, ids)[k] == group);
        lemma_run_rows(rows, mode, ids.last(), rows.len() as int);
        lemma_sorted_names(implementations(rows, run));
        assert(names.contains(name));
        lemma_of_implementation(rows, run, name);
        assert(at(rows, group, 0).implementation@ == name);
        assert(runs(rows, mode, rows.len() as int).contains(ids[ids.len() - 1]));
    }
}

/// No group has more configurations than the broadest, and none behind it has as
/// many.
proof fn lemma_broadest(rows: Seq<Row>, groups: Seq<Seq<usize>>)
    requires
        0 < groups.len(),
    ensures
        0 <= broadest(rows, groups) < groups.len(),
        forall|g: int|
            0 <= g < groups.len() ==> configurations(rows, #[trigger] groups[g]).len()
                <= configurations(rows, groups[broadest(rows, groups)]).len(),
        forall|g: int|
            broadest(rows, groups) < g < groups.len() ==> configurations(
                rows,
                #[trigger] groups[g],
            ).len() < configurations(rows, groups[broadest(rows, groups)]).len(),
    decreases groups.len(),
{
    if groups.len() > 1 {
        let fewer = groups.drop_last();
        lemma_broadest(rows, fewer);
        let best = broadest(rows, fewer);
        assert(fewer[best] == groups[best]);
        assert forall|g: int| 0 <= g < fewer.len() implies configurations(
            rows,
            #[trigger] groups[g],
        ).len() <= configurations(rows, groups[best]).len() && (g > best ==> configurations(
            rows,
            groups[g],
        ).len() < configurations(rows, groups[best]).len()) by {
            assert(fewer[g] == groups[g]);
        }
        assert(groups[groups.len() - 1] == groups.last());
    }
}

/// The implementations of the comparable groups are those.
proof fn lemma_comparable(
    rows: Seq<Row>,
    groups: Seq<Seq<usize>>,
    reference: Seq<usize>,
    name: Seq<char>,
)
    ensures
        comparable(rows, groups, reference).contains(name) <==> exists|g: int|
            0 <= g < groups.len() && same_shape(rows, #[trigger] groups[g], reference)
                && implementation_of(rows, groups[g]) == name,
    decreases groups.len(),
{
    if groups.len() > 0 {
        let fewer = groups.drop_last();
        let earlier = comparable(rows, fewer, reference);
        let all = comparable(rows, groups, reference);
        lemma_comparable(rows, fewer, reference, name);
        if all.contains(name) {
            let i = choose|i: int| 0 <= i < all.len() && all[i] == name;
            if i < earlier.len() {
                assert(earlier[i] == name);
                let g = choose|g: int|
                    0 <= g < fewer.len() && same_shape(rows, #[trigger] fewer[g], reference)
                        && implementation_of(rows, fewer[g]) == name;
                assert(groups[g] == fewer[g]);
            } else {
                assert(groups[groups.len() - 1] == groups.last());
            }
        }
        if exists|g: int|
            0 <= g < groups.len() && same_shape(rows, #[trigger] groups[g], reference)
                && implementation_of(rows, groups[g]) == name {
            let g = choose|g: int|
                0 <= g < groups.len() && same_shape(rows, #[trigger] groups[g], reference)
                    && implementation_of(rows, groups[g]) == name;
            if g < fewer.len() {
                assert(fewer[g] == groups[g]);
                let i = choose|i: int| 0 <= i < earlier.len() && earlier[i] == name;
                assert(all[i] == name);
            } else {
                assert(all[earlier.len() as int] == name);
            }
        }
    }
}

/// The newest group of an implementation is the last comparable one.
proof fn lemma_newest(
    rows: Seq<Row>,
    groups: Seq<Seq<usize>>,
    reference: Seq<usize>,
    name: Seq<char>,
) -> (last: int)
    requires
        exists|g: int|
            0 <= g < groups.len() && same_shape(rows, #[trigger] groups[g], reference)
                && implementation_of(rows, groups[g]) == name,
    ensures
        0 <= last < groups.len(),
        newest(rows, groups, reference, name) == groups[last],
        same_shape(rows, groups[last], reference),
        implementation_of(rows, groups[last]) == name,
        forall|g: int|
            last < g < groups.len() && same_shape(rows, #[trigger] groups[g], reference)
                ==> implementation_of(rows, groups[g]) != name,
    decreases groups.len(),
{
    let fewer = groups.drop_last();
    let g = choose|g: int|
        0 <= g < groups.len() && same_shape(rows, #[trigger] groups[g], reference)
            && implementation_of(rows, groups[g]) == name;
    if same_shape(rows, groups.last(), reference) && implementation_of(rows, groups.last())
        == name {
        groups.len() - 1
    } else {
        assert(fewer[g] == groups[g]);
        let last = lemma_newest(rows, fewer, reference, name);
        assert forall|h: int|
            last < h < groups.len() && same_shape(
                rows,
                #[trigger] groups[h],
                reference,
            ) implies implementation_of(rows, groups[h]) != name by {
            if h < fewer.len() {
                assert(fewer[h] == groups[h]);
            }
        }
        last
    }
}

/// The shown rows are those of the shown groups.
proof fn lemma_flat(
    rows: Seq<Row>,
    groups: Seq<Seq<usize>>,
    reference: Seq<usize>,
    names: Seq<Seq<char>>,
)
    ensures
        newest_of(rows, groups, reference, names) == Seq::new(
            names.len(),
            |k: int| newest(rows, groups, reference, names[k]),
        ).flatten(),
    decreases names.len(),
{
    let all = Seq::new(names.len(), |k: int| newest(rows, groups, reference, names[k]));
    all.lemma_flatten_and_flatten_alt_are_equivalent();
    if names.len() > 0 {
        let fewer = names.drop_last();
        let some = Seq::new(fewer.len(), |k: int| newest(rows, groups, reference, fewer[k]));
        lemma_flat(rows, groups, reference, fewer);
        some.lemma_flatten_and_flatten_alt_are_equivalent();
        assert(all.drop_last() =~= some);
    }
}

/// A default chart shows whole groups one after the other, each of them all that
/// one complete run has of one implementation, and each implementation once, in
/// ascending order.
pub proof fn law_default_chart_shows_whole_groups(rows: Seq<Row>, mode: Option<Seq<char>>)
    requires
        rows.len() <= usize::MAX,
        combined(rows, mode) is Some,
    ensures
        combined(rows, mode)->Some_0 == shown_groups(rows, mode).flatten(),
        0 < shown_groups(rows, mode).len(),
        ascending(shown_names(rows, mode)),
        forall|k: int|
            0 <= k < shown_groups(rows, mode).len() ==> {
                &&& whole(rows, mode, #[trigger] shown_groups(rows, mode)[k])
                &&& shown_groups(rows, mode)[k].len() > 0
                &&& implementation_of(rows, shown_groups(rows, mode)[k]) == shown_names(
                    rows,
                    mode,
                )[k]
            },
{
    let groups = all_groups(rows, mode);
    let reference = reference_group(rows, mode);
    let names = shown_names(rows, mode);
    let shown = shown_groups(rows, mode);
    lemma_flat(rows, groups, reference, names);
    lemma_sorted_names(comparable(rows, groups, reference));
    lemma_broadest(rows, groups);
    lemma_comparable(rows, groups, reference, implementation_of(rows, reference));
    assert(same_shape(rows, groups[broadest(rows, groups)], reference));
    assert(names.contains(implementation_of(rows, reference)));
    let ids = runs(rows, mode, rows.len() as int);
    assert forall|k: int| 0 <= k < shown.len() implies {
        &&& whole(rows, mode, #[trigger] shown[k])
        &&& shown[k].len() > 0
        &&& implementation_of(rows, shown[k]) == names[k]
    } by {
        assert(names.contains(names[k]));
        lemma_comparable(rows, groups, reference, names[k]);
        let last = lemma_newest(rows, groups, reference, names[k]);
        assert(uniform(rows, groups[last]));
        assert forall|i: int| 0 <= i < ids.len() implies ids.contains(#[trigger] ids[i]) by {}
        lemma_whole(rows, mode, ids, last);
    }
}

/// Every group of a default chart was measured under the same conditions and has
/// the same configurations as every other, and no group of a complete run has
/// more. Where several have as many, the newest of them sets the shape.
pub proof fn law_default_chart_is_broadest(rows: Seq<Row>, mode: Option<Seq<char>>)
    requires
        rows.len() <= usize::MAX,
        combined(rows, mode) is Some,
    ensures
        all_groups(rows, mode).contains(reference_group(rows, mode)),
        forall|k: int|
            0 <= k < shown_groups(rows, mode).len() ==> same_shape(
                rows,
                #[trigger] shown_groups(rows, mode)[k],
                reference_group(rows, mode),
            ),
        forall|g: int|
            0 <= g < all_groups(rows, mode).len() ==> configurations(
                rows,
                #[trigger] all_groups(rows, mode)[g],
            ).len() <= configurations(rows, reference_group(rows, mode)).len(),
        forall|g: int|
            broadest(rows, all_groups(rows, mode)) < g < all_groups(rows, mode).len()
                ==> configurations(rows, #[trigger] all_groups(rows, mode)[g]).len()
                < configurations(rows, reference_group(rows, mode)).len(),
{
    let groups = all_groups(rows, mode);
    let reference = reference_group(rows, mode);
    let names = shown_names(rows, mode);
    let shown = shown_groups(rows, mode);
    lemma_broadest(rows, groups);
    lemma_sorted_names(comparable(rows, groups, reference));
    assert(groups.contains(groups[broadest(rows, groups)]));
    assert forall|k: int| 0 <= k < shown.len() implies same_shape(
        rows,
        #[trigger] shown[k],
        reference,
    ) by {
        assert(names.contains(names[k]));
        lemma_comparable(rows, groups, reference, names[k]);
        let last = lemma_newest(rows, groups, reference, names[k]);
    }
}

/// A default chart leaves no comparable implementation out and shows the newest
/// comparable group of each: whatever group of a complete run has the shape of
/// the chart, its implementation is shown, with that group or a later one.
pub proof fn law_default_chart_shows_the_newest(
    rows: Seq<Row>,
    mode: Option<Seq<char>>,
    g: int,
) -> (k: int)
    requires
        rows.len() <= usize::MAX,
        combined(rows, mode) is Some,
        0 <= g < all_groups(rows, mode).len(),
        same_shape(rows, all_groups(rows, mode)[g], reference_group(rows, mode)),
    ensures
        0 <= k < shown_groups(rows, mode).len(),
        shown_names(rows, mode)[k] == implementation_of(rows, all_groups(rows, mode)[g]),
        exists|h: int|
            g <= h < all_groups(rows, mode).len() && shown_groups(rows, mode)[k]
                == #[trigger] all_groups(rows, mode)[h],
{
    let groups = all_groups(rows, mode);
    let reference = reference_group(rows, mode);
    let names = shown_names(rows, mode);
    let name = implementation_of(rows, groups[g]);
    lemma_sorted_names(comparable(rows, groups, reference));
    lemma_comparable(rows, groups, reference, name);
    assert(names.contains(name));
    let k = choose|k: int| 0 <= k < names.len() && names[k] == name;
    let last = lemma_newest(rows, groups, reference, name);
    assert(g <= last);
    assert(shown_groups(rows, mode)[k] == groups[last]);
    k
}

/// The newest group, if there is one, is one of the groups and has the shape.
proof fn lemma_newest_shape(
    rows: Seq<Row>,
    groups: Seq<Seq<usize>>,
    reference: Seq<usize>,
    name: Seq<char>,
)
    requires
        forall|k: int| 0 <= k < groups.len() ==> uniform(rows, #[trigger] groups[k]),
    ensures
        ({
            let found = newest(rows, groups, reference, name);
            found.len() > 0 ==> uniform(rows, found) && same_shape(rows, found, reference)
        }),
    decreases groups.len(),
{
    if groups.len() > 0 {
        let fewer = groups.drop_last();
        assert forall|k: int| 0 <= k < fewer.len() implies uniform(rows, #[trigger] fewer[k]) by {
            assert(fewer[k] == groups[k]);
        }
        lemma_newest_shape(rows, fewer, reference, name);
        assert(uniform(rows, groups[groups.len() - 1]));
    }
}

/// Every shown row was measured under the conditions of the reference.
proof fn lemma_agreement(
    rows: Seq<Row>,
    groups: Seq<Seq<usize>>,
    reference: Seq<usize>,
    names: Seq<Seq<char>>,
)
    requires
        forall|k: int| 0 <= k < groups.len() ==> uniform(rows, #[trigger] groups[k]),
    ensures
        forall|k: int|
            0 <= k < newest_of(rows, groups, reference, names).len() ==> agree(
                #[trigger] at(rows, newest_of(rows, groups, reference, names), k),
                at(rows, reference, 0),
            ),
    decreases names.len(),
{
    if names.len() > 0 {
        let earlier = newest_of(rows, groups, reference, names.drop_last());
        let more = newest(rows, groups, reference, names.last());
        let all = newest_of(rows, groups, reference, names);
        lemma_agreement(rows, groups, reference, names.drop_last());
        lemma_newest_shape(rows, groups, reference, names.last());
        assert forall|k: int| 0 <= k < all.len() implies agree(
            #[trigger] at(rows, all, k),
            at(rows, reference, 0),
        ) by {
            if k < earlier.len() {
                assert(at(rows, all, k) == at(rows, earlier, k));
            } else {
                assert(at(rows, all, k) == at(rows, more, k - earlier.len()));
            }
        }
    }
}

/// A default chart never mixes results that were measured under different
/// conditions.
pub proof fn law_default_chart_is_uniform(
    rows: Seq<Row>,
    mode: Option<Seq<char>>,
    i: int,
    j: int,
)
    requires
        combined(rows, mode) is Some,
        0 <= i < combined(rows, mode)->Some_0.len(),
        0 <= j < combined(rows, mode)->Some_0.len(),
    ensures
        agree(at(rows, combined(rows, mode)->Some_0, i), at(rows, combined(rows, mode)->Some_0, j)),
{
    let groups = all_groups(rows, mode);
    let reference = reference_group(rows, mode);
    lemma_agreement(rows, groups, reference, shown_names(rows, mode));
    let list = combined(rows, mode)->Some_0;
    assert(agree(at(rows, list, i), at(rows, reference, 0)));
    assert(agree(at(rows, list, j), at(rows, reference, 0)));
}

} // verus!
