//! The newest comparable results of every implementation.
use vstd::prelude::*;

use super::names::{add_name, lemma_sorted_names, sorted_names, texts};
use super::rows::Row;
use super::selection::{
    at, complete, groups_of, implementation_groups, implementations, lemma_of_implementation, lists,
    run_is_complete, valid,
};
use super::shape::{
    benchmark_shape, configuration_count, configurations, same_shape, shapes_are_equal, uniform,
    BenchmarkShape,
};
use super::words::same_text;

verus! {

/// Why no rows are drawn.
#[derive(Debug, Clone, PartialEq, Eq)]
pub enum ChartError {
    /// There is nothing to render.
    NoRenderableRows,
    /// No run is complete.
    NoCompleteRun,
    /// No row belongs to the requested run.
    RunNotFound(String),
    /// The requested run lacks rows.
    RunIncomplete(String),
}

impl ChartError {
    /// The text of the error.
    pub open spec fn message(&self) -> Seq<char> {
        match self {
            ChartError::NoRenderableRows => "no benchmark rows to render"@,
            ChartError::NoCompleteRun => "no complete benchmark run found"@,
            ChartError::RunNotFound(run_id) => "benchmark run id not found: "@ + run_id@,
            ChartError::RunIncomplete(run_id) => "benchmark run is incomplete: "@ + run_id@,
        }
    }

    /// The text of the error.
    pub fn to_string(&self) -> (text: String)
        ensures
            text@ == self.message(),
    {
        match self {
            ChartError::NoRenderableRows => "no benchmark rows to render".to_owned(),
            ChartError::NoCompleteRun => "no complete benchmark run found".to_owned(),
            ChartError::RunNotFound(run_id) => {
                let mut text = "benchmark run id not found: ".to_owned();
                text.append(run_id.as_str());
                text
            },
            ChartError::RunIncomplete(run_id) => {
                let mut text = "benchmark run is incomplete: ".to_owned();
                text.append(run_id.as_str());
                text
            },
        }
    }
}

/// The text in an option.
pub open spec fn wanted(text: Option<&str>) -> Option<Seq<char>> {
    match text {
        Some(text) => Some(text@),
        None => None,
    }
}

/// Whether a row counts: any does where no mode is wanted.
pub open spec fn in_mode(row: Row, mode: Option<Seq<char>>) -> bool {
    mode is None || row.mode@ == mode->Some_0
}

/// The first `n` rows of a run, as far as they count.
pub open spec fn run_rows(
    rows: Seq<Row>,
    mode: Option<Seq<char>>,
    run: Seq<char>,
    n: int,
) -> Seq<usize>
    decreases n,
{
    if n <= 0 {
        Seq::empty()
    } else {
        let earlier = run_rows(rows, mode, run, n - 1);
        if rows[n - 1].run_id@ == run && in_mode(rows[n - 1], mode) {
            earlier.push((n - 1) as usize)
        } else {
            earlier
        }
    }
}

/// The runs among the first `n` rows that count, in order of appearance.
pub open spec fn runs(rows: Seq<Row>, mode: Option<Seq<char>>, n: int) -> Seq<Seq<char>>
    decreases n,
{
    if n <= 0 {
        Seq::empty()
    } else {
        let earlier = runs(rows, mode, n - 1);
        if in_mode(rows[n - 1], mode) && !earlier.contains(rows[n - 1].run_id@) {
            earlier.push(rows[n - 1].run_id@)
        } else {
            earlier
        }
    }
}

/// The rows of the complete ones among some runs, by run and implementation.
pub open spec fn complete_groups(
    rows: Seq<Row>,
    mode: Option<Seq<char>>,
    ids: Seq<Seq<char>>,
) -> Seq<Seq<usize>>
    decreases ids.len(),
{
    if ids.len() == 0 {
        Seq::empty()
    } else {
        let earlier = complete_groups(rows, mode, ids.drop_last());
        let run = run_rows(rows, mode, ids.last(), rows.len() as int);
        if complete(rows, run) {
            earlier + groups_of(rows, run)
        } else {
            earlier
        }
    }
}

/// Every group of a complete run, oldest run first.
pub open spec fn all_groups(rows: Seq<Row>, mode: Option<Seq<char>>) -> Seq<Seq<usize>> {
    complete_groups(rows, mode, runs(rows, mode, rows.len() as int))
}

/// The last one among the groups with the most configurations.
pub open spec fn broadest(rows: Seq<Row>, groups: Seq<Seq<usize>>) -> int
    decreases groups.len(),
{
    if groups.len() <= 1 {
        0
    } else {
        let best = broadest(rows, groups.drop_last());
        if configurations(rows, groups.last()).len() >= configurations(rows, groups[best]).len() {
            groups.len() - 1
        } else {
            best
        }
    }
}

/// The implementation of a group.
pub open spec fn implementation_of(rows: Seq<Row>, group: Seq<usize>) -> Seq<char> {
    at(rows, group, 0).implementation@
}

/// The implementations of the groups with the shape of `reference`.
pub open spec fn comparable(
    rows: Seq<Row>,
    groups: Seq<Seq<usize>>,
    reference: Seq<usize>,
) -> Seq<Seq<char>>
    decreases groups.len(),
{
    if groups.len() == 0 {
        Seq::empty()
    } else {
        let earlier = comparable(rows, groups.drop_last(), reference);
        if same_shape(rows, groups.last(), reference) {
            earlier.push(implementation_of(rows, groups.last()))
        } else {
            earlier
        }
    }
}

/// The last group of an implementation with the shape of `reference`.
pub open spec fn newest(
    rows: Seq<Row>,
    groups: Seq<Seq<usize>>,
    reference: Seq<usize>,
    name: Seq<char>,
) -> Seq<usize>
    decreases groups.len(),
{
    if groups.len() == 0 {
        Seq::empty()
    } else if same_shape(rows, groups.last(), reference) && implementation_of(rows, groups.last())
        == name {
        groups.last()
    } else {
        newest(rows, groups.drop_last(), reference, name)
    }
}

/// The newest comparable groups of some implementations, one after the other.
pub open spec fn newest_of(
    rows: Seq<Row>,
    groups: Seq<Seq<usize>>,
    reference: Seq<usize>,
    names: Seq<Seq<char>>,
) -> Seq<usize>
    decreases names.len(),
{
    if names.len() == 0 {
        Seq::empty()
    } else {
        newest_of(rows, groups, reference, names.drop_last()) + newest(
            rows,
            groups,
            reference,
            names.last(),
        )
    }
}

/// The rows that a chart shows by default. The broadest group of a complete run,
/// the newest where several are as broad, sets the shape. Of every
/// implementation that has it, the newest group with that shape is shown, the
/// implementations in ascending order. There are none where no run is complete,
/// or where some group of a complete run mixes conditions.
pub open spec fn combined(rows: Seq<Row>, mode: Option<Seq<char>>) -> Option<Seq<usize>> {
    let groups = all_groups(rows, mode);
    if groups.len() == 0 || exists|k: int|
        0 <= k < groups.len() && !uniform(rows, #[trigger] groups[k]) {
        None
    } else {
        let reference = groups[broadest(rows, groups)];
        Some(
            newest_of(
                rows,
                groups,
                reference,
                sorted_names(comparable(rows, groups, reference)),
            ),
        )
    }
}

/// Whether a row counts.
fn row_in_mode(row: &Row, mode: Option<&str>) -> (counts: bool)
    ensures
        counts == in_mode(*row, wanted(mode)),
{
    match mode {
        Some(mode) => same_text(row.mode.as_str(), mode),
        None => true,
    }
}

/// The rows of a run are rows.
pub proof fn lemma_run_rows(rows: Seq<Row>, mode: Option<Seq<char>>, run: Seq<char>, n: int)
    requires
        n <= rows.len() <= usize::MAX,
    ensures
        valid(rows, run_rows(rows, mode, run, n)),
    decreases n,
{
    if n > 0 {
        lemma_run_rows(rows, mode, run, n - 1);
        let earlier = run_rows(rows, mode, run, n - 1);
        let all = run_rows(rows, mode, run, n);
        assert forall|k: int| 0 <= k < all.len() implies (#[trigger] all[k]) < rows.len() by {
            if k < earlier.len() {
                assert(all[k] == earlier[k]);
            }
        }
    }
}

/// Pick the rows of a run.
fn rows_of_run(rows: &[Row], mode: Option<&str>, run: &str) -> (list: Vec<usize>)
    ensures
        list@ == run_rows(rows@, wanted(mode), run@, rows@.len() as int),
        valid(rows@, list@),
{
    let mut list: Vec<usize> = Vec::new();
    let mut i: usize = 0;
    while i < rows.len()
        invariant
            i <= rows@.len(),
            list@ == run_rows(rows@, wanted(mode), run@, i as int),
        decreases rows@.len() - i,
    {
        if same_text(rows[i].run_id.as_str(), run) && row_in_mode(&rows[i], mode) {
            list.push(i);
        }
        i += 1;
    }
    proof {
        lemma_run_rows(rows@, wanted(mode), run@, rows@.len() as int);
    }
    list
}

/// Whether a name is in a list.
fn lists_name(names: &[String], name: &str) -> (found: bool)
    ensures
        found == texts(names@).contains(name@),
{
    let mut k: usize = 0;
    while k < names.len()
        invariant
            k <= names@.len(),
            forall|i: int| 0 <= i < k ==> #[trigger] texts(names@)[i] != name@,
        decreases names@.len() - k,
    {
        if same_text(names[k].as_str(), name) {
            assert(texts(names@)[k as int] == name@);
            return true;
        }
        k += 1;
    }
    false
}

/// The runs of the rows that count, in order of appearance.
fn run_ids(rows: &[Row], mode: Option<&str>) -> (ids: Vec<String>)
    ensures
        texts(ids@) == runs(rows@, wanted(mode), rows@.len() as int),
{
    let mut ids: Vec<String> = Vec::new();
    let mut i: usize = 0;
    assert(texts(ids@) =~= Seq::<Seq<char>>::empty());
    while i < rows.len()
        invariant
            i <= rows@.len(),
            texts(ids@) == runs(rows@, wanted(mode), i as int),
        decreases rows@.len() - i,
    {
        if row_in_mode(&rows[i], mode) && !lists_name(ids.as_slice(), rows[i].run_id.as_str()) {
            let ghost earlier = ids@;
            ids.push(rows[i].run_id.clone());
            assert(texts(ids@) =~= texts(earlier).push(rows@[i as int].run_id@));
        }
        i += 1;
    }
    ids
}

/// Every group of a run has rows, all of one implementation.
proof fn lemma_groups(rows: Seq<Row>, list: Seq<usize>)
    requires
        valid(rows, list),
    ensures
        forall|k: int|
            0 <= k < groups_of(rows, list).len() ==> valid(rows, #[trigger] groups_of(rows, list)[k])
                && groups_of(rows, list)[k].len() > 0,
{
    let all = implementations(rows, list);
    let names = sorted_names(all);
    lemma_sorted_names(all);
    assert forall|k: int| 0 <= k < groups_of(rows, list).len() implies valid(
        rows,
        #[trigger] groups_of(rows, list)[k],
    ) && groups_of(rows, list)[k].len() > 0 by {
        assert(names.contains(names[k]));
        lemma_of_implementation(rows, list, names[k]);
    }
}

/// Sort the rows of the complete runs by run and implementation.
fn group_complete_runs(rows: &[Row], mode: Option<&str>) -> (groups: Vec<Vec<usize>>)
    ensures
        lists(groups@) == all_groups(rows@, wanted(mode)),
        forall|k: int|
            0 <= k < groups@.len() ==> valid(rows@, (#[trigger] groups@[k])@) && groups@[k]@.len()
                > 0,
{
    let ids = run_ids(rows, mode);
    let ghost names = texts(ids@);
    let mut groups: Vec<Vec<usize>> = Vec::new();
    let mut k: usize = 0;
    assert(names.take(0) =~= Seq::<Seq<char>>::empty());
    assert(lists(groups@) =~= Seq::<Seq<usize>>::empty());
    while k < ids.len()
        invariant
            k <= ids@.len(),
            names == texts(ids@),
            lists(groups@) == complete_groups(rows@, wanted(mode), names.take(k as int)),
            forall|k: int|
                0 <= k < groups@.len() ==> valid(rows@, (#[trigger] groups@[k])@)
                    && groups@[k]@.len() > 0,
        decreases ids@.len() - k,
    {
        proof {
            let now = names.take(k + 1);
            assert(now.drop_last() =~= names.take(k as int));
            assert(now.last() == ids@[k as int]@);
        }
        let run = rows_of_run(rows, mode, ids[k].as_str());
        if run_is_complete(rows, run.as_slice()) {
            let mut more = implementation_groups(rows, run.as_slice());
            let ghost earlier = groups@;
            let ghost added = more@;
            proof {
                lemma_groups(rows@, run@);
            }
            groups.append(&mut more);
            proof {
                assert(lists(groups@) =~= lists(earlier) + lists(added));
                assert forall|k: int| 0 <= k < groups@.len() implies valid(
                    rows@,
                    (#[trigger] groups@[k])@,
                ) && groups@[k]@.len() > 0 by {
                    if k >= earlier.len() {
                        assert(lists(added)[k - earlier.len()] == groups@[k]@);
                    }
                }
            }
        }
        k += 1;
    }
    assert(names.take(k as int) =~= names);
    groups
}

/// Determine the shapes of groups and find the broadest one.
fn find_reference(rows: &[Row], groups: &[Vec<usize>]) -> (r: Option<(usize, Vec<BenchmarkShape>)>)
    requires
        groups@.len() > 0,
        forall|k: int| 0 <= k < groups@.len() ==> valid(rows@, (#[trigger] groups@[k])@),
    ensures
        match r {
            Some((best, shapes)) => {
                &&& best == broadest(rows@, lists(groups@))
                &&& best < groups@.len()
                &&& shapes@.len() == groups@.len()
                &&& forall|k: int|
                    0 <= k < groups@.len() ==> (#[trigger] shapes@[k]).is_of(rows@, groups@[k]@)
            },
            None => exists|k: int|
                0 <= k < groups@.len() && !uniform(rows@, #[trigger] lists(groups@)[k]),
        },
{
    let ghost all = lists(groups@);
    let mut shapes: Vec<BenchmarkShape> = Vec::new();
    let mut best: usize = 0;
    let mut most: usize = 0;
    let mut k: usize = 0;
    while k < groups.len()
        invariant
            all == lists(groups@),
            0 < groups@.len(),
            k <= groups@.len(),
            forall|k: int| 0 <= k < groups@.len() ==> valid(rows@, (#[trigger] groups@[k])@),
            shapes@.len() == k,
            forall|i: int| 0 <= i < k ==> (#[trigger] shapes@[i]).is_of(rows@, groups@[i]@),
            k > 0 ==> {
                &&& best == broadest(rows@, all.take(k as int))
                &&& best < k
                &&& most == configurations(rows@, all[best as int]).len()
            },
        decreases groups@.len() - k,
    {
        match benchmark_shape(rows, groups[k].as_slice()) {
            None => {
                assert(!uniform(rows@, all[k as int]));
                return None;
            },
            Some(shape) => {
                let count: usize = configuration_count(&shape, rows, Ghost(groups@[k as int]@));
                proof {
                    let now = all.take(k + 1);
                    assert(now.drop_last() =~= all.take(k as int));
                    assert(now.last() == all[k as int]);
                    if k > 0 {
                        assert(now.drop_last()[best as int] == all[best as int]);
                        assert(now[best as int] == all[best as int]);
                    }
                }
                if k == 0 || count >= most {
                    best = k;
                    most = count;
                }
                shapes.push(shape);
            },
        }
        k += 1;
    }
    assert(all.take(k as int) =~= all);
    Some((best, shapes))
}

/// The implementations with the shape of the group at place `best`.
fn comparable_names(
    rows: &[Row],
    groups: &[Vec<usize>],
    shapes: &[BenchmarkShape],
    best: usize,
) -> (names: Vec<String>)
    requires
        best < groups@.len(),
        shapes@.len() == groups@.len(),
        forall|k: int|
            0 <= k < groups@.len() ==> (#[trigger] shapes@[k]).is_of(rows@, groups@[k]@),
    ensures
        texts(names@) == sorted_names(
            comparable(rows@, lists(groups@), lists(groups@)[best as int]),
        ),
{
    let ghost all = lists(groups@);
    let ghost reference = all[best as int];
    let mut names: Vec<String> = Vec::new();
    let mut k: usize = 0;
    assert(all.take(0) =~= Seq::<Seq<usize>>::empty());
    assert(texts(names@) =~= Seq::<Seq<char>>::empty());
    while k < groups.len()
        invariant
            all == lists(groups@),
            reference == all[best as int],
            best < groups@.len(),
            k <= groups@.len(),
            shapes@.len() == groups@.len(),
            forall|k: int|
                0 <= k < groups@.len() ==> (#[trigger] shapes@[k]).is_of(rows@, groups@[k]@),
            texts(names@) == sorted_names(comparable(rows@, all.take(k as int), reference)),
        decreases groups@.len() - k,
    {
        proof {
            let now = all.take(k + 1);
            assert(now.drop_last() =~= all.take(k as int));
            assert(now.last() == all[k as int]);
            assert(shapes@[k as int].is_of(rows@, groups@[k as int]@));
            assert(shapes@[best as int].is_of(rows@, groups@[best as int]@));
        }
        let same: bool = shapes_are_equal(
            rows,
            &shapes[k],
            &shapes[best],
            Ghost(groups@[k as int]@),
            Ghost(groups@[best as int]@),
        );
        if same {
            proof {
                let earlier = comparable(rows@, all.take(k as int), reference);
                let name = implementation_of(rows@, all[k as int]);
                assert(earlier.push(name).drop_last() =~= earlier);
            }
            add_name(&mut names, rows[shapes[k].first].implementation.as_str());
        }
        k += 1;
    }
    assert(all.take(k as int) =~= all);
    names
}

/// Find the newest group of an implementation with the shape of the group at
/// place `best`.
fn find_newest(
    rows: &[Row],
    groups: &[Vec<usize>],
    shapes: &[BenchmarkShape],
    best: usize,
    name: &str,
) -> (found: Option<usize>)
    requires
        best < groups@.len(),
        shapes@.len() == groups@.len(),
        forall|k: int|
            0 <= k < groups@.len() ==> (#[trigger] shapes@[k]).is_of(rows@, groups@[k]@),
    ensures
        newest(rows@, lists(groups@), lists(groups@)[best as int], name@) == match found {
            Some(k) => groups@[k as int]@,
            None => Seq::<usize>::empty(),
        },
        found matches Some(k) ==> k < groups@.len(),
{
    let ghost all = lists(groups@);
    let ghost reference = all[best as int];
    let mut k: usize = groups.len();
    assert(all.take(k as int) =~= all);
    while k > 0
        invariant
            all == lists(groups@),
            reference == all[best as int],
            best < groups@.len(),
            k <= groups@.len(),
            shapes@.len() == groups@.len(),
            forall|k: int|
                0 <= k < groups@.len() ==> (#[trigger] shapes@[k]).is_of(rows@, groups@[k]@),
            newest(rows@, all.take(k as int), reference, name@) == newest(
                rows@,
                all,
                reference,
                name@,
            ),
        decreases k,
    {
        k -= 1;
        proof {
            let now = all.take(k + 1);
            assert(now.drop_last() =~= all.take(k as int));
            assert(now.last() == all[k as int]);
            assert(shapes@[k as int].is_of(rows@, groups@[k as int]@));
            assert(shapes@[best as int].is_of(rows@, groups@[best as int]@));
        }
        if same_text(rows[shapes[k].first].implementation.as_str(), name) && shapes_are_equal(
            rows,
            &shapes[k],
            &shapes[best],
            Ghost(groups@[k as int]@),
            Ghost(groups@[best as int]@),
        ) {
            return Some(k);
        }
    }
    assert(all.take(0) =~= Seq::<Seq<usize>>::empty());
    None
}

/// Combine the newest comparable rows of every implementation.
pub fn combine_latest_runs(rows: &[Row], mode: Option<&str>) -> (list: Option<Vec<usize>>)
    ensures
        match list {
            Some(list) => combined(rows@, wanted(mode)) == Some(list@),
            None => combined(rows@, wanted(mode)) is None,
        },
{
    let groups = group_complete_runs(rows, mode);
    if groups.len() == 0 {
        return None;
    }
    match find_reference(rows, groups.as_slice()) {
        None => None,
        Some((best, shapes)) => {
            let ghost all = lists(groups@);
            let ghost reference = all[best as int];
            let names = comparable_names(rows, groups.as_slice(), shapes.as_slice(), best);
            let ghost known = texts(names@);
            let mut list: Vec<usize> = Vec::new();
            let mut k: usize = 0;
            assert(known.take(0) =~= Seq::<Seq<char>>::empty());
            while k < names.len()
                invariant
                    all == lists(groups@),
                    reference == all[best as int],
                    best < groups@.len(),
                    known == texts(names@),
                    k <= names@.len(),
                    shapes@.len() == groups@.len(),
                    forall|k: int|
                        0 <= k < groups@.len() ==> (#[trigger] shapes@[k]).is_of(
                            rows@,
                            groups@[k]@,
                        ),
                    list@ == newest_of(rows@, all, reference, known.take(k as int)),
                decreases names@.len() - k,
            {
                proof {
                    let now = known.take(k + 1);
                    assert(now.drop_last() =~= known.take(k as int));
                    assert(now.last() == names@[k as int]@);
                }
                let ghost earlier = list@;
                match find_newest(
                    rows,
                    groups.as_slice(),
                    shapes.as_slice(),
                    best,
                    names[k].as_str(),
                ) {
                    Some(place) => {
                        let mut more = groups[place].clone();
                        list.append(&mut more);
                        assert(list@ =~= earlier + groups@[place as int]@);
                    },
                    None => {
                        assert(earlier + Seq::<usize>::empty() =~= earlier);
                    },
                }
                k += 1;
            }
            proof {
                assert(known.take(k as int) =~= known);
                assert forall|k: int| 0 <= k < all.len() implies uniform(
                    rows@,
                    #[trigger] all[k],
                ) by {
                    assert(shapes@[k].is_of(rows@, groups@[k]@));
                }
            }
            Some(list)
        },
    }
}

/// Select the rows that a chart shows: those of the requested run, which must be
/// complete, or the newest comparable ones.
pub fn select_run_with_default_mode(
    rows: &[Row],
    requested_run: Option<String>,
    default_mode: Option<&str>,
) -> (selected: Result<Vec<usize>, ChartError>)
    ensures
        match requested_run {
            None => match combined(rows@, wanted(default_mode)) {
                Some(list) => selected is Ok && selected->Ok_0@ == list,
                None => selected == Err::<Vec<usize>, ChartError>(ChartError::NoCompleteRun),
            },
            Some(run) => {
                let list = run_rows(rows@, None, run@, rows@.len() as int);
                if list.len() == 0 {
                    selected == Err::<Vec<usize>, ChartError>(ChartError::RunNotFound(run))
                } else if !complete(rows@, list) {
                    selected == Err::<Vec<usize>, ChartError>(ChartError::RunIncomplete(run))
                } else {
                    selected is Ok && selected->Ok_0@ == list
                }
            },
        },
{
    match requested_run {
        None => match combine_latest_runs(rows, default_mode) {
            Some(list) => Ok(list),
            None => Err(ChartError::NoCompleteRun),
        },
        Some(run) => {
            let list = rows_of_run(rows, None, run.as_str());
            if list.len() == 0 {
                return Err(ChartError::RunNotFound(run));
            }
            if !run_is_complete(rows, list.as_slice()) {
                return Err(ChartError::RunIncomplete(run));
            }
            Ok(list)
        },
    }
}

} // verus!
