//! Where the cells of a heatmap stand, in plain terms.
use vstd::prelude::*;

use super::layout::{line_cells, mpmc_cell, mpmc_cells, mpmc_heatmap, mpsc_heatmap, Heatmap};
use super::series::Series;

verus! {

/// A heatmap for one consumer has a line of cells for each series and a column
/// for each number of producers. The cells of a line stand side by side without a
/// gap, the first at the left edge of the table and none beyond its right edge;
/// lines are 25 high and stand one below the other.
pub proof fn law_mpsc_cells(
    series: &[Series],
    producers: &[usize],
    y: i32,
    width: i32,
    map: Heatmap,
    r: int,
    c: int,
)
    requires
        call_ensures(mpsc_heatmap, (series, producers, y, width), map),
        208 <= width,
        0 <= r < series@.len(),
        0 <= c < producers@.len(),
    ensures
        map.cells@.len() == series@.len() * producers@.len(),
        map.separator == y + 235,
        ({
            let cell = map.cells@[r * producers@.len() + c];
            &&& cell.series == r
            &&& cell.producers == producers@[c]
            &&& cell.consumers == 0
            &&& cell.height == 25
            &&& cell.y == y + 68 + 25 * r
            &&& c == 0 ==> cell.x == 184
            &&& c > 0 ==> {
                let left = map.cells@[r * producers@.len() + (c - 1)];
                cell.x == left.x + left.width && cell.width == left.width
            }
            &&& cell.x + cell.width <= width - 24
            &&& c == producers@.len() - 1 ==> cell.x + cell.width > width - 24 - producers@.len()
        }),
{
    let n = producers@.len() as int;
    let cell = map.cells@[r * n + c];
    let w = cell.width as int;
    assert(cell.x == 184 + c * w);
    assert(c == 0 ==> c * w == 0) by (nonlinear_arith);
    if c > 0 {
        let left = map.cells@[r * n + (c - 1)];
        assert(left.x == 184 + (c - 1) * w);
        assert(c * w == (c - 1) * w + w) by (nonlinear_arith);
    }
    let room = width - 184 - 24;
    vstd::arithmetic::div_mod::lemma_fundamental_div_mod(room, n);
    vstd::arithmetic::div_mod::lemma_mod_bound(room, n);
    assert(n * w <= room < n * w + n);
    assert(0 <= w) by {
        if n > 1 {
            vstd::arithmetic::div_mod::lemma_div_pos_is_pos(room, n);
        }
    }
    assert(c * w + w <= n * w) by (nonlinear_arith)
        requires
            0 <= c < n,
            0 <= w,
    ;
    if c == n - 1 {
        assert(c * w + w == n * w) by (nonlinear_arith)
            requires
                c == n - 1,
        ;
    }
}

/// The cell of a series, of the producers at place `p` and the consumers at place
/// `c`, in the line of its series.
proof fn lemma_line(
    producers: Seq<usize>,
    consumers: Seq<usize>,
    y: int,
    width: int,
    r: int,
    n: int,
    p: int,
    c: int,
)
    requires
        0 <= p < n,
        0 <= c < consumers.len(),
    ensures
        line_cells(producers, consumers, y, width, r, n).len() == n * consumers.len(),
        0 <= p * consumers.len() + c < n * consumers.len(),
        line_cells(producers, consumers, y, width, r, n)[p * consumers.len() + c] == mpmc_cell(
            producers,
            consumers,
            y,
            width,
            r,
            p,
            c,
        ),
    decreases n,
{
    let m = consumers.len() as int;
    lemma_line_len(producers, consumers, y, width, r, n);
    lemma_line_len(producers, consumers, y, width, r, n - 1);
    assert(p * m + c < n * m && 0 <= p * m) by (nonlinear_arith)
        requires
            0 <= p < n,
            0 <= c < m,
    ;
    if p < n - 1 {
        lemma_line(producers, consumers, y, width, r, n - 1, p, c);
    } else {
        assert(p * m == (n - 1) * m);
    }
}

/// How many cells a line has.
proof fn lemma_line_len(
    producers: Seq<usize>,
    consumers: Seq<usize>,
    y: int,
    width: int,
    r: int,
    n: int,
)
    requires
        0 <= n,
    ensures
        line_cells(producers, consumers, y, width, r, n).len() == n * consumers.len(),
    decreases n,
{
    let m = consumers.len() as int;
    if n > 0 {
        lemma_line_len(producers, consumers, y, width, r, n - 1);
        assert((n - 1) * m + m == n * m) by (nonlinear_arith);
    }
}

/// The lines of a heatmap.
proof fn lemma_lines(
    producers: Seq<usize>,
    consumers: Seq<usize>,
    y: int,
    width: int,
    n: int,
    r: int,
    k: int,
)
    requires
        0 <= r < n,
        0 <= k < producers.len() * consumers.len(),
    ensures
        mpmc_cells(producers, consumers, y, width, n).len() == n * (producers.len()
            * consumers.len()),
        0 <= r * (producers.len() * consumers.len()) + k < n * (producers.len() * consumers.len()),
        mpmc_cells(producers, consumers, y, width, n)[r * (producers.len() * consumers.len()) + k]
            == line_cells(producers, consumers, y, width, r, producers.len() as int)[k],
    decreases n,
{
    let m = (producers.len() * consumers.len()) as int;
    lemma_lines_len(producers, consumers, y, width, n);
    lemma_lines_len(producers, consumers, y, width, n - 1);
    lemma_line_len(producers, consumers, y, width, n - 1, producers.len() as int);
    assert(r * m + k < n * m && 0 <= r * m) by (nonlinear_arith)
        requires
            0 <= r < n,
            0 <= k < m,
    ;
    if r < n - 1 {
        lemma_lines(producers, consumers, y, width, n - 1, r, k);
    } else {
        assert(r * m == (n - 1) * m);
    }
}

/// How many cells a heatmap has.
proof fn lemma_lines_len(producers: Seq<usize>, consumers: Seq<usize>, y: int, width: int, n: int)
    requires
        0 <= n,
    ensures
        mpmc_cells(producers, consumers, y, width, n).len() == n * (producers.len()
            * consumers.len()),
    decreases n,
{
    let m = (producers.len() * consumers.len()) as int;
    if n > 0 {
        lemma_lines_len(producers, consumers, y, width, n - 1);
        lemma_line_len(producers, consumers, y, width, n - 1, producers.len() as int);
        assert((n - 1) * m + m == n * m) by (nonlinear_arith);
    }
}

/// A heatmap for several consumers has a line of cells for each series and a
/// column for each pair of numbers of producers and consumers. It stands for that
/// series and that pair.
pub proof fn law_mpmc_cells(
    series: &[Series],
    producers: &[usize],
    consumers: &[usize],
    y: i32,
    width: i32,
    map: Heatmap,
    r: int,
    p: int,
    c: int,
)
    requires
        call_ensures(mpmc_heatmap, (series, producers, consumers, y, width), map),
        0 <= r < series@.len() <= usize::MAX,
        0 <= p < producers@.len(),
        0 <= c < consumers@.len(),
        0 <= y,
        y + 89 + 29 * series@.len() <= i32::MAX,
    ensures
        map.cells@.len() == series@.len() * (producers@.len() * consumers@.len()),
        map.separator == y + 235,
        ({
            let cell = map.cells@[r * (producers@.len() * consumers@.len()) + (p * consumers@.len()
                + c)];
            &&& cell.series == r
            &&& cell.producers == producers@[p]
            &&& cell.consumers == consumers@[c]
            &&& cell.height == 29
            &&& cell.y == y + 89 + 29 * r
        }),
{
    lemma_line(
        producers@,
        consumers@,
        y as int,
        width as int,
        r,
        producers@.len() as int,
        p,
        c,
    );
    lemma_lines(
        producers@,
        consumers@,
        y as int,
        width as int,
        series@.len() as int,
        r,
        p * consumers@.len() + c,
    );
}

} // verus!
