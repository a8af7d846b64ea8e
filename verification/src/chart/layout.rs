//! Where the parts of a heatmap chart stand, in pixels.
use vstd::prelude::*;

use crate::text::{append_decimal, decimal};

use super::series::Series;
use super::words::same_text;

verus! {

/// Height of the part of a chart that shows one payload.
pub const SECTION_HEIGHT: i32 = 236;

/// Height above the first section.
pub const HEADER_HEIGHT: i32 = 58;

/// Height below the last section.
pub const FOOTER_HEIGHT: i32 = 24;

/// Where the cells of a heatmap start.
pub const TABLE_LEFT: i32 = 184;

/// What is left free at the right.
pub const TABLE_RIGHT: i32 = 24;

/// The gap between groups of cells with the same number of producers.
pub const GROUP_GAP: i32 = 8;

/// The side of a text that its position names.
#[derive(Clone, Copy, Debug, PartialEq, Eq, Structural)]
pub enum Anchor {
    /// Its left end.
    Left,
    /// Its middle.
    Center,
    /// Its right end.
    Right,
}

/// How a text stands out.
#[derive(Clone, Copy, Debug, PartialEq, Eq, Structural)]
pub enum Tone {
    /// As usual.
    Plain,
    /// Less.
    Muted,
    /// More.
    Accent,
}

/// A text and where it stands.
#[derive(Clone, Debug, PartialEq, Eq)]
pub struct Label {
    /// The text.
    pub text: String,
    /// Where it stands.
    pub x: i32,
    /// Where it stands.
    pub y: i32,
    /// Which side is meant.
    pub anchor: Anchor,
    /// How it stands out.
    pub tone: Tone,
}

/// A text and where it stands, apart from its representation.
pub struct Mark {
    /// The text.
    pub text: Seq<char>,
    /// Where it stands.
    pub x: int,
    /// Where it stands.
    pub y: int,
    /// Which side is meant.
    pub anchor: Anchor,
    /// How it stands out.
    pub tone: Tone,
}

/// What a label shows.
pub open spec fn mark(label: Label) -> Mark {
    Mark {
        text: label.text@,
        x: label.x as int,
        y: label.y as int,
        anchor: label.anchor,
        tone: label.tone,
    }
}

/// What labels show.
pub open spec fn marks(labels: Seq<Label>) -> Seq<Mark> {
    Seq::new(labels.len(), |k: int| mark(labels[k]))
}

/// A cell of a heatmap.
#[derive(Clone, Copy, Debug, PartialEq, Eq, Structural)]
pub struct Cell {
    /// Left edge.
    pub x: i32,
    /// Upper edge.
    pub y: i32,
    /// Width.
    pub width: i32,
    /// Height.
    pub height: i32,
    /// Which series it shows.
    pub series: usize,
    /// Producer threads.
    pub producers: usize,
    /// Consumer threads; zero stands for a single one that is not counted.
    pub consumers: usize,
}

/// The texts and cells of a heatmap.
pub struct Heatmap {
    /// The texts.
    pub labels: Vec<Label>,
    /// The cells.
    pub cells: Vec<Cell>,
    /// Where the line below it stands.
    pub separator: i32,
}

/// How a series' name stands out: fanring more than the others.
pub open spec fn tone_of(label: Seq<char>) -> Tone {
    if label == "fanring"@ {
        Tone::Accent
    } else {
        Tone::Plain
    }
}

fn label_at(text: &str, x: i32, y: i32, anchor: Anchor, tone: Tone) -> (label: Label)
    ensures
        mark(label) == (Mark { text: text@, x: x as int, y: y as int, anchor, tone }),
{
    Label { text: text.to_owned(), x, y, anchor, tone }
}

fn number_at(n: usize, x: i32, y: i32) -> (label: Label)
    ensures
        mark(label) == (Mark {
            text: decimal(n as nat),
            x: x as int,
            y: y as int,
            anchor: Anchor::Center,
            tone: Tone::Plain,
        }),
{
    let mut text = String::new();
    append_decimal(&mut text, n as u64);
    assert(text@ =~= decimal(n as nat));
    Label { text, x, y, anchor: Anchor::Center, tone: Tone::Plain }
}

fn name_at(series: &Series, y: i32) -> (label: Label)
    ensures
        mark(label) == (Mark {
            text: series.label@,
            x: 28,
            y: y as int,
            anchor: Anchor::Left,
            tone: tone_of(series.label@),
        }),
{
    let tone: Tone = if same_text(series.label.as_str(), "fanring") {
        Tone::Accent
    } else {
        Tone::Plain
    };
    label_at(series.label.as_str(), 28, y, Anchor::Left, tone)
}

/// Division that drops the fraction.
pub open spec fn quotient(a: int, b: int) -> int {
    if a >= 0 {
        a / b
    } else {
        -((-a) / b)
    }
}

fn divide(a: i32, b: i32) -> (q: i32)
    requires
        b > 0,
        a > i32::MIN,
    ensures
        q == quotient(a as int, b as int),
        within(q as int, a as int),
        within(q * b, a as int),
{
    if a >= 0 {
        let q: i32 = ((a as u32) / (b as u32)) as i32;
        proof {
            vstd::arithmetic::div_mod::lemma_fundamental_div_mod(a as int, b as int);
            vstd::arithmetic::mul::lemma_mul_is_commutative(b as int, q as int);
            vstd::arithmetic::div_mod::lemma_div_is_ordered_by_denominator(a as int, 1, b as int);
            vstd::arithmetic::div_mod::lemma_div_basics(a as int);
            assert(0 <= q * b) by (nonlinear_arith)
                requires
                    0 <= q,
                    0 < b,
            ;
        }
        q
    } else {
        let m: u32 = (-a) as u32;
        let p: u32 = m / (b as u32);
        proof {
            vstd::arithmetic::div_mod::lemma_fundamental_div_mod(m as int, b as int);
            vstd::arithmetic::mul::lemma_mul_is_commutative(b as int, p as int);
            vstd::arithmetic::div_mod::lemma_div_is_ordered_by_denominator(m as int, 1, b as int);
            vstd::arithmetic::div_mod::lemma_div_basics(m as int);
            assert((-(p as int)) * b == -(p as int * b)) by (nonlinear_arith);
            assert(0 <= p * b) by (nonlinear_arith)
                requires
                    0 <= p,
                    0 < b,
            ;
        }
        -(p as i32)
    }
}

/// Width of a cell where only producers are counted.
pub open spec fn narrow_cell(width: int, producers: int) -> int {
    quotient(
        width - TABLE_LEFT - TABLE_RIGHT,
        if producers > 1 {
            producers
        } else {
            1
        },
    )
}

/// The texts of a heatmap with one consumer.
pub open spec fn mpsc_marks(
    series: Seq<Series>,
    producers: Seq<usize>,
    y: int,
    width: int,
) -> Seq<Mark> {
    let cell = narrow_cell(width, producers.len() as int);
    seq![
        Mark {
            text: "implementation"@,
            x: 28,
            y: y + 46,
            anchor: Anchor::Left,
            tone: Tone::Muted,
        },
        Mark {
            text: "producer threads"@,
            x: (TABLE_LEFT + width - TABLE_RIGHT) / 2,
            y: y + 38,
            anchor: Anchor::Center,
            tone: Tone::Muted,
        },
    ] + Seq::new(
        producers.len(),
        |k: int|
            Mark {
                text: decimal(producers[k] as nat),
                x: TABLE_LEFT + k * cell + cell / 2,
                y: y + 56,
                anchor: Anchor::Center,
                tone: Tone::Plain,
            },
    ) + Seq::new(
        series.len(),
        |k: int|
            Mark {
                text: series[k].label@,
                x: 28,
                y: y + 68 + k * 25 + 12,
                anchor: Anchor::Left,
                tone: tone_of(series[k].label@),
            },
    )
}

/// The cell of series `r` and the producers at place `c`.
pub open spec fn mpsc_cell(
    producers: Seq<usize>,
    y: int,
    width: int,
    r: int,
    c: int,
    cell: Cell,
) -> bool {
    let w = narrow_cell(width, producers.len() as int);
    &&& cell.x == TABLE_LEFT + c * w
    &&& cell.y == y + 68 + r * 25
    &&& cell.width == w
    &&& cell.height == 25
    &&& cell.series == r
    &&& cell.producers == producers[c]
    &&& cell.consumers == 0
}

/// A place left of the right margin.
proof fn lemma_column(k: int, n: int, cell: int, room: int)
    requires
        0 <= k < n,
        0 <= cell,
        cell * n <= room,
    ensures
        0 <= k * cell,
        k * cell + cell <= room,
{
    assert(0 <= k * cell && k * cell + cell <= cell * n) by (nonlinear_arith)
        requires
            0 <= k < n,
            0 <= cell,
    ;
}

/// Lay out a heatmap with one consumer: a line for each series and a column for
/// each number of producers.
pub fn mpsc_heatmap(series: &[Series], producers: &[usize], y: i32, width: i32) -> (map: Heatmap)
    requires
        TABLE_LEFT + TABLE_RIGHT <= width <= i32::MAX - TABLE_LEFT,
        0 <= y,
        y + 235 <= i32::MAX,
        producers@.len() <= i32::MAX,
        y + 68 + series@.len() * 25 <= i32::MAX,
    ensures
        marks(map.labels@) == mpsc_marks(series@, producers@, y as int, width as int),
        map.cells@.len() == series@.len() * producers@.len(),
        forall|r: int, c: int|
            0 <= r < series@.len() && 0 <= c < producers@.len() ==> mpsc_cell(
                producers@,
                y as int,
                width as int,
                r,
                c,
                #[trigger] map.cells@[r * producers@.len() + c],
            ),
        map.separator == y + 235,
{
    let columns: i32 = if producers.len() > 1 {
        producers.len() as i32
    } else {
        1
    };
    let room: i32 = width - TABLE_LEFT - TABLE_RIGHT;
    let cell: i32 = divide(room, columns);
    let ghost n = producers@.len() as int;
    assert(cell == narrow_cell(width as int, n));
    let mut labels: Vec<Label> = Vec::new();
    let mut cells: Vec<Cell> = Vec::new();
    let ghost wanted = mpsc_marks(series@, producers@, y as int, width as int);
    labels.push(label_at("implementation", 28, y + 46, Anchor::Left, Tone::Muted));
    labels.push(
        label_at(
            "producer threads",
            (TABLE_LEFT + width - TABLE_RIGHT) / 2,
            y + 38,
            Anchor::Center,
            Tone::Muted,
        ),
    );
    assert(marks(labels@) =~= wanted.take(2));
    let mut c: usize = 0;
    while c < producers.len()
        invariant
            c <= producers@.len(),
            n == producers@.len(),
            n <= i32::MAX,
            0 <= y,
            y + 235 <= i32::MAX,
            TABLE_LEFT + TABLE_RIGHT <= width <= i32::MAX - TABLE_LEFT,
            room == width - TABLE_LEFT - TABLE_RIGHT,
            0 <= cell <= room,
            n > 0 ==> cell * n <= room,
            cell == narrow_cell(width as int, n),
            wanted == mpsc_marks(series@, producers@, y as int, width as int),
            marks(labels@) == wanted.take(2 + c),
            labels@.len() == 2 + c,
        decreases producers@.len() - c,
    {
        proof {
            lemma_column(c as int, n, cell as int, room as int);
        }
        let x: i32 = TABLE_LEFT + (c as i32) * cell;
        let ghost before = labels@;
        labels.push(number_at(producers[c], x + cell / 2, y + 56));
        assert(mark(labels@[2 + c as int]) == wanted[2 + c as int]);
        assert(marks(labels@) =~= marks(before).push(wanted[2 + c as int]));
        assert(wanted.take(2 + c + 1) =~= wanted.take(2 + c as int).push(wanted[2 + c as int]));
        c += 1;
    }
    let mut r: usize = 0;
    assert(0 * n == 0);
    while r < series.len()
        invariant
            r <= series@.len(),
            n == producers@.len(),
            n <= i32::MAX,
            0 <= y,
            y + 235 <= i32::MAX,
            y + 68 + series@.len() * 25 <= i32::MAX,
            TABLE_LEFT + TABLE_RIGHT <= width <= i32::MAX - TABLE_LEFT,
            room == width - TABLE_LEFT - TABLE_RIGHT,
            0 <= cell <= room,
            n > 0 ==> cell * n <= room,
            cell == narrow_cell(width as int, n),
            wanted == mpsc_marks(series@, producers@, y as int, width as int),
            marks(labels@) == wanted.take(2 + n + r),
            labels@.len() == 2 + n + r,
            cells@.len() == r * n,
            forall|i: int, c: int|
                0 <= i < r && 0 <= c < n ==> mpsc_cell(
                    producers@,
                    y as int,
                    width as int,
                    i,
                    c,
                    #[trigger] cells@[i * n + c],
                ),
        decreases series@.len() - r,
    {
        let row_y: i32 = y + 68 + (r as i32) * 25;
        let ghost before = labels@;
        labels.push(name_at(&series[r], row_y + 12));
        assert(mark(labels@[2 + n + r]) == wanted[2 + n + r]);
        assert(marks(labels@) =~= marks(before).push(wanted[2 + n + r]));
        assert(wanted.take(2 + n + r + 1) =~= wanted.take(2 + n + r).push(wanted[2 + n + r]));
        let mut c: usize = 0;
        while c < producers.len()
            invariant
                c <= producers@.len(),
                r < series@.len(),
                n == producers@.len(),
                n <= i32::MAX,
                row_y == y + 68 + r * 25,
                TABLE_LEFT + TABLE_RIGHT <= width <= i32::MAX - TABLE_LEFT,
                room == width - TABLE_LEFT - TABLE_RIGHT,
                0 <= cell <= room,
                n > 0 ==> cell * n <= room,
                cell == narrow_cell(width as int, n),
                cells@.len() == r * n + c,
                forall|i: int, j: int|
                    (0 <= i < r && 0 <= j < n) || (i == r && 0 <= j < c) ==> mpsc_cell(
                        producers@,
                        y as int,
                        width as int,
                        i,
                        j,
                        #[trigger] cells@[i * n + j],
                    ),
            decreases producers@.len() - c,
        {
            proof {
                lemma_column(c as int, n, cell as int, room as int);
            }
            let ghost earlier = cells@;
            cells.push(
                Cell {
                    x: TABLE_LEFT + (c as i32) * cell,
                    y: row_y,
                    width: cell,
                    height: 25,
                    series: r,
                    producers: producers[c],
                    consumers: 0,
                },
            );
            proof {
                assert forall|i: int, j: int|
                    (0 <= i < r && 0 <= j < n) || (i == r && 0 <= j < c + 1) implies mpsc_cell(
                    producers@,
                    y as int,
                    width as int,
                    i,
                    j,
                    #[trigger] cells@[i * n + j],
                ) by {
                    if i < r {
                        lemma_place(i, j, r as int, n);
                        assert(cells@[i * n + j] == earlier[i * n + j]);
                    } else if j < c {
                        assert(cells@[i * n + j] == earlier[i * n + j]);
                    }
                }
            }
            c += 1;
        }
        proof {
            assert((r + 1) * n == r * n + n) by (nonlinear_arith);
        }
        r += 1;
    }
    assert(wanted.take(2 + n + r) =~= wanted);
    Heatmap { labels, cells, separator: y + 235 }
}

/// Earlier lines come first.
proof fn lemma_place(i: int, j: int, r: int, n: int)
    requires
        0 <= i < r,
        0 <= j < n,
    ensures
        0 <= i * n + j < r * n,
{
    assert(0 <= i * n + j < r * n) by (nonlinear_arith)
        requires
            0 <= i < r,
            0 <= j < n,
    ;
}

/// Room for the cells of a heatmap with several consumers.
pub open spec fn wide_room(width: int, producers: int) -> int {
    width - TABLE_LEFT - TABLE_RIGHT - GROUP_GAP * (if producers > 0 {
        producers - 1
    } else {
        0
    })
}

/// Width of a cell where producers and consumers are counted.
pub open spec fn wide_cell(width: int, producers: int, consumers: int) -> int {
    quotient(
        wide_room(width, producers),
        if producers * consumers > 1 {
            producers * consumers
        } else {
            1
        },
    )
}

/// Where the cells with the number of producers at place `p` start.
pub open spec fn group_start(width: int, producers: int, consumers: int, p: int) -> int {
    TABLE_LEFT + p * (consumers * wide_cell(width, producers, consumers) + GROUP_GAP)
}

/// The texts above the cells with the number of producers at place `p`.
pub open spec fn group_marks(
    producers: Seq<usize>,
    consumers: Seq<usize>,
    y: int,
    width: int,
    p: int,
) -> Seq<Mark> {
    let cell = wide_cell(width, producers.len() as int, consumers.len() as int);
    let start = group_start(width, producers.len() as int, consumers.len() as int, p);
    seq![
        Mark {
            text: decimal(producers[p] as nat),
            x: start + quotient(consumers.len() * cell, 2),
            y: y + 39,
            anchor: Anchor::Center,
            tone: Tone::Plain,
        },
    ] + Seq::new(
        consumers.len(),
        |c: int|
            Mark {
                text: decimal(consumers[c] as nat),
                x: start + c * cell + quotient(cell, 2),
                y: y + 61,
                anchor: Anchor::Center,
                tone: Tone::Plain,
            },
    )
}

/// The texts above the cells of the first `n` numbers of producers.
pub open spec fn column_marks(
    producers: Seq<usize>,
    consumers: Seq<usize>,
    y: int,
    width: int,
    n: int,
) -> Seq<Mark>
    decreases n,
{
    if n <= 0 {
        Seq::empty()
    } else {
        column_marks(producers, consumers, y, width, n - 1) + group_marks(
            producers,
            consumers,
            y,
            width,
            n - 1,
        )
    }
}

/// The texts of a heatmap with several consumers.
pub open spec fn mpmc_marks(
    series: Seq<Series>,
    producers: Seq<usize>,
    consumers: Seq<usize>,
    y: int,
    width: int,
) -> Seq<Mark> {
    seq![
        Mark {
            text: "producer threads"@,
            x: TABLE_LEFT - 12,
            y: y + 39,
            anchor: Anchor::Right,
            tone: Tone::Muted,
        },
        Mark {
            text: "consumer threads"@,
            x: TABLE_LEFT - 12,
            y: y + 61,
            anchor: Anchor::Right,
            tone: Tone::Muted,
        },
        Mark {
            text: "implementation"@,
            x: 28,
            y: y + 78,
            anchor: Anchor::Left,
            tone: Tone::Muted,
        },
    ] + column_marks(producers, consumers, y, width, producers.len() as int) + Seq::new(
        series.len(),
        |k: int|
            Mark {
                text: series[k].label@,
                x: 28,
                y: y + 89 + k * 29 + 14,
                anchor: Anchor::Left,
                tone: tone_of(series[k].label@),
            },
    )
}

/// The cell of series `r`, the producers at place `p` and the consumers at place
/// `c`.
pub open spec fn mpmc_cell(
    producers: Seq<usize>,
    consumers: Seq<usize>,
    y: int,
    width: int,
    r: int,
    p: int,
    c: int,
) -> Cell {
    let w = wide_cell(width, producers.len() as int, consumers.len() as int);
    let start = group_start(width, producers.len() as int, consumers.len() as int, p);
    Cell {
        x: (start + c * w) as i32,
        y: (y + 89 + r * 29) as i32,
        width: w as i32,
        height: 29,
        series: r as usize,
        producers: producers[p],
        consumers: consumers[c],
    }
}

/// The cells of series `r` with the first `n` numbers of producers.
pub open spec fn line_cells(
    producers: Seq<usize>,
    consumers: Seq<usize>,
    y: int,
    width: int,
    r: int,
    n: int,
) -> Seq<Cell>
    decreases n,
{
    if n <= 0 {
        Seq::empty()
    } else {
        line_cells(producers, consumers, y, width, r, n - 1) + Seq::new(
            consumers.len(),
            |c: int| mpmc_cell(producers, consumers, y, width, r, n - 1, c),
        )
    }
}

/// The cells of the first `n` series.
pub open spec fn mpmc_cells(
    producers: Seq<usize>,
    consumers: Seq<usize>,
    y: int,
    width: int,
    n: int,
) -> Seq<Cell>
    decreases n,
{
    if n <= 0 {
        Seq::empty()
    } else {
        mpmc_cells(producers, consumers, y, width, n - 1) + line_cells(
            producers,
            consumers,
            y,
            width,
            n - 1,
            producers.len() as int,
        )
    }
}

/// How far right or left of the table's edge something stands.
pub open spec fn within(x: int, room: int) -> bool {
    if room >= 0 {
        0 <= x <= room
    } else {
        room <= x <= 0
    }
}

/// Cells and groups of cells stay in their room.
proof fn lemma_wide(p: int, c: int, producers: int, consumers: int, cell: int, room: int)
    requires
        0 <= p < producers,
        0 <= consumers,
        0 <= c < consumers || c == 0,
        consumers > 0 ==> within(cell * (producers * consumers), room),
        within(cell, room),
    ensures
        within(consumers * cell, room),
        within(p * (consumers * cell), room),
        within(c * cell, room),
        within(p * (consumers * cell) + consumers * cell, room),
        within(p * (consumers * cell) + c * cell, room),
        consumers > 0 ==> within(p * (consumers * cell) + c * cell + cell, room),
        p * (consumers * cell + 8) == p * (consumers * cell) + 8 * p,
{
    let group = consumers * cell;
    if consumers == 0 {
        assert(group == 0);
        assert(p * group == 0) by (nonlinear_arith)
            requires
                group == 0,
        ;
        assert(c * cell == 0) by (nonlinear_arith)
            requires
                c == 0,
        ;
    } else {
        assert(group * producers == cell * (producers * consumers)) by (nonlinear_arith)
            requires
                group == consumers * cell,
        ;
        assert(within(cell * consumers, group)) by {
            assert(cell * consumers == group) by (nonlinear_arith)
                requires
                    group == consumers * cell,
            ;
            if room >= 0 {
                assert(group >= 0) by (nonlinear_arith)
                    requires
                        group == consumers * cell,
                        consumers >= 0,
                        cell >= 0,
                ;
            }
        }
        if room >= 0 {
            assert(group >= 0) by (nonlinear_arith)
                requires
                    group == consumers * cell,
                    consumers >= 0,
                    cell >= 0,
            ;
            lemma_column(p, producers, group, room);
            lemma_column(c, consumers, cell, group);
        } else {
            assert(group <= 0) by (nonlinear_arith)
                requires
                    group == consumers * cell,
                    consumers >= 0,
                    cell <= 0,
            ;
            assert((-group) * producers == -(group * producers)) by (nonlinear_arith);
            assert((-cell) * consumers == -(cell * consumers)) by (nonlinear_arith);
            lemma_column(p, producers, -group, -room);
            lemma_column(c, consumers, -cell, -group);
            assert(p * (-group) == -(p * group)) by (nonlinear_arith);
            assert(c * (-cell) == -(c * cell)) by (nonlinear_arith);
        }
    }
    assert(p * (group + 8) == p * group + 8 * p) by (nonlinear_arith);
}

/// Measures of a heatmap with several consumers.
struct Columns {
    /// Width of a cell.
    cell: i32,
    /// Width of a group of cells.
    group: i32,
}

/// Measure a heatmap with several consumers.
fn measure(producers: usize, consumers: usize, width: i32) -> (columns: Columns)
    requires
        TABLE_LEFT + TABLE_RIGHT <= width,
        0 < producers,
        8 * producers + TABLE_LEFT <= i32::MAX,
        producers * consumers <= i32::MAX,
    ensures
        columns.cell == wide_cell(width as int, producers as int, consumers as int),
        columns.group == consumers * columns.cell,
        within(columns.cell as int, wide_room(width as int, producers as int)),
        consumers > 0 ==> within(
            columns.cell * (producers * consumers),
            wide_room(width as int, producers as int),
        ),
{
    let room: i32 = width - TABLE_LEFT - TABLE_RIGHT - GROUP_GAP * (producers as i32 - 1);
    let topologies: usize = producers * consumers;
    let share: i32 = if topologies > 1 {
        topologies as i32
    } else {
        1
    };
    let cell: i32 = divide(room, share);
    proof {
        assert(consumers <= producers * consumers) by (nonlinear_arith)
            requires
                producers >= 1,
        ;
        if consumers > 0 {
            assert(share == producers * consumers);
        }
        lemma_wide(0, 0, producers as int, consumers as int, cell as int, room as int);
    }
    Columns { cell, group: (consumers as i32) * cell }
}

/// Add the texts above the cells with the number of producers at place `p`.
fn label_group(
    labels: &mut Vec<Label>,
    producers: &[usize],
    consumers: &[usize],
    y: i32,
    width: i32,
    p: usize,
    columns: &Columns,
)
    requires
        TABLE_LEFT + TABLE_RIGHT <= width,
        p < producers@.len(),
        8 * producers@.len() + TABLE_LEFT <= i32::MAX,
        producers@.len() * consumers@.len() <= i32::MAX,
        0 <= y,
        y + 235 <= i32::MAX,
        columns.cell == wide_cell(width as int, producers@.len() as int, consumers@.len() as int),
        columns.group == consumers@.len() * columns.cell,
        within(columns.cell as int, wide_room(width as int, producers@.len() as int)),
        consumers@.len() > 0 ==> within(
            columns.cell * (producers@.len() * consumers@.len()),
            wide_room(width as int, producers@.len() as int),
        ),
    ensures
        marks(final(labels)@) == marks(old(labels)@) + group_marks(
            producers@,
            consumers@,
            y as int,
            width as int,
            p as int,
        ),
{
    let ghost room = wide_room(width as int, producers@.len() as int);
    let ghost n = producers@.len() as int;
    let ghost m = consumers@.len() as int;
    let cell: i32 = columns.cell;
    proof {
        assert(m <= n * m) by (nonlinear_arith)
            requires
                n >= 1,
                m >= 0,
        ;
        lemma_wide(p as int, 0, n, m, cell as int, room);
        assert(room == width - 208 - 8 * (n - 1));
    }
    let start: i32 = TABLE_LEFT + (p as i32) * (columns.group + GROUP_GAP);
    assert(start == 184 + p * (m * cell) + 8 * p);
    let ghost before = marks(labels@);
    let ghost wanted = group_marks(producers@, consumers@, y as int, width as int, p as int);
    labels.push(number_at(producers[p], start + divide(columns.group, 2), y + 39));
    assert(marks(labels@) =~= before + wanted.take(1));
    let mut c: usize = 0;
    while c < consumers.len()
        invariant
            c <= consumers@.len(),
            p < producers@.len(),
            n == producers@.len(),
            m == consumers@.len(),
            m <= i32::MAX,
            8 * n + TABLE_LEFT <= i32::MAX,
            TABLE_LEFT + TABLE_RIGHT <= width,
            room == wide_room(width as int, n),
            0 <= y,
            y + 235 <= i32::MAX,
            cell == wide_cell(width as int, n, m),
            within(cell as int, room),
            m > 0 ==> within(cell * (n * m), room),
            start == group_start(width as int, n, m, p as int),
            wanted == group_marks(producers@, consumers@, y as int, width as int, p as int),
            marks(labels@) == before + wanted.take(1 + c),
        decreases consumers@.len() - c,
    {
        proof {
            lemma_wide(p as int, c as int, n, m, cell as int, room);
        }
        let x: i32 = start + (c as i32) * cell;
        let ghost earlier = labels@;
        labels.push(number_at(consumers[c], x + divide(cell, 2), y + 61));
        assert(marks(labels@) =~= marks(earlier).push(wanted[1 + c as int]));
        assert(before + wanted.take(1 + c + 1) =~= (before + wanted.take(1 + c as int)).push(
            wanted[1 + c as int],
        ));
        c += 1;
    }
    assert(wanted.take(1 + m) =~= wanted);
}

/// Add the cells of series `r` with the number of producers at place `p`.
fn add_cells(
    cells: &mut Vec<Cell>,
    producers: &[usize],
    consumers: &[usize],
    y: i32,
    width: i32,
    r: usize,
    p: usize,
    columns: &Columns,
)
    requires
        TABLE_LEFT + TABLE_RIGHT <= width,
        p < producers@.len(),
        8 * producers@.len() + TABLE_LEFT <= i32::MAX,
        producers@.len() * consumers@.len() <= i32::MAX,
        0 <= y,
        r <= i32::MAX,
        y + 89 + r * 29 <= i32::MAX,
        columns.cell == wide_cell(width as int, producers@.len() as int, consumers@.len() as int),
        columns.group == consumers@.len() * columns.cell,
        within(columns.cell as int, wide_room(width as int, producers@.len() as int)),
        consumers@.len() > 0 ==> within(
            columns.cell * (producers@.len() * consumers@.len()),
            wide_room(width as int, producers@.len() as int),
        ),
    ensures
        final(cells)@ == old(cells)@ + Seq::new(
            consumers@.len(),
            |c: int|
                mpmc_cell(
                    producers@,
                    consumers@,
                    y as int,
                    width as int,
                    r as int,
                    p as int,
                    c,
                ),
        ),
{
    let ghost room = wide_room(width as int, producers@.len() as int);
    let ghost n = producers@.len() as int;
    let ghost m = consumers@.len() as int;
    let cell: i32 = columns.cell;
    proof {
        assert(m <= n * m) by (nonlinear_arith)
            requires
                n >= 1,
                m >= 0,
        ;
        lemma_wide(p as int, 0, n, m, cell as int, room);
        assert(room == width - 208 - 8 * (n - 1));
    }
    let start: i32 = TABLE_LEFT + (p as i32) * (columns.group + GROUP_GAP);
    assert(start == 184 + p * (m * cell) + 8 * p);
    let row_y: i32 = y + 89 + (r as i32) * 29;
    let ghost before = cells@;
    let ghost wanted = Seq::new(
        consumers@.len(),
        |c: int|
            mpmc_cell(producers@, consumers@, y as int, width as int, r as int, p as int, c),
    );
    let mut c: usize = 0;
    assert(before + wanted.take(0) =~= before);
    while c < consumers.len()
        invariant
            c <= consumers@.len(),
            p < producers@.len(),
            n == producers@.len(),
            m == consumers@.len(),
            m <= i32::MAX,
            8 * n + TABLE_LEFT <= i32::MAX,
            TABLE_LEFT + TABLE_RIGHT <= width,
            room == wide_room(width as int, n),
            row_y == y + 89 + r * 29,
            cell == wide_cell(width as int, n, m),
            within(cell as int, room),
            m > 0 ==> within(cell * (n * m), room),
            start == group_start(width as int, n, m, p as int),
            wanted == Seq::new(
                consumers@.len(),
                |c: int|
                    mpmc_cell(
                        producers@,
                        consumers@,
                        y as int,
                        width as int,
                        r as int,
                        p as int,
                        c,
                    ),
            ),
            cells@ == before + wanted.take(c as int),
        decreases consumers@.len() - c,
    {
        proof {
            lemma_wide(p as int, c as int, n, m, cell as int, room);
        }
        let ghost earlier = cells@;
        cells.push(
            Cell {
                x: start + (c as i32) * cell,
                y: row_y,
                width: cell,
                height: 29,
                series: r,
                producers: producers[p],
                consumers: consumers[c],
            },
        );
        assert(cells@ =~= earlier.push(wanted[c as int]));
        assert(before + wanted.take(c + 1) =~= (before + wanted.take(c as int)).push(
            wanted[c as int],
        ));
        c += 1;
    }
    assert(wanted.take(m) =~= wanted);
}

/// Lay out a heatmap with several consumers: a line for each series, and a column
/// for each number of producers and consumers.
pub fn mpmc_heatmap(
    series: &[Series],
    producers: &[usize],
    consumers: &[usize],
    y: i32,
    width: i32,
) -> (map: Heatmap)
    requires
        TABLE_LEFT + TABLE_RIGHT <= width,
        8 * producers@.len() + TABLE_LEFT <= i32::MAX,
        producers@.len() * consumers@.len() <= i32::MAX,
        0 <= y,
        y + 235 <= i32::MAX,
        y + 89 + series@.len() * 29 <= i32::MAX,
    ensures
        marks(map.labels@) == mpmc_marks(series@, producers@, consumers@, y as int, width as int),
        map.cells@ == mpmc_cells(
            producers@,
            consumers@,
            y as int,
            width as int,
            series@.len() as int,
        ),
        map.separator == y + 235,
{
    let ghost n = producers@.len() as int;
    let ghost m = consumers@.len() as int;
    let mut labels: Vec<Label> = Vec::new();
    let mut cells: Vec<Cell> = Vec::new();
    labels.push(label_at("producer threads", TABLE_LEFT - 12, y + 39, Anchor::Right, Tone::Muted));
    labels.push(label_at("consumer threads", TABLE_LEFT - 12, y + 61, Anchor::Right, Tone::Muted));
    labels.push(label_at("implementation", 28, y + 78, Anchor::Left, Tone::Muted));
    let ghost head = marks(labels@);
    let columns: Columns = if producers.len() > 0 {
        measure(producers.len(), consumers.len(), width)
    } else {
        Columns { cell: 0, group: 0 }
    };
    let mut p: usize = 0;
    assert(head + Seq::<Mark>::empty() =~= head);
    while p < producers.len()
        invariant
            p <= producers@.len(),
            n == producers@.len(),
            m == consumers@.len(),
            TABLE_LEFT + TABLE_RIGHT <= width,
            8 * n + TABLE_LEFT <= i32::MAX,
            n * m <= i32::MAX,
            0 <= y,
            y + 235 <= i32::MAX,
            n > 0 ==> columns.cell == wide_cell(width as int, n, m) && columns.group == m
                * columns.cell && within(columns.cell as int, wide_room(width as int, n)) && (m > 0
                ==> within(columns.cell * (n * m), wide_room(width as int, n))),
            marks(labels@) == head + column_marks(
                producers@,
                consumers@,
                y as int,
                width as int,
                p as int,
            ),
        decreases producers@.len() - p,
    {
        label_group(&mut labels, producers, consumers, y, width, p, &columns);
        proof {
            let earlier = column_marks(producers@, consumers@, y as int, width as int, p as int);
            let more = group_marks(producers@, consumers@, y as int, width as int, p as int);
            assert((head + earlier) + more =~= head + (earlier + more));
        }
        p += 1;
    }
    let ghost top = marks(labels@);
    let ghost names = Seq::new(
        series@.len(),
        |k: int|
            Mark {
                text: series@[k].label@,
                x: 28,
                y: y + 89 + k * 29 + 14,
                anchor: Anchor::Left,
                tone: tone_of(series@[k].label@),
            },
    );
    let mut r: usize = 0;
    assert(top + names.take(0) =~= top);
    while r < series.len()
        invariant
            r <= series@.len(),
            n == producers@.len(),
            m == consumers@.len(),
            TABLE_LEFT + TABLE_RIGHT <= width,
            8 * n + TABLE_LEFT <= i32::MAX,
            n * m <= i32::MAX,
            0 <= y,
            y + 235 <= i32::MAX,
            y + 89 + series@.len() * 29 <= i32::MAX,
            n > 0 ==> columns.cell == wide_cell(width as int, n, m) && columns.group == m
                * columns.cell && within(columns.cell as int, wide_room(width as int, n)) && (m > 0
                ==> within(columns.cell * (n * m), wide_room(width as int, n))),
            names == Seq::new(
                series@.len(),
                |k: int|
                    Mark {
                        text: series@[k].label@,
                        x: 28,
                        y: y + 89 + k * 29 + 14,
                        anchor: Anchor::Left,
                        tone: tone_of(series@[k].label@),
                    },
            ),
            marks(labels@) == top + names.take(r as int),
            cells@ == mpmc_cells(producers@, consumers@, y as int, width as int, r as int),
        decreases series@.len() - r,
    {
        let ghost earlier = labels@;
        labels.push(name_at(&series[r], y + 89 + (r as i32) * 29 + 14));
        assert(marks(labels@) =~= marks(earlier).push(names[r as int]));
        assert(top + names.take(r + 1) =~= (top + names.take(r as int)).push(names[r as int]));
        let ghost above = cells@;
        let mut p: usize = 0;
        assert(above + Seq::<Cell>::empty() =~= above);
        while p < producers.len()
            invariant
                p <= producers@.len(),
                r < series@.len(),
                n == producers@.len(),
                m == consumers@.len(),
                TABLE_LEFT + TABLE_RIGHT <= width,
                8 * n + TABLE_LEFT <= i32::MAX,
                n * m <= i32::MAX,
                0 <= y,
                y + 89 + series@.len() * 29 <= i32::MAX,
                n > 0 ==> columns.cell == wide_cell(width as int, n, m) && columns.group == m
                    * columns.cell && within(columns.cell as int, wide_room(width as int, n)) && (m
                    > 0 ==> within(columns.cell * (n * m), wide_room(width as int, n))),
                cells@ == above + line_cells(
                    producers@,
                    consumers@,
                    y as int,
                    width as int,
                    r as int,
                    p as int,
                ),
            decreases producers@.len() - p,
        {
            add_cells(&mut cells, producers, consumers, y, width, r, p, &columns);
            proof {
                let some = line_cells(
                    producers@,
                    consumers@,
                    y as int,
                    width as int,
                    r as int,
                    p as int,
                );
                let more = Seq::new(
                    consumers@.len(),
                    |c: int|
                        mpmc_cell(
                            producers@,
                            consumers@,
                            y as int,
                            width as int,
                            r as int,
                            p as int,
                            c,
                        ),
                );
                assert((above + some) + more =~= above + (some + more));
            }
            p += 1;
        }
        r += 1;
    }
    assert(names.take(r as int) =~= names);
    Heatmap { labels, cells, separator: y + 235 }
}

} // verus!
