//! A whole heatmap chart: its sections, their rows, and its titles.
use vstd::prelude::*;

use crate::text::{append_decimal, decimal};

use super::layout::{FOOTER_HEIGHT, HEADER_HEIGHT, SECTION_HEIGHT};
use super::rows::Row;
use super::selection::{at, valid};
use super::words::{
    lemma_total, lemma_transitive, precedes, remove_all, same_text, squeeze, squeezed,
    text_precedes, without,
};

verus! {

/// Whether numbers stand in ascending order, each once.
pub open spec fn rising(list: Seq<usize>) -> bool {
    forall|i: int, j: int| 0 <= i < j < list.len() ==> list[i] < list[j]
}

/// Add a number to a sorted list, unless it is there already.
fn add_count(list: &mut Vec<usize>, n: usize)
    requires
        rising(old(list)@),
    ensures
        rising(final(list)@),
        forall|x: usize| #[trigger]
            final(list)@.contains(x) <==> old(list)@.contains(x) || x == n,
{
    let ghost before = list@;
    let mut p: usize = 0;
    while p < list.len() && list[p] < n
        invariant
            p <= list@.len(),
            list@ == before,
            forall|i: int| 0 <= i < p ==> list@[i] < n,
        decreases list@.len() - p,
    {
        p += 1;
    }
    if p < list.len() && list[p] == n {
        assert(list@.contains(n));
        return;
    }
    list.insert(p, n);
    proof {
        let after = list@;
        assert(after[p as int] == n);
        assert forall|x: usize| #[trigger] after.contains(x) <==> before.contains(x) || x == n by {
            if after.contains(x) && x != n {
                let i = choose|i: int| 0 <= i < after.len() && after[i] == x;
                if i < p {
                    assert(before[i] == x);
                } else {
                    assert(before[i - 1] == x);
                }
            }
            if before.contains(x) {
                let i = choose|i: int| 0 <= i < before.len() && before[i] == x;
                if i < p {
                    assert(after[i] == x);
                } else {
                    assert(after[i + 1] == x);
                }
            }
        }
    }
}

/// The numbers of producers in a list of rows, in ascending order, each once.
pub fn producer_counts(rows: &[Row], list: &[usize]) -> (counts: Vec<usize>)
    requires
        valid(rows@, list@),
    ensures
        rising(counts@),
        forall|n: usize| #[trigger]
            counts@.contains(n) <==> exists|k: int|
                0 <= k < list@.len() && (#[trigger] at(rows@, list@, k)).producers == n,
{
    let mut counts: Vec<usize> = Vec::new();
    let mut k: usize = 0;
    while k < list.len()
        invariant
            valid(rows@, list@),
            k <= list@.len(),
            rising(counts@),
            forall|n: usize| #[trigger]
                counts@.contains(n) <==> exists|i: int|
                    0 <= i < k && (#[trigger] at(rows@, list@, i)).producers == n,
        decreases list@.len() - k,
    {
        let ghost before = counts@;
        let n: usize = rows[list[k]].producers;
        add_count(&mut counts, n);
        proof {
            assert(at(rows@, list@, k as int).producers == n);
            assert forall|x: usize| #[trigger] counts@.contains(x) <==> exists|i: int|
                0 <= i < k + 1 && (#[trigger] at(rows@, list@, i)).producers == x by {
                assert(counts@.contains(x) <==> before.contains(x) || x == n);
                if before.contains(x) {
                    let i = choose|i: int|
                        0 <= i < k && (#[trigger] at(rows@, list@, i)).producers == x;
                    assert(at(rows@, list@, i).producers == x);
                }
            }
        }
        k += 1;
    }
    counts
}

/// The numbers of consumers in a list of rows, as far as they are counted, in
/// ascending order, each once.
pub fn consumer_counts(rows: &[Row], list: &[usize]) -> (counts: Vec<usize>)
    requires
        valid(rows@, list@),
    ensures
        rising(counts@),
        forall|n: usize| #[trigger]
            counts@.contains(n) <==> exists|k: int|
                0 <= k < list@.len() && (#[trigger] at(rows@, list@, k)).consumers == Some(n),
{
    let mut counts: Vec<usize> = Vec::new();
    let mut k: usize = 0;
    while k < list.len()
        invariant
            valid(rows@, list@),
            k <= list@.len(),
            rising(counts@),
            forall|n: usize| #[trigger]
                counts@.contains(n) <==> exists|i: int|
                    0 <= i < k && (#[trigger] at(rows@, list@, i)).consumers == Some(n),
        decreases list@.len() - k,
    {
        let ghost before = counts@;
        if let Some(n) = rows[list[k]].consumers {
            add_count(&mut counts, n);
            assert(at(rows@, list@, k as int).consumers == Some(n));
        }
        proof {
            assert forall|x: usize| #[trigger] counts@.contains(x) <==> exists|i: int|
                0 <= i < k + 1 && (#[trigger] at(rows@, list@, i)).consumers == Some(x) by {
                if before.contains(x) {
                    let i = choose|i: int|
                        0 <= i < k && (#[trigger] at(rows@, list@, i)).consumers == Some(x);
                    assert(at(rows@, list@, i).consumers == Some(x));
                }
                if counts@.contains(x) && !before.contains(x) {
                    assert(at(rows@, list@, k as int).consumers == Some(x));
                }
                if exists|i: int|
                    0 <= i < k + 1 && (#[trigger] at(rows@, list@, i)).consumers == Some(x) {
                    let i = choose|i: int|
                        0 <= i < k + 1 && (#[trigger] at(rows@, list@, i)).consumers == Some(x);
                    if i < k {
                        assert(before.contains(x));
                    }
                }
            }
        }
        k += 1;
    }
    counts
}

/// Whether some row counts its consumers.
pub fn is_mpmc(rows: &[Row], list: &[usize]) -> (mpmc: bool)
    requires
        valid(rows@, list@),
    ensures
        mpmc == exists|k: int|
            0 <= k < list@.len() && (#[trigger] at(rows@, list@, k)).consumers is Some,
{
    let mut k: usize = 0;
    while k < list.len()
        invariant
            valid(rows@, list@),
            k <= list@.len(),
            forall|i: int|
                0 <= i < k ==> (#[trigger] at(rows@, list@, i)).consumers is None,
        decreases list@.len() - k,
    {
        if rows[list[k]].consumers.is_some() {
            assert(at(rows@, list@, k as int).consumers is Some);
            return true;
        }
        k += 1;
    }
    false
}

/// A payload and its size.
#[derive(Debug)]
pub struct Payload {
    /// Its name.
    pub name: String,
    /// Its size.
    pub bytes: usize,
}

/// Whether one payload is drawn above another: smaller ones first, those of the
/// same size by name.
pub open spec fn above(a: Payload, b: Payload) -> bool {
    a.bytes < b.bytes || (a.bytes == b.bytes && precedes(a.name@, b.name@))
}

/// Whether the last row with a payload, from place `from` on, gives it that size.
pub open spec fn sized(rows: Seq<Row>, list: Seq<usize>, from: int, payload: Payload) -> bool {
    exists|k: int|
        from <= k < list.len() && (#[trigger] at(rows, list, k)).payload@ == payload.name@ && at(
            rows,
            list,
            k,
        ).payload_bytes == payload.bytes && forall|j: int|
            k < j < list.len() ==> (#[trigger] at(rows, list, j)).payload@ != payload.name@
}

/// Whether a name is among the payloads.
pub open spec fn is_listed(payloads: Seq<Payload>, name: Seq<char>) -> bool {
    exists|i: int| 0 <= i < payloads.len() && (#[trigger] payloads[i]).name@ == name
}

/// Whether the payloads are those of the rows from place `from` on, each once, in
/// the order they are drawn.
pub open spec fn are_payloads(
    rows: Seq<Row>,
    list: Seq<usize>,
    from: int,
    payloads: Seq<Payload>,
) -> bool {
    &&& forall|i: int, j: int|
        0 <= i < j < payloads.len() ==> above(#[trigger] payloads[i], #[trigger] payloads[j])
    &&& forall|i: int|
        0 <= i < payloads.len() ==> sized(rows, list, from, #[trigger] payloads[i])
    &&& forall|k: int|
        from <= k < list.len() ==> is_listed(payloads, (#[trigger] at(rows, list, k)).payload@)
}

/// Whether one payload is drawn above another.
fn is_above(a: &Payload, name: &str, bytes: usize) -> (r: bool)
    ensures
        r == (a.bytes < bytes || (a.bytes == bytes && precedes(a.name@, name@))),
{
    a.bytes < bytes || (a.bytes == bytes && text_precedes(a.name.as_str(), name))
}

/// Whether a name is among the payloads.
fn find_payload(payloads: &[Payload], name: &str) -> (found: bool)
    ensures
        found == is_listed(payloads@, name@),
{
    let mut i: usize = 0;
    while i < payloads.len()
        invariant
            i <= payloads@.len(),
            forall|j: int| 0 <= j < i ==> (#[trigger] payloads@[j]).name@ != name@,
        decreases payloads@.len() - i,
    {
        if same_text(payloads[i].name.as_str(), name) {
            assert(payloads@[i as int].name@ == name@);
            return true;
        }
        i += 1;
    }
    false
}

/// The order in which payloads are drawn is transitive.
proof fn lemma_above(a: Payload, b: Payload, c: Payload)
    requires
        above(a, b),
        above(b, c),
    ensures
        above(a, c),
{
    if a.bytes == b.bytes && b.bytes == c.bytes {
        lemma_transitive(a.name@, b.name@, c.name@);
    }
}

/// Add the payload of the row at place `k`, unless it is there already.
fn add_payload(payloads: &mut Vec<Payload>, rows: &[Row], list: &[usize], k: usize)
    requires
        valid(rows@, list@),
        k < list@.len(),
        are_payloads(rows@, list@, k + 1, old(payloads)@),
    ensures
        are_payloads(rows@, list@, k as int, final(payloads)@),
{
    let row = &rows[list[k]];
    let ghost before = payloads@;
    assert(*row == at(rows@, list@, k as int));
    let known: bool = find_payload(payloads.as_slice(), row.payload.as_str());
    if known {
        proof {
            assert forall|i: int| 0 <= i < payloads@.len() implies sized(
                rows@,
                list@,
                k as int,
                #[trigger] payloads@[i],
            ) by {
                assert(sized(rows@, list@, k + 1, payloads@[i]));
            }
        }
        return;
    }
    let mut p: usize = 0;
    while p < payloads.len() && is_above(
        &payloads[p],
        row.payload.as_str(),
        row.payload_bytes,
    )
        invariant
            p <= payloads@.len(),
            payloads@ == before,
            forall|i: int|
                0 <= i < p ==> (#[trigger] payloads@[i]).bytes < row.payload_bytes || (
                payloads@[i].bytes == row.payload_bytes && precedes(
                    payloads@[i].name@,
                    row.payload@,
                )),
        decreases payloads@.len() - p,
    {
        p += 1;
    }
    payloads.insert(p, Payload { name: row.payload.clone(), bytes: row.payload_bytes });
    proof {
        let after = payloads@;
        let new = after[p as int];
        assert forall|i: int| 0 <= i < p implies above(#[trigger] before[i], new) by {}
        assert forall|j: int| p <= j < before.len() implies above(new, #[trigger] before[j]) by {
            lemma_total(before[p as int].name@, new.name@);
            assert(is_listed(before, before[p as int].name@));
            assert(above(new, before[p as int]));
            if j > p {
                lemma_above(new, before[p as int], before[j]);
            }
        }
        assert forall|i: int, j: int| 0 <= i < j < after.len() implies above(
            #[trigger] after[i],
            #[trigger] after[j],
        ) by {
            if i < p {
                assert(after[i] == before[i]);
            } else if i > p {
                assert(after[i] == before[i - 1]);
            }
            if j < p {
                assert(after[j] == before[j]);
            } else if j > p {
                assert(after[j] == before[j - 1]);
            }
        }
        assert forall|j: int| k < j < list@.len() implies (#[trigger] at(rows@, list@, j)).payload@
            != new.name@ by {
            assert(is_listed(before, at(rows@, list@, j).payload@));
        }
        assert forall|i: int| 0 <= i < after.len() implies sized(
            rows@,
            list@,
            k as int,
            #[trigger] after[i],
        ) by {
            if i < p {
                assert(after[i] == before[i]);
                assert(sized(rows@, list@, k + 1, before[i]));
            } else if i > p {
                assert(after[i] == before[i - 1]);
                assert(sized(rows@, list@, k + 1, before[i - 1]));
            } else {
                assert(at(rows@, list@, k as int).payload@ == new.name@);
            }
        }
        assert forall|m: int| k <= m < list@.len() implies is_listed(
            after,
            (#[trigger] at(rows@, list@, m)).payload@,
        ) by {
            let name = at(rows@, list@, m).payload@;
            if m > k {
                assert(is_listed(before, name));
                let i = choose|i: int| 0 <= i < before.len() && (#[trigger] before[i]).name@ == name;
                if i < p {
                    assert(after[i].name@ == name);
                } else {
                    assert(after[i + 1].name@ == name);
                }
            } else {
                assert(after[p as int].name@ == name);
            }
        }
    }
}

/// The payloads in a list of rows, in the order they are drawn. Where rows
/// disagree about the size of a payload the last one counts.
pub fn payload_order(rows: &[Row], list: &[usize]) -> (payloads: Vec<Payload>)
    requires
        valid(rows@, list@),
    ensures
        are_payloads(rows@, list@, 0, payloads@),
{
    let mut payloads: Vec<Payload> = Vec::new();
    let mut k: usize = list.len();
    while k > 0
        invariant
            valid(rows@, list@),
            k <= list@.len(),
            are_payloads(rows@, list@, k as int, payloads@),
        decreases k,
    {
        k -= 1;
        add_payload(&mut payloads, rows, list, k);
    }
    payloads
}

/// The rows of a list with a payload.
pub open spec fn with_payload(rows: Seq<Row>, list: Seq<usize>, payload: Seq<char>) -> Seq<usize>
    decreases list.len(),
{
    if list.len() == 0 {
        list
    } else {
        let earlier = with_payload(rows, list.drop_last(), payload);
        if at(rows, list, list.len() - 1).payload@ == payload {
            earlier.push(list.last())
        } else {
            earlier
        }
    }
}

/// Pick the rows of a list with a payload.
pub fn payload_rows(rows: &[Row], list: &[usize], payload: &str) -> (chosen: Vec<usize>)
    requires
        valid(rows@, list@),
    ensures
        chosen@ == with_payload(rows@, list@, payload@),
        valid(rows@, chosen@),
{
    let mut chosen: Vec<usize> = Vec::new();
    let mut k: usize = 0;
    assert(list@.take(0) =~= Seq::<usize>::empty());
    while k < list.len()
        invariant
            valid(rows@, list@),
            k <= list@.len(),
            chosen@ == with_payload(rows@, list@.take(k as int), payload@),
            valid(rows@, chosen@),
        decreases list@.len() - k,
    {
        proof {
            let now = list@.take(k + 1);
            assert(now.drop_last() =~= list@.take(k as int));
            assert(now.last() == list@[k as int]);
        }
        if same_text(rows[list[k]].payload.as_str(), payload) {
            chosen.push(list[k]);
        }
        k += 1;
    }
    assert(list@.take(k as int) =~= list@);
    chosen
}

/// Whether a row is a sample of a cell. Rows that do not count consumers belong
/// to zero.
pub open spec fn in_cell(row: Row, key: Seq<char>, producers: usize, consumers: usize) -> bool {
    &&& row.implementation@ == key
    &&& row.producers == producers
    &&& consumers == match row.consumers {
        Some(n) => n,
        None => 0,
    }
}

/// The samples of a cell.
pub open spec fn samples_of(
    rows: Seq<Row>,
    list: Seq<usize>,
    key: Seq<char>,
    producers: usize,
    consumers: usize,
) -> Seq<usize>
    decreases list.len(),
{
    if list.len() == 0 {
        list
    } else {
        let earlier = samples_of(rows, list.drop_last(), key, producers, consumers);
        if in_cell(at(rows, list, list.len() - 1), key, producers, consumers) {
            earlier.push(list.last())
        } else {
            earlier
        }
    }
}

/// Pick the samples of a cell.
pub fn cell_samples(
    rows: &[Row],
    list: &[usize],
    key: &str,
    producers: usize,
    consumers: usize,
) -> (chosen: Vec<usize>)
    requires
        valid(rows@, list@),
    ensures
        chosen@ == samples_of(rows@, list@, key@, producers, consumers),
{
    let mut chosen: Vec<usize> = Vec::new();
    let mut k: usize = 0;
    assert(list@.take(0) =~= Seq::<usize>::empty());
    while k < list.len()
        invariant
            valid(rows@, list@),
            k <= list@.len(),
            chosen@ == samples_of(rows@, list@.take(k as int), key@, producers, consumers),
        decreases list@.len() - k,
    {
        proof {
            let now = list@.take(k + 1);
            assert(now.drop_last() =~= list@.take(k as int));
            assert(now.last() == list@[k as int]);
        }
        let row = &rows[list[k]];
        let n: usize = match row.consumers {
            Some(n) => n,
            None => 0,
        };
        if same_text(row.implementation.as_str(), key) && row.producers == producers && n
            == consumers {
            chosen.push(list[k]);
        }
        k += 1;
    }
    assert(list@.take(k as int) =~= list@);
    chosen
}

/// Width of a chart.
pub fn chart_width(mpmc: bool) -> (width: i32)
    ensures
        width == if mpmc {
            1440i32
        } else {
            1024i32
        },
{
    if mpmc {
        1440
    } else {
        1024
    }
}

/// Height of a chart with so many payloads.
pub fn chart_height(payloads: usize) -> (height: i32)
    requires
        HEADER_HEIGHT + payloads * SECTION_HEIGHT + FOOTER_HEIGHT <= i32::MAX,
    ensures
        height == HEADER_HEIGHT + payloads * SECTION_HEIGHT + FOOTER_HEIGHT,
{
    HEADER_HEIGHT + (payloads as i32) * SECTION_HEIGHT + FOOTER_HEIGHT
}

/// Where the section of a payload starts.
pub fn section_top(index: usize) -> (y: i32)
    requires
        HEADER_HEIGHT + index * SECTION_HEIGHT <= i32::MAX,
    ensures
        y == HEADER_HEIGHT + index * SECTION_HEIGHT,
{
    HEADER_HEIGHT + (index as i32) * SECTION_HEIGHT
}

/// The frame of a cell and its middle.
#[derive(Clone, Copy, Debug, PartialEq, Eq, Structural)]
pub struct Frame {
    /// Left edge.
    pub x0: i32,
    /// Upper edge.
    pub y0: i32,
    /// Right edge.
    pub x1: i32,
    /// Lower edge.
    pub y1: i32,
    /// Middle.
    pub cx: i32,
    /// Middle.
    pub cy: i32,
}

/// Half of a sum, without its fraction.
pub open spec fn middle(a: int, b: int) -> int {
    super::layout::quotient(a + b, 2)
}

fn midpoint(a: i32, b: i32) -> (m: i32)
    ensures
        m == middle(a as int, b as int),
{
    let sum: i64 = a as i64 + b as i64;
    if sum >= 0 {
        (sum / 2) as i32
    } else {
        let half: i64 = (-sum) / 2;
        (-half) as i32
    }
}

/// Leave a margin of two pixels round a cell.
pub fn cell_frame(x: i32, y: i32, width: i32, height: i32) -> (frame: Frame)
    requires
        i32::MIN + 4 <= x <= i32::MAX - 4,
        i32::MIN + 4 <= y <= i32::MAX - 4,
        i32::MIN + 4 <= x + width <= i32::MAX - 4,
        i32::MIN + 4 <= y + height <= i32::MAX - 4,
    ensures
        frame.x0 == x + 2,
        frame.y0 == y + 2,
        frame.x1 == x + width - 2,
        frame.y1 == y + height - 2,
        frame.cx == middle(x + 2, x + width - 2),
        frame.cy == middle(y + 2, y + height - 2),
{
    let x0: i32 = x + 2;
    let y0: i32 = y + 2;
    let x1: i32 = x + width - 2;
    let y1: i32 = y + height - 2;
    Frame { x0, y0, x1, y1, cx: midpoint(x0, x1), cy: midpoint(y0, y1) }
}

/// The title of a chart.
pub fn chart_title(mpmc: bool) -> (title: String)
    ensures
        title@ == if mpmc {
            "fanring MPMC comparison"@
        } else {
            "fanring MPSC comparison"@
        },
{
    if mpmc {
        "fanring MPMC comparison".to_owned()
    } else {
        "fanring MPSC comparison".to_owned()
    }
}

/// What the title of a section says of its payload.
pub open spec fn payload_text(rows: Seq<Row>, list: Seq<usize>) -> Seq<char> {
    if list.len() == 0 {
        "payload"@
    } else {
        at(rows, list, 0).payload@ + " ("@ + decimal(at(rows, list, 0).payload_bytes as nat)
            + " B)"@
    }
}

/// What the title of a section says of its payload.
pub fn payload_title(rows: &[Row], list: &[usize]) -> (title: String)
    requires
        valid(rows@, list@),
    ensures
        title@ == payload_text(rows@, list@),
{
    if list.len() == 0 {
        return "payload".to_owned();
    }
    let row = &rows[list[0]];
    let mut title = row.payload.clone();
    title.append(" (");
    append_decimal(&mut title, row.payload_bytes as u64);
    title.append(" B)");
    title
}

/// A processor's name without its brand markers and without a clock rate of
/// 3.20 GHz.
pub open spec fn short_name(cpu: Seq<char>) -> Seq<char> {
    squeezed(
        without(without(without(without(cpu, "(R)"@), "(TM)"@), "CPU "@), " @ 3.20GHz"@),
    )
}

/// The line under the title of a chart.
pub open spec fn subtitle_text(rows: Seq<Row>, list: Seq<usize>) -> Seq<char> {
    if list.len() == 0 {
        "unknown CPU"@
    } else {
        let row = at(rows, list, 0);
        short_name(row.cpu@) + "; "@ + row.mode@ + " operations; "@ + decimal(row.samples as nat)
            + " samples; nominal capacity "@ + decimal(row.nominal_capacity as nat) + " items"@
    }
}

/// The line under the title of a chart.
pub fn chart_subtitle(rows: &[Row], list: &[usize]) -> (line: String)
    requires
        valid(rows@, list@),
    ensures
        line@ == subtitle_text(rows@, list@),
{
    if list.len() == 0 {
        return "unknown CPU".to_owned();
    }
    let row = &rows[list[0]];
    proof {
        reveal_strlit("(R)");
        reveal_strlit("(TM)");
        reveal_strlit("CPU ");
        reveal_strlit(" @ 3.20GHz");
    }
    let name = remove_all(row.cpu.as_str(), "(R)");
    let name = remove_all(name.as_str(), "(TM)");
    let name = remove_all(name.as_str(), "CPU ");
    let name = remove_all(name.as_str(), " @ 3.20GHz");
    let mut line = squeeze(name.as_str());
    line.append("; ");
    line.append(row.mode.as_str());
    line.append(" operations; ");
    append_decimal(&mut line, row.samples as u64);
    line.append(" samples; nominal capacity ");
    append_decimal(&mut line, row.nominal_capacity as u64);
    line.append(" items");
    line
}

/// What the foot of a chart says about capacities.
pub open spec fn footnote_text(rows: Seq<Row>, list: Seq<usize>, mpmc: bool) -> Seq<char> {
    if forall|k: int|
        0 <= k < list.len() ==> (#[trigger] at(rows, list, k)).capacity_model is None {
        "Legacy results: capacity model was not recorded"@
    } else if mpmc {
        "Capacity: fanring uses per-ring HWM plus receiver staging; others use one shared bound"@
    } else {
        "Capacity: fanring uses per-ring HWM; others use one shared bound"@
    }
}

/// What the foot of a chart says about capacities.
pub fn capacity_footnote(rows: &[Row], list: &[usize], mpmc: bool) -> (note: String)
    requires
        valid(rows@, list@),
    ensures
        note@ == footnote_text(rows@, list@, mpmc),
{
    let mut k: usize = 0;
    while k < list.len()
        invariant
            valid(rows@, list@),
            k <= list@.len(),
            forall|i: int|
                0 <= i < k ==> (#[trigger] at(rows@, list@, i)).capacity_model is None,
        decreases list@.len() - k,
    {
        if rows[list[k]].capacity_model.is_some() {
            assert(at(rows@, list@, k as int).capacity_model is Some);
            return if mpmc {
                "Capacity: fanring uses per-ring HWM plus receiver staging; others use one shared bound".to_owned()
            } else {
                "Capacity: fanring uses per-ring HWM; others use one shared bound".to_owned()
            };
        }
        k += 1;
    }
    "Legacy results: capacity model was not recorded".to_owned()
}

} // verus!
