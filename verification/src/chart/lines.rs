//! Lines of a results file.
//!
//! A writer that was interrupted leaves part of a row, and the next one appends
//! to it. A row in such a line starts at its last intact opening.
use vstd::prelude::*;

use super::words::stands_at;

verus! {

/// How a row starts.
pub open spec fn opening() -> Seq<u8> {
    seq![123u8, 34u8, 114u8, 117u8, 110u8, 95u8, 105u8, 100u8, 34u8]
}

/// Where rows may start among the first `n` places of a line.
pub open spec fn starts(line: Seq<u8>, n: int) -> Seq<usize>
    decreases n,
{
    if n <= 0 {
        Seq::empty()
    } else {
        let earlier = starts(line, n - 1);
        if stands_at(line, opening(), n - 1) {
            earlier.push((n - 1) as usize)
        } else {
            earlier
        }
    }
}

/// Whether a row may start at a place.
fn starts_at(line: &[u8], i: usize) -> (found: bool)
    requires
        i < line@.len(),
    ensures
        found == stands_at(line@, opening(), i as int),
{
    if line.len() - i < 9 {
        return false;
    }
    let found: bool = line[i] == 123 && line[i + 1] == 34 && line[i + 2] == 114 && line[i + 3]
        == 117 && line[i + 4] == 110 && line[i + 5] == 95 && line[i + 6] == 105 && line[i + 7]
        == 100 && line[i + 8] == 34;
    proof {
        let part = line@.subrange(i as int, i + 9);
        if found {
            assert(part =~= opening());
        } else if part == opening() {
            assert forall|k: int| 0 <= k < 9 implies #[trigger] line@[i + k] == opening()[k] by {
                assert(part[k] == line@[i + k]);
            }
            assert(line@[i + 0] == 123);
            assert(line@[i + 1] == 34);
            assert(line@[i + 2] == 114);
            assert(line@[i + 3] == 117);
            assert(line@[i + 4] == 110);
            assert(line@[i + 5] == 95);
            assert(line@[i + 6] == 105);
            assert(line@[i + 7] == 100);
            assert(line@[i + 8] == 34);
        }
    }
    found
}

/// Where rows may start in a line: at every `{"run_id"`.
pub fn row_starts(line: &[u8]) -> (places: Vec<usize>)
    ensures
        places@ == starts(line@, line@.len() as int),
{
    let mut places: Vec<usize> = Vec::new();
    let mut i: usize = 0;
    while i < line.len()
        invariant
            i <= line@.len(),
            places@ == starts(line@, i as int),
        decreases line@.len() - i,
    {
        if starts_at(line, i) {
            places.push(i);
        }
        i += 1;
    }
    places
}

} // verus!
