//! Names of lanes.
use vstd::prelude::*;

verus! {

/// A lane slot and how often it was used before.
#[derive(Debug, Clone, Copy, PartialEq, Eq, Structural)]
pub struct LaneKey {
    /// Position in the lane table.
    pub slot: usize,
    /// Earlier uses of the slot.
    pub generation: usize,
}

impl LaneKey {
    /// The key of the next lane in the same slot.
    pub open spec fn next(self) -> LaneKey {
        LaneKey {
            slot: self.slot,
            generation: if self.generation == usize::MAX {
                0
            } else {
                (self.generation + 1) as usize
            },
        }
    }
}

/// The next lane in a slot has another key in the same slot, and lanes with
/// different keys are followed by lanes with different keys.
pub proof fn law_next_key_is_new(a: LaneKey, b: LaneKey)
    ensures
        a.next().slot == a.slot,
        a.next().generation != a.generation,
        a.next() == b.next() ==> a == b,
        a.generation < usize::MAX ==> a.next().generation == a.generation + 1,
{
}

} // verus!
