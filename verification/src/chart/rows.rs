//! Rows of benchmark results.
use vstd::prelude::*;

use crate::text::{append_decimal, decimal};

use super::words::{chars_of, find, first_place, same_text, text_of};

verus! {

/// One throughput result, apart from the rate that was measured.
#[derive(Clone, Debug, PartialEq, Eq)]
pub struct Row {
    /// The run it belongs to.
    pub run_id: String,
    /// Processor.
    pub cpu: String,
    /// How workers were pinned.
    pub affinity: String,
    /// How the channel was used.
    pub mode: String,
    /// What was measured.
    pub implementation: String,
    /// Name of the payload type.
    pub payload: String,
    /// Size of the payload.
    pub payload_bytes: usize,
    /// Producer threads.
    pub producers: usize,
    /// Consumer threads, for channels with several.
    pub consumers: Option<usize>,
    /// Capacity asked for.
    pub nominal_capacity: usize,
    /// What the capacity bounds.
    pub capacity_model: Option<String>,
    /// How full the channel was kept.
    pub throughput_profile: String,
    /// Lower bound on its occupancy.
    pub low_watermark: u64,
    /// Upper bound on its occupancy.
    pub high_watermark: u64,
    /// Which sample of its configuration this is.
    pub sample: usize,
    /// Samples of each configuration.
    pub samples: usize,
    /// Rows in the whole run, or zero if not recorded.
    pub expected_rows: usize,
}

/// How a pinning policy is described.
pub open spec fn affinity_text(affinity: Seq<char>) -> Seq<char> {
    let place = first_place(affinity, ':');
    if place < affinity.len() && affinity.take(place) == "physical-first"@ {
        "all workers pinned, physical cores first"@
    } else if place < affinity.len() && affinity.take(place) == "logical-order"@ {
        "all workers pinned in logical CPU order"@
    } else {
        affinity
    }
}

/// Part of a capacity in percent. A watermark that is too large to be multiplied
/// counts as the largest number.
pub open spec fn percent(watermark: u64, capacity: usize) -> nat {
    let hundredfold = watermark * 100;
    ((if hundredfold > u64::MAX {
        u64::MAX as int
    } else {
        hundredfold
    }) / capacity as int) as nat
}

/// How a throughput profile is described.
pub open spec fn profile_text(row: Row) -> Seq<char> {
    if row.throughput_profile@ == "saturated"@ && row.nominal_capacity > 0 {
        "saturated occupancy "@ + decimal(percent(row.low_watermark, row.nominal_capacity)) + "-"@
            + decimal(percent(row.high_watermark, row.nominal_capacity)) + "%"@
    } else if row.throughput_profile@ == "uncontrolled"@ {
        "natural queue occupancy"@
    } else {
        row.throughput_profile@
    }
}

/// Part of a capacity in percent.
fn percent_of(watermark: u64, capacity: usize) -> (part: u64)
    requires
        capacity > 0,
    ensures
        part == percent(watermark, capacity),
{
    let hundredfold: u64 = match watermark.checked_mul(100) {
        Some(product) => product,
        None => u64::MAX,
    };
    hundredfold / capacity as u64
}

impl Row {
    /// How the pinning policy is described.
    pub fn affinity_label(&self) -> (label: String)
        ensures
            label@ == affinity_text(self.affinity@),
    {
        let chars = chars_of(self.affinity.as_str());
        assert(chars@.subrange(0, chars@.len() as int) =~= chars@);
        let place: usize = find(chars.as_slice(), 0, chars.len(), ':');
        if place < chars.len() {
            let head = text_of(vstd::slice::slice_subrange(chars.as_slice(), 0, place));
            assert(chars@.subrange(0, place as int) =~= chars@.take(place as int));
            if same_text(head.as_str(), "physical-first") {
                return "all workers pinned, physical cores first".to_owned();
            }
            if same_text(head.as_str(), "logical-order") {
                return "all workers pinned in logical CPU order".to_owned();
            }
        }
        self.affinity.clone()
    }

    /// How the throughput profile is described.
    pub fn throughput_profile_label(&self) -> (label: String)
        ensures
            label@ == profile_text(*self),
    {
        let profile = self.throughput_profile.as_str();
        if same_text(profile, "saturated") && self.nominal_capacity > 0 {
            let mut label = "saturated occupancy ".to_owned();
            append_decimal(&mut label, percent_of(self.low_watermark, self.nominal_capacity));
            label.append("-");
            append_decimal(&mut label, percent_of(self.high_watermark, self.nominal_capacity));
            label.append("%");
            label
        } else if same_text(profile, "uncontrolled") {
            "natural queue occupancy".to_owned()
        } else {
            self.throughput_profile.clone()
        }
    }
}

} // verus!
