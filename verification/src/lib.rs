//! Rollup engine for a categorical "time spent in state" aggregate.
//!
//! The library merges independently computed state aggregates — each
//! covering a disjoint, time-ordered slice of an entity's history and
//! recording how long it spent in each labeled state — into one
//! aggregate covering the union of the time ranges, exactly as if the
//! whole history had been aggregated in one pass.  Around the merge it
//! provides the accumulator lifecycle the surrounding aggregation
//! protocol drives (accumulate, combine, serialize, deserialize,
//! finalize) and a byte codec for the spill boundary.

use vstd::prelude::*;

pub mod codec;
pub mod label_dict;
pub mod laws;
pub mod state_agg;
pub mod rollup_state;
pub mod sums;

verus! {

/// Errors of the rollup engine.
///
/// The first five are precondition violations of `merge`: they signal a
/// bug in the upstream guarantee and are fatal for the current
/// aggregation evaluation.  `MalformedPayload` is a deserialization
/// failure at the spill boundary.
#[derive(Clone, Copy, Debug, PartialEq, Eq, Structural)]
pub enum RollupError {
    /// One operand retains full timeline detail, the other does not.
    MismatchedCompression,
    /// The operands encode their labels differently.
    MismatchedStateTypes,
    /// Both operands start at the same time, so neither is "earlier".
    SameStartTime,
    /// The operands' time ranges overlap.
    OverlappingRanges,
    /// An operand carries no duration records.
    EmptyAggregate,
    /// A serialized accumulator could not be decoded.
    MalformedPayload,
}

} // verus!
