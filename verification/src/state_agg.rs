//! State aggregates and their merge.
//!
//! A state aggregate summarizes how long an entity spent in each of a
//! finite set of labeled states over a half-open time range
//! `[first_time, last_time)`.  It owns a label dictionary, one duration
//! record per distinct label, and — when it retains full timeline
//! detail (`!compressed`) — an ordered sequence of timeline segments
//! that exactly tiles the range.  `merge` combines two disjoint,
//! time-ordered aggregates into one covering the union of their ranges.

use vstd::pervasive::VecAdditionalExecFns;
use vstd::prelude::*;

use crate::label_dict::{
    entry, existing_entry, label_of, labels_equal, lemma_label_stable, lemma_ref_occurs,
    materialize, occurs, ref_valid, StateRef,
};
use crate::sums::{
    lemma_elem_le_sum, lemma_sum_durs_nonneg, lemma_sum_durs_of_dict_extend,
    lemma_sum_durs_of_prefix_step, lemma_sum_durs_of_push, lemma_sum_durs_of_update,
    lemma_sum_durs_prefix_step, lemma_sum_durs_push, lemma_sum_durs_update, lemma_sum_prefix_le,
    sum_durs, sum_durs_of,
};
use crate::RollupError;

verus! {

/// Time spent in one labeled state: one record per distinct label.
#[derive(Clone, Copy, Debug, PartialEq, Eq, Structural)]
pub struct DurationInState {
    pub state: StateRef,
    pub duration: i64,
}

/// One interval of constant state in the full-detail timeline.
#[derive(Clone, Copy, Debug, PartialEq, Eq, Structural)]
pub struct TimeInState {
    pub state: StateRef,
    pub start_time: i64,
    pub end_time: i64,
}

/// A state aggregate in its mutable working representation: separately
/// owned, resizable containers, convenient for mutation during merge.
///
/// `first_state` and `last_state` are indices into `durations`, naming
/// the records of the labels active at the two range endpoints.
#[derive(Debug)]
pub struct OwnedCompressedStateAgg {
    pub durations: Vec<DurationInState>,
    pub combined_durations: Vec<TimeInState>,
    pub first_time: i64,
    pub last_time: i64,
    pub first_state: u32,
    pub last_state: u32,
    pub states: Vec<u8>,
    pub compressed: bool,
    pub integer_states: bool,
}

/// The mathematical model of an aggregate.
#[verifier::ext_equal]
pub struct AggView {
    pub durations: Seq<DurationInState>,
    pub combined_durations: Seq<TimeInState>,
    pub first_time: i64,
    pub last_time: i64,
    pub first_state: u32,
    pub last_state: u32,
    pub states: Seq<u8>,
    pub compressed: bool,
    pub integer_states: bool,
}

impl View for OwnedCompressedStateAgg {
    type V = AggView;

    open spec fn view(&self) -> AggView {
        AggView {
            durations: self.durations@,
            combined_durations: self.combined_durations@,
            first_time: self.first_time,
            last_time: self.last_time,
            first_state: self.first_state,
            last_state: self.last_state,
            states: self.states@,
            compressed: self.compressed,
            integer_states: self.integer_states,
        }
    }
}

impl AggView {
    /// The label of duration record `i`.
    pub open spec fn rec_label(self, i: int) -> Seq<u8> {
        label_of(self.states, self.durations[i].state)
    }

    /// The label of timeline segment `i`.
    pub open spec fn seg_label(self, i: int) -> Seq<u8> {
        label_of(self.states, self.combined_durations[i].state)
    }

    /// The label active at the start of the range.
    pub open spec fn first_label(self) -> Seq<u8> {
        self.rec_label(self.first_state as int)
    }

    /// The label active at the end of the range.
    pub open spec fn last_label(self) -> Seq<u8> {
        self.rec_label(self.last_state as int)
    }

    /// Total duration over all records.
    pub open spec fn dur_total(self) -> int {
        sum_durs(self.durations)
    }

    /// Total duration attributed to one label.
    pub open spec fn dur_of(self, lab: Seq<u8>) -> int {
        sum_durs_of(self.durations, self.states, lab)
    }

    /// Length of the covered time range.
    pub open spec fn span(self) -> int {
        self.last_time - self.first_time
    }

    /// The duration records are well-formed: valid references,
    /// nonnegative durations, no duplicate labels.
    pub open spec fn recs_wf(self) -> bool {
        &&& forall|i: int|
            0 <= i < self.durations.len() ==> ref_valid(
                self.states,
                (#[trigger] self.durations[i]).state,
            )
        &&& forall|i: int|
            0 <= i < self.durations.len() ==> (#[trigger] self.durations[i]).duration >= 0
        &&& forall|i: int, j: int|
            0 <= i < j < self.durations.len() ==> #[trigger] self.rec_label(i)
                != #[trigger] self.rec_label(j)
    }

    /// The timeline segments are well-formed: valid references, and
    /// every segment's label appears among the duration records.
    pub open spec fn segs_wf(self) -> bool {
        &&& forall|i: int|
            0 <= i < self.combined_durations.len() ==> ref_valid(
                self.states,
                (#[trigger] self.combined_durations[i]).state,
            )
        &&& forall|i: int|
            0 <= i < self.combined_durations.len() ==> exists|j: int|
                0 <= j < self.durations.len() && #[trigger] self.seg_label(i) == self.rec_label(j)
    }

    /// The segments exactly tile `[first_time, last_time)`: ordered,
    /// adjacent, with no gap and no overlap.
    pub open spec fn tiles(self) -> bool {
        &&& self.combined_durations.len() > 0
        &&& self.combined_durations[0].start_time == self.first_time
        &&& self.combined_durations.last().end_time == self.last_time
        &&& forall|i: int|
            0 <= i < self.combined_durations.len() ==> (#[trigger] self.combined_durations[i]).start_time
                <= self.combined_durations[i].end_time
        &&& forall|i: int|
            0 <= i < self.combined_durations.len() - 1 ==> (#[trigger] self.combined_durations[i]).end_time
                == self.combined_durations[i + 1].start_time
    }

    /// Aggregate invariant.
    pub open spec fn wf(self) -> bool {
        &&& self.first_time <= self.last_time
        &&& self.durations.len() <= u32::MAX
        &&& self.durations.len() > 0 ==> self.first_state < self.durations.len()
            && self.last_state < self.durations.len()
        &&& self.recs_wf()
        &&& self.segs_wf()
        &&& (!self.compressed && self.durations.len() > 0 ==> self.tiles())
        &&& (self.compressed ==> self.combined_durations.len() == 0)
    }
}

/// Of two aggregates with distinct start times, the one starting first.
pub open spec fn earlier_of(a: AggView, b: AggView) -> AggView {
    if a.first_time < b.first_time {
        a
    } else {
        b
    }
}

/// Of two aggregates with distinct start times, the one starting last.
pub open spec fn later_of(a: AggView, b: AggView) -> AggView {
    if a.first_time < b.first_time {
        b
    } else {
        a
    }
}

/// Elapsed time between the end of the earlier range and the start of
/// the later one.
pub open spec fn merge_gap(a: AggView, b: AggView) -> int {
    later_of(a, b).first_time - earlier_of(a, b).last_time
}

/// The preconditions of `merge`: same flavor, same label encoding,
/// strictly ordered non-overlapping ranges, both operands non-empty.
pub open spec fn mergeable(a: AggView, b: AggView) -> bool {
    &&& a.compressed == b.compressed
    &&& a.integer_states == b.integer_states
    &&& a.first_time != b.first_time
    &&& earlier_of(a, b).last_time <= later_of(a, b).first_time
    &&& a.durations.len() > 0
    &&& b.durations.len() > 0
}

/// The error `merge` reports, checking the preconditions in order.
pub open spec fn merge_error(a: AggView, b: AggView) -> RollupError {
    if a.compressed != b.compressed {
        RollupError::MismatchedCompression
    } else if a.integer_states != b.integer_states {
        RollupError::MismatchedStateTypes
    } else if a.first_time == b.first_time {
        RollupError::SameStartTime
    } else if !(earlier_of(a, b).last_time <= later_of(a, b).first_time) {
        RollupError::OverlappingRanges
    } else {
        RollupError::EmptyAggregate
    }
}

/// The merged timeline's exact content: the earlier operand's segments
/// unchanged, the later operand's appended with the same bounds and
/// labels, and the boundary closed — the two boundary segments
/// coalesced into one when they share a label, else the earlier's last
/// segment extended forward to the later's first start.
pub open spec fn stitched_timeline_ok(
    cd: Seq<TimeInState>,
    cstates: Seq<u8>,
    e: AggView,
    l: AggView,
) -> bool {
    let elen = e.combined_durations.len() as int;
    let llen = l.combined_durations.len() as int;
    &&& (forall|t: int|
        0 <= t < elen - 1 ==> #[trigger] cd[t] == e.combined_durations[t])
    &&& (forall|t: int|
        0 <= t < elen - 1 ==> label_of(cstates, (#[trigger] cd[t]).state) == e.seg_label(t))
    &&& cd[elen - 1].start_time == e.combined_durations[elen - 1].start_time
    &&& label_of(cstates, cd[elen - 1].state) == e.seg_label(elen - 1)
    &&& if e.seg_label(elen - 1) == l.seg_label(0) {
        &&& cd.len() == elen + llen - 1
        &&& cd[elen - 1].end_time == l.combined_durations[0].end_time
        &&& (forall|t: int|
            elen <= t < elen + llen - 1 ==> (#[trigger] cd[t]).start_time
                == l.combined_durations[t - elen + 1].start_time && cd[t].end_time
                == l.combined_durations[t - elen + 1].end_time && label_of(cstates, cd[t].state)
                == l.seg_label(t - elen + 1))
    } else {
        &&& cd.len() == elen + llen
        &&& cd[elen - 1].end_time == l.combined_durations[0].start_time
        &&& (forall|t: int|
            elen <= t < elen + llen ==> (#[trigger] cd[t]).start_time == l.combined_durations[t
                - elen].start_time && cd[t].end_time == l.combined_durations[t - elen].end_time
                && label_of(cstates, cd[t].state) == l.seg_label(t - elen))
    }
}

/// What a successful merge returns: a well-formed aggregate covering
/// the union range, whose dictionary keeps the earlier operand's bytes
/// as a prefix and whose records keep the earlier operand's references
/// and labels in place, whose endpoint labels come from the earlier and
/// the later operand, whose per-label durations are the pointwise sums
/// of the operands' — the inter-aggregate gap attributed to the state
/// active at the end of the earlier operand — and, in the full-detail
/// flavor, whose timeline is exactly the two operands' stitched.
pub open spec fn merge_result_ok(c: AggView, a: AggView, b: AggView) -> bool {
    let e = earlier_of(a, b);
    let l = later_of(a, b);
    &&& c.wf()
    &&& c.first_time == e.first_time
    &&& c.last_time == l.last_time
    &&& c.compressed == a.compressed
    &&& c.integer_states == a.integer_states
    &&& c.durations.len() > 0
    &&& c.durations.len() <= a.durations.len() + b.durations.len()
    &&& c.durations.len() >= e.durations.len()
    &&& c.states.len() >= e.states.len()
    &&& c.states.subrange(0, e.states.len() as int) == e.states
    &&& (forall|j: int|
        0 <= j < e.durations.len() ==> (#[trigger] c.durations[j]).state == e.durations[j].state)
    &&& (forall|j: int| 0 <= j < e.durations.len() ==> #[trigger] c.rec_label(j) == e.rec_label(j))
    &&& c.first_state == e.first_state
    &&& c.first_label() == e.first_label()
    &&& c.last_label() == l.last_label()
    &&& c.dur_total() == e.dur_total() + l.dur_total() + merge_gap(a, b)
    &&& (forall|lab: Seq<u8>| #[trigger] c.dur_of(lab) == e.dur_of(lab) + l.dur_of(lab) + (
    if lab == e.last_label() {
        merge_gap(a, b)
    } else {
        0
    }))
    &&& (!a.compressed ==> stitched_timeline_ok(c.combined_durations, c.states, e, l))
}

/// Byte-for-byte copy of a dictionary buffer.
pub fn copy_bytes(v: &Vec<u8>) -> (out: Vec<u8>)
    ensures
        out@ == v@,
{
    let n = v.len();
    let mut out: Vec<u8> = Vec::new();
    let mut i: usize = 0;
    while i < n
        invariant
            n == v@.len(),
            i <= n,
            out@ == v@.subrange(0, i as int),
        decreases n - i,
    {
        out.push(v[i]);
        proof {
            assert(out@ =~= v@.subrange(0, i + 1));
        }
        i += 1;
    }
    proof {
        assert(out@ =~= v@);
    }
    out
}

/// Element-for-element copy of a duration record list.
pub fn copy_durations(v: &Vec<DurationInState>) -> (out: Vec<DurationInState>)
    ensures
        out@ == v@,
{
    let n = v.len();
    let mut out: Vec<DurationInState> = Vec::new();
    let mut i: usize = 0;
    while i < n
        invariant
            n == v@.len(),
            i <= n,
            out@ == v@.subrange(0, i as int),
        decreases n - i,
    {
        out.push(v[i]);
        proof {
            assert(out@ =~= v@.subrange(0, i + 1));
        }
        i += 1;
    }
    proof {
        assert(out@ =~= v@);
    }
    out
}

/// Element-for-element copy of a timeline segment list.
pub fn copy_segments(v: &Vec<TimeInState>) -> (out: Vec<TimeInState>)
    ensures
        out@ == v@,
{
    let n = v.len();
    let mut out: Vec<TimeInState> = Vec::new();
    let mut i: usize = 0;
    while i < n
        invariant
            n == v@.len(),
            i <= n,
            out@ == v@.subrange(0, i as int),
        decreases n - i,
    {
        out.push(v[i]);
        proof {
            assert(out@ =~= v@.subrange(0, i + 1));
        }
        i += 1;
    }
    proof {
        assert(out@ =~= v@);
    }
    out
}

/// Index of the first merged record whose label (against `ms`) equals
/// the label `r` stands for against `ld`, if any.
fn find_matching(md: &Vec<DurationInState>, ms: &Vec<u8>, ld: &Vec<u8>, r: StateRef) -> (res: Option<
    usize,
>)
    requires
        forall|j: int| 0 <= j < md@.len() ==> ref_valid(ms@, (#[trigger] md@[j]).state),
        ref_valid(ld@, r),
    ensures
        match res {
            Some(j) => j < md@.len() && label_of(ms@, md@[j as int].state) == label_of(ld@, r),
            None => forall|j: int|
                0 <= j < md@.len() ==> label_of(ms@, (#[trigger] md@[j]).state) != label_of(
                    ld@,
                    r,
                ),
        },
{
    let n = md.len();
    let mut j: usize = 0;
    while j < n
        invariant
            n == md@.len(),
            j <= n,
            forall|jj: int| 0 <= jj < md@.len() ==> ref_valid(ms@, (#[trigger] md@[jj]).state),
            ref_valid(ld@, r),
            forall|jj: int|
                0 <= jj < j ==> label_of(ms@, (#[trigger] md@[jj]).state) != label_of(ld@, r),
        decreases n - j,
    {
        if labels_equal(ms, md[j].state, ld, r) {
            return Some(j);
        }
        j += 1;
    }
    None
}

/// Stitched timeline, boundary segments coalesced: if the earlier
/// aggregate's last segment and the later one's first share a label,
/// the two become one segment spanning both, and the result still
/// exactly tiles the union range.
proof fn lemma_stitch_coalesce(e: AggView, l: AggView, cd: Seq<TimeInState>)
    requires
        e.tiles(),
        l.tiles(),
        e.first_time <= e.last_time,
        l.first_time <= l.last_time,
        e.last_time <= l.first_time,
        cd.len() == e.combined_durations.len() + l.combined_durations.len() - 1,
        forall|t: int|
            0 <= t < e.combined_durations.len() - 1 ==> (#[trigger] cd[t]).start_time
                == e.combined_durations[t].start_time && cd[t].end_time
                == e.combined_durations[t].end_time,
        cd[e.combined_durations.len() - 1].start_time == e.combined_durations[e.combined_durations.len()
            - 1].start_time,
        cd[e.combined_durations.len() - 1].end_time == l.combined_durations[0].end_time,
        forall|t: int|
            e.combined_durations.len() <= t < cd.len() ==> (#[trigger] cd[t]).start_time
                == l.combined_durations[t - e.combined_durations.len() + 1].start_time && cd[t].end_time
                == l.combined_durations[t - e.combined_durations.len() + 1].end_time,
    ensures
        cd.len() > 0,
        cd[0].start_time == e.first_time,
        cd.last().end_time == l.last_time,
        forall|i: int| 0 <= i < cd.len() ==> (#[trigger] cd[i]).start_time <= cd[i].end_time,
        forall|i: int| 0 <= i < cd.len() - 1 ==> (#[trigger] cd[i]).end_time == cd[i + 1].start_time,
{
    let elen = e.combined_durations.len() as int;
    let llen = l.combined_durations.len() as int;
    assert(e.combined_durations[elen - 1].end_time == e.last_time);
    assert(l.combined_durations[0].start_time == l.first_time);
    assert forall|i: int| 0 <= i < cd.len() implies (#[trigger] cd[i]).start_time
        <= cd[i].end_time by {
        if i < elen - 1 {
            assert(e.combined_durations[i].start_time <= e.combined_durations[i].end_time);
        } else if i == elen - 1 {
            assert(e.combined_durations[i].start_time <= e.combined_durations[i].end_time);
            assert(l.combined_durations[0].start_time <= l.combined_durations[0].end_time);
        } else {
            assert(l.combined_durations[i - elen + 1].start_time <= l.combined_durations[i - elen
                + 1].end_time);
        }
    }
    assert forall|i: int| 0 <= i < cd.len() - 1 implies (#[trigger] cd[i]).end_time == cd[i
        + 1].start_time by {
        if i < elen - 2 {
            assert(e.combined_durations[i].end_time == e.combined_durations[i + 1].start_time);
        } else if i == elen - 2 {
            assert(e.combined_durations[i].end_time == e.combined_durations[i + 1].start_time);
        } else if i == elen - 1 {
            assert(l.combined_durations[0].end_time == l.combined_durations[1].start_time);
        } else {
            assert(l.combined_durations[i - elen + 1].end_time == l.combined_durations[i - elen
                + 2].start_time);
        }
    }
    if llen == 1 {
        assert(cd.last().end_time == l.combined_durations[0].end_time);
        assert(l.combined_durations[llen - 1].end_time == l.last_time);
    } else {
        assert(cd.last().end_time == l.combined_durations[llen - 1].end_time);
        assert(l.combined_durations[llen - 1].end_time == l.last_time);
    }
    if elen == 1 {
        assert(cd[0].start_time == e.combined_durations[0].start_time);
    }
}

/// Stitched timeline, boundary labels distinct: the earlier aggregate's
/// last segment is extended forward to meet the later one's first
/// segment exactly, and the result exactly tiles the union range.
proof fn lemma_stitch_extend(e: AggView, l: AggView, cd: Seq<TimeInState>)
    requires
        e.tiles(),
        l.tiles(),
        e.first_time <= e.last_time,
        l.first_time <= l.last_time,
        e.last_time <= l.first_time,
        cd.len() == e.combined_durations.len() + l.combined_durations.len(),
        forall|t: int|
            0 <= t < e.combined_durations.len() - 1 ==> (#[trigger] cd[t]).start_time
                == e.combined_durations[t].start_time && cd[t].end_time
                == e.combined_durations[t].end_time,
        cd[e.combined_durations.len() - 1].start_time == e.combined_durations[e.combined_durations.len()
            - 1].start_time,
        cd[e.combined_durations.len() - 1].end_time == l.combined_durations[0].start_time,
        forall|t: int|
            e.combined_durations.len() <= t < cd.len() ==> (#[trigger] cd[t]).start_time
                == l.combined_durations[t - e.combined_durations.len()].start_time && cd[t].end_time
                == l.combined_durations[t - e.combined_durations.len()].end_time,
    ensures
        cd.len() > 0,
        cd[0].start_time == e.first_time,
        cd.last().end_time == l.last_time,
        forall|i: int| 0 <= i < cd.len() ==> (#[trigger] cd[i]).start_time <= cd[i].end_time,
        forall|i: int| 0 <= i < cd.len() - 1 ==> (#[trigger] cd[i]).end_time == cd[i + 1].start_time,
{
    let elen = e.combined_durations.len() as int;
    let llen = l.combined_durations.len() as int;
    assert(e.combined_durations[elen - 1].end_time == e.last_time);
    assert(l.combined_durations[0].start_time == l.first_time);
    assert forall|i: int| 0 <= i < cd.len() implies (#[trigger] cd[i]).start_time
        <= cd[i].end_time by {
        if i < elen - 1 {
            assert(e.combined_durations[i].start_time <= e.combined_durations[i].end_time);
        } else if i == elen - 1 {
            assert(e.combined_durations[i].start_time <= e.combined_durations[i].end_time);
        } else {
            assert(l.combined_durations[i - elen].start_time <= l.combined_durations[i
                - elen].end_time);
        }
    }
    assert forall|i: int| 0 <= i < cd.len() - 1 implies (#[trigger] cd[i]).end_time == cd[i
        + 1].start_time by {
        if i < elen - 2 {
            assert(e.combined_durations[i].end_time == e.combined_durations[i + 1].start_time);
        } else if i == elen - 2 {
            assert(e.combined_durations[i].end_time == e.combined_durations[i + 1].start_time);
        } else if i == elen - 1 {
        } else {
            assert(l.combined_durations[i - elen].end_time == l.combined_durations[i - elen
                + 1].start_time);
        }
    }
    assert(cd.last().end_time == l.combined_durations[llen - 1].end_time);
    assert(l.combined_durations[llen - 1].end_time == l.last_time);
    if elen == 1 {
        assert(cd[0].start_time == e.combined_durations[0].start_time);
    }
}

/// Merge the two operands' duration records: a fresh dictionary seeded
/// with the earlier operand's label text, the earlier records copied,
/// and each later record either added into the matching record or
/// appended under a freshly inserted label.  Returns the merged
/// dictionary, the merged records, and the index of the record holding
/// the later operand's last-state label.
fn merge_records(earlier: &OwnedCompressedStateAgg, later: &OwnedCompressedStateAgg) -> (out: (
    Vec<u8>,
    Vec<DurationInState>,
    u32,
))
    requires
        earlier@.wf(),
        later@.wf(),
        earlier@.durations.len() > 0,
        later@.durations.len() > 0,
        earlier@.durations.len() + later@.durations.len() <= u32::MAX,
        earlier@.dur_total() + later@.dur_total() <= i64::MAX,
    ensures
        out.0@.len() >= earlier@.states.len(),
        out.0@.subrange(0, earlier@.states.len() as int) == earlier@.states,
        out.1@.len() >= earlier@.durations.len(),
        out.1@.len() <= earlier@.durations.len() + later@.durations.len(),
        forall|j: int|
            0 <= j < earlier@.durations.len() ==> (#[trigger] out.1@[j]).state
                == earlier@.durations[j].state,
        forall|j: int| 0 <= j < out.1@.len() ==> ref_valid(out.0@, (#[trigger] out.1@[j]).state),
        forall|j: int| 0 <= j < out.1@.len() ==> (#[trigger] out.1@[j]).duration >= 0,
        forall|j1: int, j2: int|
            #![trigger out.1@[j1], out.1@[j2]]
            0 <= j1 < j2 < out.1@.len() ==> label_of(out.0@, out.1@[j1].state) != label_of(
                out.0@,
                out.1@[j2].state,
            ),
        forall|k: int|
            0 <= k < later@.durations.len() ==> exists|j: int|
                0 <= j < out.1@.len() && label_of(out.0@, out.1@[j].state)
                    == #[trigger] later@.rec_label(k),
        sum_durs(out.1@) == earlier@.dur_total() + later@.dur_total(),
        forall|lab: Seq<u8>| #[trigger] sum_durs_of(out.1@, out.0@, lab) == earlier@.dur_of(lab)
            + later@.dur_of(lab),
        out.2 < out.1@.len(),
        label_of(out.0@, out.1@[out.2 as int].state) == later@.last_label(),
{
    let ghost e = earlier@;
    let ghost l = later@;
    let mut merged_states = copy_bytes(&earlier.states);
    let mut merged_durations = copy_durations(&earlier.durations);
    let mut new_last_state: u32 = 0;
    let lat_len = later.durations.len();
    proof {
        assert(l.durations.subrange(0, 0) =~= Seq::<DurationInState>::empty());
        assert(merged_states@.subrange(0, e.states.len() as int) =~= e.states);
        assert forall|j1: int, j2: int|
            #![trigger merged_durations@[j1], merged_durations@[j2]]
            0 <= j1 < j2 < merged_durations@.len() implies label_of(
            merged_states@,
            merged_durations@[j1].state,
        ) != label_of(merged_states@, merged_durations@[j2].state) by {
            assert(e.rec_label(j1) != e.rec_label(j2));
        }
    }
    let mut i: usize = 0;
    while i < lat_len
        invariant
            e.wf(),
            l.wf(),
            earlier@ == e,
            later@ == l,
            e.dur_total() + l.dur_total() <= i64::MAX,
            lat_len == l.durations.len(),
            e.durations.len() > 0,
            l.durations.len() > 0,
            e.durations.len() + l.durations.len() <= u32::MAX,
            i <= lat_len,
            l.last_state < lat_len,
            // dictionary growth
            merged_states@.len() >= e.states.len(),
            merged_states@.subrange(0, e.states.len() as int) == e.states,
            // shape of the merged records
            merged_durations@.len() >= e.durations.len(),
            merged_durations@.len() <= e.durations.len() + i,
            forall|j: int|
                0 <= j < e.durations.len() ==> (#[trigger] merged_durations@[j]).state
                    == e.durations[j].state,
            forall|j: int|
                0 <= j < merged_durations@.len() ==> ref_valid(
                    merged_states@,
                    (#[trigger] merged_durations@[j]).state,
                ),
            forall|j: int|
                0 <= j < merged_durations@.len() ==> (#[trigger] merged_durations@[j]).duration
                    >= 0,
            forall|j1: int, j2: int|
                #![trigger merged_durations@[j1], merged_durations@[j2]]
                0 <= j1 < j2 < merged_durations@.len() ==> label_of(
                    merged_states@,
                    merged_durations@[j1].state,
                ) != label_of(merged_states@, merged_durations@[j2].state),
            // every processed label of the later operand is present
            forall|k: int|
                0 <= k < i ==> exists|j: int|
                    0 <= j < merged_durations@.len() && label_of(
                        merged_states@,
                        merged_durations@[j].state,
                    ) == #[trigger] l.rec_label(k),
            // sums
            sum_durs(merged_durations@) == e.dur_total() + sum_durs(
                l.durations.subrange(0, i as int),
            ),
            forall|lab: Seq<u8>| #[trigger] sum_durs_of(merged_durations@, merged_states@, lab)
                == e.dur_of(lab) + sum_durs_of(l.durations.subrange(0, i as int), l.states, lab),
            // the later operand's last label, once seen, is tracked
            i > l.last_state ==> new_last_state < merged_durations@.len() && label_of(
                merged_states@,
                merged_durations@[new_last_state as int].state,
            ) == l.last_label(),
        decreases lat_len - i,
    {
        let rec = later.durations[i];
        proof {
            assert(rec == l.durations[i as int]);
            assert(ref_valid(l.states, rec.state));
            assert(l.rec_label(i as int) == label_of(l.states, rec.state));
            lemma_sum_durs_prefix_step(l.durations, i as int);
            lemma_sum_prefix_le(l.durations, i + 1);
            lemma_sum_durs_of_prefix_step(l.durations, l.states, i as int);
        }
        let found = find_matching(&merged_durations, &merged_states, &later.states, rec.state);
        match found {
            Some(j) => {
                let mut tmp = merged_durations[j];
                proof {
                    lemma_elem_le_sum(merged_durations@, j as int);
                    lemma_sum_durs_nonneg(l.durations.subrange(0, i as int));
                }
                tmp.duration = tmp.duration + rec.duration;
                proof {
                    lemma_sum_durs_update(merged_durations@, j as int, tmp);
                    lemma_sum_durs_of_update(merged_durations@, merged_states@, j as int, tmp);
                }
                let ghost md_old = merged_durations@;
                merged_durations.set(j, tmp);
                if i == later.last_state as usize {
                    new_last_state = j as u32;
                }
                proof {
                    assert forall|jj: int|
                        0 <= jj < merged_durations@.len() implies (#[trigger] merged_durations@[jj]).state
                        == md_old[jj].state by {}
                    assert forall|kk: int| 0 <= kk < i + 1 implies exists|jx: int|
                        0 <= jx < merged_durations@.len() && label_of(
                            merged_states@,
                            merged_durations@[jx].state,
                        ) == #[trigger] l.rec_label(kk) by {
                        if kk < i {
                            let j0 = choose|j0: int|
                                0 <= j0 < md_old.len() && label_of(merged_states@, md_old[j0].state)
                                    == l.rec_label(kk);
                            assert(label_of(merged_states@, merged_durations@[j0].state)
                                == l.rec_label(kk));
                        } else {
                            assert(label_of(merged_states@, merged_durations@[j as int].state)
                                == l.rec_label(i as int));
                        }
                    }
                }
            },
            None => {
                let lbl = materialize(&later.states, rec.state);
                let ghost ms_old = merged_states@;
                let nref = entry(&mut merged_states, &lbl);
                proof {
                    assert(merged_states@.subrange(0, ms_old.len() as int) =~= ms_old);
                    assert forall|jj: int|
                        0 <= jj < merged_durations@.len() implies ref_valid(
                        merged_states@,
                        (#[trigger] merged_durations@[jj]).state,
                    ) && label_of(merged_states@, merged_durations@[jj].state) == label_of(
                        ms_old,
                        merged_durations@[jj].state,
                    ) by {
                        lemma_label_stable(ms_old, merged_states@, merged_durations@[jj].state);
                    }
                    lemma_sum_durs_of_dict_extend(merged_durations@, ms_old, merged_states@);
                    assert(merged_states@.subrange(0, e.states.len() as int) =~= ms_old.subrange(
                        0,
                        e.states.len() as int,
                    ));
                }
                let newrec = DurationInState { state: nref, duration: rec.duration };
                proof {
                    lemma_sum_durs_push(merged_durations@, newrec);
                    lemma_sum_durs_of_push(merged_durations@, merged_states@, newrec);
                }
                let ghost md_pre = merged_durations@;
                merged_durations.push(newrec);
                if i == later.last_state as usize {
                    new_last_state = (merged_durations.len() - 1) as u32;
                }
                proof {
                    assert forall|kk: int| 0 <= kk < i + 1 implies exists|jx: int|
                        0 <= jx < merged_durations@.len() && label_of(
                            merged_states@,
                            merged_durations@[jx].state,
                        ) == #[trigger] l.rec_label(kk) by {
                        if kk < i {
                            let j0 = choose|j0: int|
                                0 <= j0 < md_pre.len() && label_of(ms_old, md_pre[j0].state)
                                    == l.rec_label(kk);
                            lemma_label_stable(ms_old, merged_states@, md_pre[j0].state);
                            assert(merged_durations@[j0] == md_pre[j0]);
                            assert(label_of(merged_states@, merged_durations@[j0].state)
                                == l.rec_label(kk));
                        } else {
                            let jn = merged_durations@.len() - 1;
                            assert(merged_durations@[jn] == newrec);
                            assert(label_of(merged_states@, newrec.state) == l.rec_label(i as int));
                        }
                    }
                }
            },
        }
        i += 1;
    }
    proof {
        assert(l.durations.subrange(0, lat_len as int) =~= l.durations);
    }
    (merged_states, merged_durations, new_last_state)
}

/// Build the merged timeline: the earlier operand's segments followed
/// by the later one's, each of the later's re-homed into the merged
/// dictionary, and the boundary closed — coalesced when the two
/// boundary segments share a label, else the earlier's last segment
/// extended to meet the later's first.  Compressed aggregates carry no
/// timeline and get an empty one back.
fn stitch_timeline(
    earlier: &OwnedCompressedStateAgg,
    later: &OwnedCompressedStateAgg,
    merged_states: &Vec<u8>,
    merged_durations: &Vec<DurationInState>,
) -> (combined: Vec<TimeInState>)
    requires
        earlier@.wf(),
        later@.wf(),
        earlier@.durations.len() > 0,
        later@.durations.len() > 0,
        earlier@.compressed == later@.compressed,
        earlier@.last_time <= later@.first_time,
        merged_states@.len() >= earlier@.states.len(),
        merged_states@.subrange(0, earlier@.states.len() as int) == earlier@.states,
        merged_durations@.len() >= earlier@.durations.len(),
        forall|j: int|
            0 <= j < earlier@.durations.len() ==> (#[trigger] merged_durations@[j]).state
                == earlier@.durations[j].state,
        forall|j: int|
            0 <= j < merged_durations@.len() ==> ref_valid(
                merged_states@,
                (#[trigger] merged_durations@[j]).state,
            ),
        forall|k: int|
            0 <= k < later@.durations.len() ==> exists|j: int|
                0 <= j < merged_durations@.len() && label_of(
                    merged_states@,
                    merged_durations@[j].state,
                ) == #[trigger] later@.rec_label(k),
    ensures
        forall|t: int|
            0 <= t < combined@.len() ==> ref_valid(merged_states@, (#[trigger] combined@[t]).state),
        forall|t: int|
            0 <= t < combined@.len() ==> exists|j: int|
                0 <= j < merged_durations@.len() && label_of(
                    merged_states@,
                    (#[trigger] combined@[t]).state,
                ) == label_of(merged_states@, merged_durations@[j].state),
        earlier@.compressed ==> combined@.len() == 0,
        !earlier@.compressed ==> stitched_timeline_ok(
            combined@,
            merged_states@,
            earlier@,
            later@,
        ),
        !earlier@.compressed ==> combined@.len() > 0 && combined@[0].start_time
            == earlier@.first_time && combined@.last().end_time == later@.last_time && (forall|
            i: int,
        |
            0 <= i < combined@.len() ==> (#[trigger] combined@[i]).start_time
                <= combined@[i].end_time) && (forall|i: int|
            0 <= i < combined@.len() - 1 ==> (#[trigger] combined@[i]).end_time == combined@[i
                + 1].start_time),
{
    let ghost e = earlier@;
    let ghost l = later@;
    let ghost md = merged_durations@;
    let ghost ms = merged_states@;
    let mut combined = copy_segments(&earlier.combined_durations);
    let earlier_len = combined.len();
    proof {
        assert forall|t: int| 0 <= t < earlier_len implies ref_valid(
            ms,
            (#[trigger] combined@[t]).state,
        ) && label_of(ms, combined@[t].state) == e.seg_label(t) by {
            lemma_label_stable(e.states, ms, combined@[t].state);
        }
        assert forall|t: int| 0 <= t < earlier_len implies exists|j: int|
            0 <= j < md.len() && label_of(ms, #[trigger] combined@[t].state) == label_of(
                ms,
                md[j].state,
            ) by {
            let jj = choose|jj: int| 0 <= jj < e.durations.len() && e.seg_label(t) == e.rec_label(jj);
            lemma_label_stable(e.states, ms, e.durations[jj].state);
            assert(label_of(ms, md[jj].state) == e.rec_label(jj));
        }
    }
    let seg_total = later.combined_durations.len();
    let mut k: usize = 0;
    while k < seg_total
        invariant
            e.wf(),
            l.wf(),
            later@ == l,
            md == merged_durations@,
            ms == merged_states@,
            seg_total == l.combined_durations.len(),
            earlier_len == e.combined_durations.len(),
            k <= seg_total,
            forall|j: int| 0 <= j < md.len() ==> ref_valid(ms, (#[trigger] md[j]).state),
            forall|kk: int|
                0 <= kk < l.durations.len() ==> exists|j: int|
                    0 <= j < md.len() && label_of(ms, md[j].state) == #[trigger] l.rec_label(kk),
            combined@.len() == earlier_len + k,
            forall|t: int| 0 <= t < earlier_len ==> #[trigger] combined@[t]
                == e.combined_durations[t],
            forall|t: int|
                0 <= t < k ==> (#[trigger] combined@[earlier_len + t]).start_time
                    == l.combined_durations[t].start_time && combined@[earlier_len + t].end_time
                    == l.combined_durations[t].end_time,
            forall|t: int|
                0 <= t < combined@.len() ==> ref_valid(ms, (#[trigger] combined@[t]).state),
            forall|t: int|
                0 <= t < combined@.len() ==> exists|j: int|
                    0 <= j < md.len() && label_of(ms, (#[trigger] combined@[t]).state) == label_of(
                        ms,
                        md[j].state,
                    ),
            forall|t: int| 0 <= t < earlier_len ==> label_of(
                ms,
                (#[trigger] combined@[t]).state,
            ) == e.seg_label(t),
            forall|t: int| 0 <= t < k ==> label_of(
                ms,
                (#[trigger] combined@[earlier_len + t]).state,
            ) == l.seg_label(t),
        decreases seg_total - k,
    {
        let seg = later.combined_durations[k];
        proof {
            assert(seg == l.combined_durations[k as int]);
            assert(ref_valid(l.states, seg.state));
        }
        let lbl = materialize(&later.states, seg.state);
        proof {
            let jj = choose|jj: int|
                0 <= jj < l.durations.len() && l.seg_label(k as int) == #[trigger] l.rec_label(jj);
            assert(exists|j: int|
                0 <= j < md.len() && label_of(ms, md[j].state) == l.rec_label(jj));
            let j2 = choose|j2: int|
                0 <= j2 < md.len() && label_of(ms, md[j2].state) == l.rec_label(jj);
            lemma_ref_occurs(ms, md[j2].state);
            assert(occurs(ms, lbl@));
        }
        let nref = existing_entry(merged_states, &lbl);
        combined.push(TimeInState { state: nref, start_time: seg.start_time, end_time: seg.end_time });
        k += 1;
    }

    // close the boundary so the timeline stays contiguous
    if !earlier.compressed {
        proof {
            assert(e.tiles());
            assert(l.tiles());
        }
        let last_e = combined[earlier_len - 1];
        let first_l = combined[earlier_len];
        let ghost cd_before = combined@;
        if labels_equal(merged_states, last_e.state, merged_states, first_l.state) {
            let removed = combined.remove(earlier_len);
            let mut le2 = combined[earlier_len - 1];
            le2.end_time = removed.end_time;
            combined.set(earlier_len - 1, le2);
            proof {
                assert(removed == cd_before[earlier_len as int]);
                assert forall|t: int|
                    0 <= t < e.combined_durations.len() - 1 implies (#[trigger] combined@[t]).start_time
                    == e.combined_durations[t].start_time && combined@[t].end_time
                    == e.combined_durations[t].end_time by {
                    assert(combined@[t] == cd_before[t]);
                    assert(cd_before[t] == e.combined_durations[t]);
                }
                assert forall|t: int|
                    e.combined_durations.len() <= t < combined@.len() implies (
                #[trigger] combined@[t]).start_time == l.combined_durations[t
                    - e.combined_durations.len() + 1].start_time && combined@[t].end_time
                    == l.combined_durations[t - e.combined_durations.len() + 1].end_time by {
                    let tt = t - e.combined_durations.len() + 1;
                    assert(combined@[t] == cd_before[t + 1]);
                    assert(cd_before[earlier_len + tt].start_time
                        == l.combined_durations[tt].start_time && cd_before[earlier_len
                        + tt].end_time == l.combined_durations[tt].end_time);
                }
                assert(combined@[e.combined_durations.len() - 1] == le2);
                assert(cd_before[earlier_len - 1] == e.combined_durations[earlier_len - 1]);
                assert(cd_before[earlier_len + 0].end_time == l.combined_durations[0].end_time);
                lemma_stitch_coalesce(e, l, combined@);
                assert(label_of(ms, cd_before[earlier_len - 1].state) == e.seg_label(
                    earlier_len - 1,
                ));
                assert(label_of(ms, cd_before[earlier_len + 0].state) == l.seg_label(0));
                assert(e.seg_label(earlier_len - 1) == l.seg_label(0));
                assert forall|t: int|
                    0 <= t < e.combined_durations.len() - 1 implies #[trigger] combined@[t]
                    == e.combined_durations[t] && label_of(ms, combined@[t].state) == e.seg_label(
                    t,
                ) by {
                    assert(combined@[t] == cd_before[t]);
                }
                assert(combined@[earlier_len - 1].state == cd_before[earlier_len - 1].state);
                assert forall|t: int|
                    e.combined_durations.len() <= t < combined@.len() implies label_of(
                    ms,
                    (#[trigger] combined@[t]).state,
                ) == l.seg_label(t - e.combined_durations.len() + 1) by {
                    let tt = t - e.combined_durations.len() + 1;
                    assert(combined@[t] == cd_before[t + 1]);
                    assert(label_of(ms, cd_before[earlier_len + tt].state) == l.seg_label(tt));
                }
                assert(stitched_timeline_ok(combined@, ms, e, l));
            }
            proof {
                assert forall|t: int| 0 <= t < combined@.len() implies ref_valid(
                    ms,
                    (#[trigger] combined@[t]).state,
                ) by {
                    if t < earlier_len {
                        assert(combined@[t].state == cd_before[t].state);
                    } else {
                        assert(combined@[t] == cd_before[t + 1]);
                    }
                }
                assert forall|t: int| 0 <= t < combined@.len() implies exists|j: int|
                    0 <= j < md.len() && label_of(ms, (#[trigger] combined@[t]).state) == label_of(
                        ms,
                        md[j].state,
                    ) by {
                    if t < earlier_len {
                        assert(combined@[t].state == cd_before[t].state);
                        assert(exists|j: int|
                            0 <= j < md.len() && label_of(ms, cd_before[t].state) == label_of(
                                ms,
                                md[j].state,
                            ));
                    } else {
                        assert(combined@[t] == cd_before[t + 1]);
                        assert(exists|j: int|
                            0 <= j < md.len() && label_of(ms, cd_before[t + 1].state) == label_of(
                                ms,
                                md[j].state,
                            ));
                    }
                }
            }
        } else {
            let mut le2 = combined[earlier_len - 1];
            le2.end_time = first_l.start_time;
            combined.set(earlier_len - 1, le2);
            proof {
                assert(first_l == cd_before[earlier_len as int]);
                assert forall|t: int|
                    0 <= t < e.combined_durations.len() - 1 implies (#[trigger] combined@[t]).start_time
                    == e.combined_durations[t].start_time && combined@[t].end_time
                    == e.combined_durations[t].end_time by {
                    assert(combined@[t] == cd_before[t]);
                    assert(cd_before[t] == e.combined_durations[t]);
                }
                assert forall|t: int|
                    e.combined_durations.len() <= t < combined@.len() implies (
                #[trigger] combined@[t]).start_time == l.combined_durations[t
                    - e.combined_durations.len()].start_time && combined@[t].end_time
                    == l.combined_durations[t - e.combined_durations.len()].end_time by {
                    let tt = t - e.combined_durations.len();
                    assert(combined@[t] == cd_before[t]);
                    assert(cd_before[earlier_len + tt].start_time
                        == l.combined_durations[tt].start_time && cd_before[earlier_len
                        + tt].end_time == l.combined_durations[tt].end_time);
                }
                assert(combined@[e.combined_durations.len() - 1] == le2);
                assert(cd_before[earlier_len - 1] == e.combined_durations[earlier_len - 1]);
                assert(cd_before[earlier_len + 0].start_time == l.combined_durations[0].start_time);
                lemma_stitch_extend(e, l, combined@);
                assert(label_of(ms, cd_before[earlier_len - 1].state) == e.seg_label(
                    earlier_len - 1,
                ));
                assert(label_of(ms, cd_before[earlier_len + 0].state) == l.seg_label(0));
                assert(e.seg_label(earlier_len - 1) != l.seg_label(0));
                assert forall|t: int|
                    0 <= t < e.combined_durations.len() - 1 implies #[trigger] combined@[t]
                    == e.combined_durations[t] && label_of(ms, combined@[t].state) == e.seg_label(
                    t,
                ) by {
                    assert(combined@[t] == cd_before[t]);
                }
                assert(combined@[earlier_len - 1].state == cd_before[earlier_len - 1].state);
                assert forall|t: int|
                    e.combined_durations.len() <= t < combined@.len() implies label_of(
                    ms,
                    (#[trigger] combined@[t]).state,
                ) == l.seg_label(t - e.combined_durations.len()) by {
                    let tt = t - e.combined_durations.len();
                    assert(combined@[t] == cd_before[t]);
                    assert(label_of(ms, cd_before[earlier_len + tt].state) == l.seg_label(tt));
                }
                assert(stitched_timeline_ok(combined@, ms, e, l));
            }
            proof {
                assert forall|t: int| 0 <= t < combined@.len() implies ref_valid(
                    ms,
                    (#[trigger] combined@[t]).state,
                ) && exists|j: int|
                    0 <= j < md.len() && label_of(ms, (#[trigger] combined@[t]).state) == label_of(
                        ms,
                        md[j].state,
                    ) by {
                    assert(combined@[t].state == cd_before[t].state);
                    assert(exists|j: int|
                        0 <= j < md.len() && label_of(ms, cd_before[t].state) == label_of(
                            ms,
                            md[j].state,
                        ));
                }
            }
        }
    }
    combined
}

impl OwnedCompressedStateAgg {
    /// Field-for-field copy; the copy models the same aggregate.
    pub fn duplicate(&self) -> (out: Self)
        ensures
            out@ == self@,
    {
        let out = OwnedCompressedStateAgg {
            durations: copy_durations(&self.durations),
            combined_durations: copy_segments(&self.combined_durations),
            first_time: self.first_time,
            last_time: self.last_time,
            first_state: self.first_state,
            last_state: self.last_state,
            states: copy_bytes(&self.states),
            compressed: self.compressed,
            integer_states: self.integer_states,
        };
        proof {
            assert(out@ =~= self@);
        }
        out
    }

    /// Merge two disjoint, time-ordered state aggregates into one
    /// covering the union of their ranges: labels re-keyed into a fresh
    /// dictionary, durations summed by label, the timeline stitched,
    /// and the inter-aggregate gap attributed to the state active at
    /// the end of the earlier aggregate.
    ///
    /// Precondition violations are reported as errors: they signal a
    /// bug upstream and are fatal for the current evaluation only.
    #[verifier::rlimit(50)]
    pub fn merge(self, other: Self) -> (r: Result<Self, RollupError>)
        requires
            self@.wf(),
            other@.wf(),
            self@.durations.len() + other@.durations.len() <= u32::MAX,
            mergeable(self@, other@) ==> self@.dur_total() + other@.dur_total() + merge_gap(
                self@,
                other@,
            ) <= i64::MAX,
        ensures
            r is Ok <==> mergeable(self@, other@),
            r matches Ok(c) ==> merge_result_ok(c@, self@, other@),
            r matches Err(e) ==> e == merge_error(self@, other@),
    {
        let ghost av = self@;
        let ghost bv = other@;
        if self.compressed != other.compressed {
            return Err(RollupError::MismatchedCompression);
        }
        if self.integer_states != other.integer_states {
            return Err(RollupError::MismatchedStateTypes);
        }
        if self.first_time == other.first_time {
            return Err(RollupError::SameStartTime);
        }
        let (earlier, later) = if self.first_time < other.first_time {
            (self, other)
        } else {
            (other, self)
        };
        if earlier.last_time > later.first_time {
            return Err(RollupError::OverlappingRanges);
        }
        if earlier.durations.len() == 0 || later.durations.len() == 0 {
            return Err(RollupError::EmptyAggregate);
        }
        let ghost e = earlier@;
        let ghost l = later@;
        proof {
            assert(e == earlier_of(av, bv));
            assert(l == later_of(av, bv));
            assert(mergeable(av, bv));
            lemma_sum_durs_nonneg(e.durations);
            lemma_sum_durs_nonneg(l.durations);
        }

        let (merged_states, mut merged_durations, new_last_state) = merge_records(&earlier, &later);

        // attribute the inter-aggregate gap to the state active at the
        // end of the earlier aggregate
        let gap_time = later.first_time - earlier.last_time;
        let gi = earlier.last_state as usize;
        let mut grec = merged_durations[gi];
        proof {
            lemma_elem_le_sum(merged_durations@, gi as int);
        }
        grec.duration = grec.duration + gap_time;
        proof {
            lemma_sum_durs_update(merged_durations@, gi as int, grec);
            lemma_sum_durs_of_update(merged_durations@, merged_states@, gi as int, grec);
            lemma_label_stable(e.states, merged_states@, e.durations[gi as int].state);
            assert(label_of(merged_states@, merged_durations@[gi as int].state) == e.last_label());
        }
        let ghost md_old = merged_durations@;
        merged_durations.set(gi, grec);
        proof {
            assert forall|jj: int|
                0 <= jj < merged_durations@.len() implies (#[trigger] merged_durations@[jj]).state
                == md_old[jj].state by {}
            assert forall|j1: int, j2: int|
                #![trigger merged_durations@[j1], merged_durations@[j2]]
                0 <= j1 < j2 < merged_durations@.len() implies label_of(
                merged_states@,
                merged_durations@[j1].state,
            ) != label_of(merged_states@, merged_durations@[j2].state) by {
                assert(merged_durations@[j1].state == md_old[j1].state);
                assert(merged_durations@[j2].state == md_old[j2].state);
            }
            assert forall|kk: int| 0 <= kk < l.durations.len() implies exists|j: int|
                0 <= j < merged_durations@.len() && label_of(
                    merged_states@,
                    merged_durations@[j].state,
                ) == #[trigger] l.rec_label(kk) by {
                let j0 = choose|j0: int|
                    0 <= j0 < md_old.len() && label_of(merged_states@, md_old[j0].state)
                        == l.rec_label(kk);
                assert(merged_durations@[j0].state == md_old[j0].state);
                assert(label_of(merged_states@, merged_durations@[j0].state) == l.rec_label(kk));
            }
        }

        let combined = stitch_timeline(&earlier, &later, &merged_states, &merged_durations);

        let result = OwnedCompressedStateAgg {
            states: merged_states,
            durations: merged_durations,
            combined_durations: combined,
            first_time: earlier.first_time,
            last_time: later.last_time,
            first_state: earlier.first_state,
            last_state: new_last_state,
            compressed: earlier.compressed,
            integer_states: earlier.integer_states,
        };
        proof {
            let c = result@;
            lemma_label_stable(e.states, c.states, e.durations[e.first_state as int].state);
            assert(c.first_label() == e.first_label());
            assert(c.last_label() == l.last_label());
            assert(c.dur_total() == e.dur_total() + l.dur_total() + merge_gap(av, bv));
            assert forall|t: int| 0 <= t < c.combined_durations.len() implies exists|j: int|
                0 <= j < c.durations.len() && #[trigger] c.seg_label(t) == c.rec_label(j) by {
                let j0 = choose|j0: int|
                    0 <= j0 < c.durations.len() && label_of(c.states, c.combined_durations[t].state)
                        == label_of(c.states, c.durations[j0].state);
                assert(c.seg_label(t) == c.rec_label(j0));
            }
            if !c.compressed {
                assert(c.tiles());
            }
            assert(c.wf());
            assert(c.states.subrange(0, e.states.len() as int) == e.states);
            assert forall|j: int|
                0 <= j < e.durations.len() implies (#[trigger] c.durations[j]).state
                == e.durations[j].state && #[trigger] c.rec_label(j) == e.rec_label(j) by {
                assert(md_old[j].state == e.durations[j].state);
                assert(merged_durations@[j].state == md_old[j].state);
                lemma_label_stable(e.states, c.states, e.durations[j].state);
            }
            if !c.compressed {
                assert(stitched_timeline_ok(c.combined_durations, c.states, e, l));
            }
            assert(merge_result_ok(c, av, bv));
        }
        Ok(result)
    }
}

} // verus!
