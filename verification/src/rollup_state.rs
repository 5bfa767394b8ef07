//! Rollup accumulator lifecycle.
//!
//! The accumulator holds the not-yet-merged state aggregates of one
//! aggregation evaluation.  Ingestion (`compressed_state_agg_rollup_trans_inner`)
//! and combination (`compressed_state_agg_rollup_combine_inner`) only
//! append, so the steady state is cheap; the one expensive reduce —
//! a left-to-right chain of merges down to a single aggregate — is paid
//! at the boundaries: finalize and serialize.

use vstd::prelude::*;

use crate::state_agg::{
    earlier_of, later_of, merge_gap, mergeable, AggView, OwnedCompressedStateAgg,
};
use crate::sums::lemma_sum_durs_nonneg;
use crate::RollupError;

verus! {

/// Working state of one rollup evaluation: the pending aggregates in
/// arrival order, and the flavor flag carried by the protocol.
#[derive(Debug)]
pub struct RollupTransState {
    pub values: Vec<OwnedCompressedStateAgg>,
    pub compressed: bool,
}

/// The mathematical model of an accumulator.
#[verifier::ext_equal]
pub struct StateView {
    pub values: Seq<AggView>,
    pub compressed: bool,
}

impl View for RollupTransState {
    type V = StateView;

    open spec fn view(&self) -> StateView {
        StateView {
            values: self.values@.map_values(|a: OwnedCompressedStateAgg| a@),
            compressed: self.compressed,
        }
    }
}

/// Every pending aggregate is well-formed.
pub open spec fn all_wf(s: Seq<AggView>) -> bool {
    forall|i: int| 0 <= i < s.len() ==> (#[trigger] s[i]).wf()
}

/// Total duration over all pending aggregates.
pub open spec fn sum_totals(s: Seq<AggView>) -> int
    decreases s.len(),
{
    if s.len() == 0 {
        0
    } else {
        sum_totals(s.drop_last()) + s.last().dur_total()
    }
}

/// Total time-range length over all pending aggregates.
pub open spec fn sum_spans(s: Seq<AggView>) -> int
    decreases s.len(),
{
    if s.len() == 0 {
        0
    } else {
        sum_spans(s.drop_last()) + s.last().span()
    }
}

/// Total duration-record count over all pending aggregates.
pub open spec fn sum_lens(s: Seq<AggView>) -> int
    decreases s.len(),
{
    if s.len() == 0 {
        0
    } else {
        sum_lens(s.drop_last()) + s.last().durations.len()
    }
}

/// Earliest start time among the pending aggregates (nonempty list).
pub open spec fn min_first(s: Seq<AggView>) -> int
    decreases s.len(),
{
    if s.len() <= 1 {
        s[0].first_time as int
    } else {
        let m = min_first(s.drop_last());
        if s.last().first_time < m {
            s.last().first_time as int
        } else {
            m
        }
    }
}

/// Latest end time among the pending aggregates (nonempty list).
pub open spec fn max_last(s: Seq<AggView>) -> int
    decreases s.len(),
{
    if s.len() <= 1 {
        s[0].last_time as int
    } else {
        let m = max_last(s.drop_last());
        if s.last().last_time > m {
            s.last().last_time as int
        } else {
            m
        }
    }
}

/// The machine bound under which the reduce cannot overflow: all
/// durations plus every possible inter-aggregate gap fit in the
/// duration type.  Trivial for lists the reduce does not touch.
pub open spec fn reduce_budget(s: Seq<AggView>) -> bool {
    s.len() > 1 ==> sum_totals(s) + (max_last(s) - min_first(s)) <= i64::MAX
}

/// The surrounding protocol's guarantee on a pending list: aggregates
/// of one flavor and one label encoding, each non-empty, arriving in
/// strict time order with disjoint ranges.
pub open spec fn rollup_ready(s: Seq<AggView>) -> bool {
    &&& forall|i: int| 0 <= i < s.len() ==> (#[trigger] s[i]).durations.len() > 0
    &&& forall|i: int| 0 <= i < s.len() ==> (#[trigger] s[i]).compressed == s[0].compressed
    &&& forall|i: int| 0 <= i < s.len() ==> (#[trigger] s[i]).integer_states == s[0].integer_states
    &&& forall|i: int| 0 <= i < s.len() - 1 ==> (#[trigger] s[i]).last_time <= s[i + 1].first_time
    &&& forall|i: int| 0 <= i < s.len() - 1 ==> (#[trigger] s[i]).first_time < s[i + 1].first_time
}

/// Total of the gaps between consecutive aggregates of a time-ordered
/// pending list.
pub open spec fn sum_gaps(s: Seq<AggView>) -> int
    decreases s.len(),
{
    if s.len() <= 1 {
        0
    } else {
        sum_gaps(s.drop_last()) + (s.last().first_time - s[s.len() - 2].last_time)
    }
}

/// Per-label total of the fold of a time-ordered pending list: each
/// aggregate's own share of the label, plus each inter-aggregate gap,
/// attributed to the state active at the end of the aggregate before
/// it.
pub open spec fn rollup_dur_of(s: Seq<AggView>, lab: Seq<u8>) -> int
    decreases s.len(),
{
    if s.len() == 0 {
        0
    } else if s.len() == 1 {
        s[0].dur_of(lab)
    } else {
        rollup_dur_of(s.drop_last(), lab) + s.last().dur_of(lab) + (
        if lab == s[s.len() - 2].last_label() {
            s.last().first_time - s[s.len() - 2].last_time
        } else {
            0
        })
    }
}

/// Per-label total over the pending aggregates alone, gaps aside.
pub open spec fn sum_dur_of(s: Seq<AggView>, lab: Seq<u8>) -> int
    decreases s.len(),
{
    if s.len() == 0 {
        0
    } else {
        sum_dur_of(s.drop_last(), lab) + s.last().dur_of(lab)
    }
}

proof fn lemma_ready_first_lt(s: Seq<AggView>, i: int, j: int)
    requires
        rollup_ready(s),
        0 <= i < j < s.len(),
    ensures
        s[i].first_time < s[j].first_time,
    decreases j - i,
{
    if i + 1 < j {
        lemma_ready_first_lt(s, i + 1, j);
    }
}

proof fn lemma_fold_prefix_step(s: Seq<AggView>, i: int)
    requires
        1 <= i < s.len(),
    ensures
        sum_gaps(s.subrange(0, i + 1)) == sum_gaps(s.subrange(0, i)) + (s[i].first_time - s[i
            - 1].last_time),
        forall|lab: Seq<u8>| #[trigger] rollup_dur_of(s.subrange(0, i + 1), lab) == rollup_dur_of(
            s.subrange(0, i),
            lab,
        ) + s[i].dur_of(lab) + (if lab == s[i - 1].last_label() {
            s[i].first_time - s[i - 1].last_time
        } else {
            0
        }),
        forall|lab: Seq<u8>| #[trigger] sum_dur_of(s.subrange(0, i + 1), lab) == sum_dur_of(
            s.subrange(0, i),
            lab,
        ) + s[i].dur_of(lab),
{
    assert(s.subrange(0, i + 1).drop_last() =~= s.subrange(0, i));
    assert(s.subrange(0, i + 1)[i] == s[i]);
    assert(s.subrange(0, i + 1)[i - 1] == s[i - 1]);
}

proof fn lemma_time_bounds(s: Seq<AggView>, i: int)
    requires
        0 <= i < s.len(),
    ensures
        min_first(s) <= s[i].first_time,
        s[i].last_time <= max_last(s),
    decreases s.len(),
{
    if s.len() > 1 && i < s.len() - 1 {
        lemma_time_bounds(s.drop_last(), i);
    }
}

proof fn lemma_sum_totals_prefix_step(s: Seq<AggView>, i: int)
    requires
        0 <= i < s.len(),
    ensures
        sum_totals(s.subrange(0, i + 1)) == sum_totals(s.subrange(0, i)) + s[i].dur_total(),
        sum_spans(s.subrange(0, i + 1)) == sum_spans(s.subrange(0, i)) + s[i].span(),
        sum_lens(s.subrange(0, i + 1)) == sum_lens(s.subrange(0, i)) + s[i].durations.len(),
{
    assert(s.subrange(0, i + 1).drop_last() =~= s.subrange(0, i));
}

proof fn lemma_totals_nonneg(s: Seq<AggView>)
    requires
        all_wf(s),
    ensures
        sum_totals(s) >= 0,
        sum_spans(s) >= 0,
        sum_lens(s) >= 0,
    decreases s.len(),
{
    if s.len() > 0 {
        assert(s[s.len() - 1].wf());
        lemma_sum_durs_nonneg(s.last().durations);
        assert forall|i: int| 0 <= i < s.drop_last().len() implies (#[trigger] s.drop_last()[i]).wf() by {
            assert(s.drop_last()[i] == s[i]);
        }
        lemma_totals_nonneg(s.drop_last());
    }
}

proof fn lemma_prefix_le(s: Seq<AggView>, i: int)
    requires
        all_wf(s),
        0 <= i <= s.len(),
    ensures
        sum_totals(s.subrange(0, i)) <= sum_totals(s),
        sum_lens(s.subrange(0, i)) <= sum_lens(s),
    decreases s.len() - i,
{
    if i == s.len() {
        assert(s.subrange(0, i) =~= s);
    } else {
        lemma_sum_totals_prefix_step(s, i);
        assert(s[i].wf());
        lemma_sum_durs_nonneg(s[i].durations);
        lemma_prefix_le(s, i + 1);
    }
}

impl RollupTransState {
    /// Reduce the pending list, left to right, down to at most one
    /// merged aggregate.  On failure the accumulator is unchanged and
    /// the merge's error is reported.
    pub fn merge(&mut self) -> (r: Result<(), RollupError>)
        requires
            all_wf(old(self)@.values),
            sum_lens(old(self)@.values) <= u32::MAX,
            reduce_budget(old(self)@.values),
        ensures
            final(self)@.compressed == old(self)@.compressed,
            old(self)@.values.len() <= 1 ==> r is Ok && final(self)@ == old(self)@,
            r matches Err(_) ==> final(self)@ == old(self)@,
            rollup_ready(old(self)@.values) ==> r is Ok,
            rollup_ready(old(self)@.values) && old(self)@.values.len() >= 1 ==> {
                &&& final(self)@.values[0].compressed == old(self)@.values[0].compressed
                &&& final(self)@.values[0].first_label() == old(self)@.values[0].first_label()
                &&& final(self)@.values[0].last_label() == old(self)@.values[old(self)@.values.len()
                    - 1].last_label()
                &&& final(self)@.values[0].dur_total() == sum_totals(old(self)@.values) + sum_gaps(
                    old(self)@.values,
                )
                &&& forall|lab: Seq<u8>| #[trigger] final(self)@.values[0].dur_of(lab)
                    == rollup_dur_of(old(self)@.values, lab)
            },
            r is Ok && old(self)@.values.len() >= 1 ==> forall|lab: Seq<u8>|
                #[trigger] final(self)@.values[0].dur_of(lab) >= sum_dur_of(
                    old(self)@.values,
                    lab,
                ),
            r is Ok ==> {
                &&& final(self)@.values.len() == if old(self)@.values.len() == 0 {
                    0int
                } else {
                    1int
                }
                &&& all_wf(final(self)@.values)
                &&& old(self)@.values.len() >= 1 ==> {
                    &&& final(self)@.values[0].first_time == min_first(old(self)@.values)
                    &&& final(self)@.values[0].last_time == max_last(old(self)@.values)
                    &&& final(self)@.values[0].dur_total() >= sum_totals(old(self)@.values)
                    &&& final(self)@.values[0].dur_total() + sum_spans(old(self)@.values)
                        <= sum_totals(old(self)@.values) + (max_last(old(self)@.values) - min_first(
                        old(self)@.values,
                    ))
                }
            },
    {
        let ghost vs = self@.values;
        let n = self.values.len();
        if n <= 1 {
            proof {
                if n == 1 {
                    assert(vs.drop_last() =~= Seq::<AggView>::empty());
                    assert(sum_totals(Seq::<AggView>::empty()) == 0);
                    assert(sum_spans(Seq::<AggView>::empty()) == 0);
                    assert(vs.last() == vs[0]);
                    assert(vs[0].wf());
                    lemma_sum_durs_nonneg(vs[0].durations);
                    assert(sum_gaps(vs) == 0);
                    assert forall|lab: Seq<u8>| #[trigger] rollup_dur_of(vs, lab) == vs[0].dur_of(
                        lab,
                    ) by {}
                    assert forall|lab: Seq<u8>| #[trigger] sum_dur_of(vs, lab) == vs[0].dur_of(
                        lab,
                    ) by {
                        assert(sum_dur_of(Seq::<AggView>::empty(), lab) == 0);
                    }
                }
            }
            return Ok(());
        }
        let mut acc = self.values[0].duplicate();
        proof {
            assert(acc@ == vs[0]);
            assert(vs[0].wf());
            assert(vs.subrange(0, 1).drop_last() =~= Seq::<AggView>::empty());
            assert(sum_totals(Seq::<AggView>::empty()) == 0);
            assert(sum_spans(Seq::<AggView>::empty()) == 0);
            assert(sum_lens(Seq::<AggView>::empty()) == 0);
            assert(vs.subrange(0, 1).last() == vs[0]);
            lemma_sum_durs_nonneg(vs[0].durations);
            lemma_time_bounds(vs, 0);
            assert(sum_gaps(vs.subrange(0, 1)) == 0);
            assert forall|lab: Seq<u8>| #[trigger] rollup_dur_of(vs.subrange(0, 1), lab) == vs[0].dur_of(
                lab,
            ) by {
                assert(vs.subrange(0, 1)[0] == vs[0]);
            }
            assert forall|lab: Seq<u8>| #[trigger] sum_dur_of(vs.subrange(0, 1), lab) == vs[0].dur_of(
                lab,
            ) by {
                assert(sum_dur_of(Seq::<AggView>::empty(), lab) == 0);
            }
        }
        let mut i: usize = 1;
        while i < n
            invariant
                1 <= i <= n,
                n == self.values@.len(),
                n >= 2,
                self@.values == vs,
                all_wf(vs),
                sum_lens(vs) <= u32::MAX,
                sum_totals(vs) + (max_last(vs) - min_first(vs)) <= i64::MAX,
                acc@.wf(),
                min_first(vs) <= acc@.first_time,
                acc@.last_time <= max_last(vs),
                acc@.first_time == min_first(vs.subrange(0, i as int)),
                acc@.last_time == max_last(vs.subrange(0, i as int)),
                acc@.dur_total() >= sum_totals(vs.subrange(0, i as int)),
                acc@.dur_total() + sum_spans(vs.subrange(0, i as int)) <= sum_totals(
                    vs.subrange(0, i as int),
                ) + acc@.span(),
                acc@.durations.len() <= sum_lens(vs.subrange(0, i as int)),
                rollup_ready(vs) ==> acc@.durations.len() > 0 && acc@.compressed
                    == vs[0].compressed && acc@.integer_states == vs[0].integer_states
                    && acc@.first_time == vs[0].first_time && acc@.last_time == vs[i
                    - 1].last_time && acc@.first_label() == vs[0].first_label()
                    && acc@.last_label() == vs[i - 1].last_label() && acc@.dur_total()
                    == sum_totals(vs.subrange(0, i as int)) + sum_gaps(vs.subrange(0, i as int))
                    && (forall|lab: Seq<u8>| #[trigger] acc@.dur_of(lab) == rollup_dur_of(
                    vs.subrange(0, i as int),
                    lab,
                )),
                forall|lab: Seq<u8>| #[trigger] acc@.dur_of(lab) >= sum_dur_of(
                    vs.subrange(0, i as int),
                    lab,
                ),
            decreases n - i,
        {
            let nxt = self.values[i].duplicate();
            let ghost a0 = acc@;
            let ghost v0 = nxt@;
            proof {
                assert(v0 == vs[i as int]);
                assert(vs[i as int].wf());
                lemma_time_bounds(vs, i as int);
                lemma_sum_totals_prefix_step(vs, i as int);
                lemma_prefix_le(vs, i + 1);
                lemma_totals_nonneg(vs.subrange(0, i as int));
                assert forall|k: int|
                    0 <= k < vs.subrange(0, i as int).len() implies (#[trigger] vs.subrange(
                    0,
                    i as int,
                )[k]).wf() by {
                    assert(vs.subrange(0, i as int)[k] == vs[k]);
                }
                lemma_totals_nonneg(vs.subrange(0, i as int));
                lemma_sum_durs_nonneg(v0.durations);
                if mergeable(a0, v0) {
                    let ee = earlier_of(a0, v0);
                    let ll = later_of(a0, v0);
                    assert(merge_gap(a0, v0) == (ll.first_time - ee.last_time) as int);
                    assert(ll.last_time <= max_last(vs));
                    assert(ee.first_time >= min_first(vs));
                    assert(a0.dur_total() + v0.dur_total() + merge_gap(a0, v0) <= i64::MAX);
                }
                lemma_fold_prefix_step(vs, i as int);
                if rollup_ready(vs) {
                    lemma_ready_first_lt(vs, 0, i as int);
                    assert(vs[i - 1].last_time <= vs[i as int].first_time);
                    assert(vs[i as int].durations.len() > 0);
                    assert(vs[i as int].compressed == vs[0].compressed);
                    assert(vs[i as int].integer_states == vs[0].integer_states);
                    assert(mergeable(a0, v0));
                }
            }
            let merged = match acc.merge(nxt) {
                Ok(c) => c,
                Err(err) => {
                    proof {
                        if rollup_ready(vs) {
                            assert(false);
                        }
                    }
                    return Err(err);
                },
            };
            proof {
                let c = merged@;
                assert(vs.subrange(0, i + 1).drop_last() =~= vs.subrange(0, i as int));
                let ee = earlier_of(a0, v0);
                let ll = later_of(a0, v0);
                assert(c.first_time == ee.first_time);
                assert(c.last_time == ll.last_time);
                assert(c.dur_total() == ee.dur_total() + ll.dur_total() + merge_gap(a0, v0));
                assert(ee.dur_total() + ll.dur_total() == a0.dur_total() + v0.dur_total());
                assert(ee.span() + ll.span() == a0.span() + v0.span());
                assert(merge_gap(a0, v0) >= 0);
                assert forall|lab: Seq<u8>| #[trigger] c.dur_of(lab) >= sum_dur_of(
                    vs.subrange(0, i + 1),
                    lab,
                ) by {
                    assert(c.dur_of(lab) == ee.dur_of(lab) + ll.dur_of(lab) + (
                    if lab == ee.last_label() {
                        merge_gap(a0, v0)
                    } else {
                        0
                    }));
                    assert(ee.dur_of(lab) + ll.dur_of(lab) == a0.dur_of(lab) + v0.dur_of(lab));
                    assert(sum_dur_of(vs.subrange(0, i + 1), lab) == sum_dur_of(
                        vs.subrange(0, i as int),
                        lab,
                    ) + vs[i as int].dur_of(lab));
                }
                if rollup_ready(vs) {
                    assert(earlier_of(a0, v0) == a0);
                    assert(later_of(a0, v0) == v0);
                    assert(c.compressed == a0.compressed);
                    assert(c.last_label() == v0.last_label());
                    assert(c.first_label() == a0.first_label());
                    assert(merge_gap(a0, v0) == vs[i as int].first_time - vs[i - 1].last_time);
                    assert(c.dur_total() == sum_totals(vs.subrange(0, i + 1)) + sum_gaps(
                        vs.subrange(0, i + 1),
                    ));
                    assert forall|lab: Seq<u8>| #[trigger] c.dur_of(lab) == rollup_dur_of(
                        vs.subrange(0, i + 1),
                        lab,
                    ) by {
                        assert(c.dur_of(lab) == a0.dur_of(lab) + v0.dur_of(lab) + (
                        if lab == a0.last_label() {
                            merge_gap(a0, v0)
                        } else {
                            0
                        }));
                        assert(rollup_dur_of(vs.subrange(0, i + 1), lab) == rollup_dur_of(
                            vs.subrange(0, i as int),
                            lab,
                        ) + vs[i as int].dur_of(lab) + (if lab == vs[i - 1].last_label() {
                            vs[i as int].first_time - vs[i - 1].last_time
                        } else {
                            0
                        }));
                    }
                }
            }
            acc = merged;
            i += 1;
        }
        proof {
            assert(vs.subrange(0, n as int) =~= vs);
        }
        let mut out: Vec<OwnedCompressedStateAgg> = Vec::new();
        out.push(acc);
        self.values = out;
        proof {
            assert(self@.values.len() == 1);
            assert forall|k: int| 0 <= k < self@.values.len() implies (#[trigger] self@.values[k]).wf() by {}
        }
        Ok(())
    }
}

/// One aggregate arrives: create the accumulator on first contribution,
/// append on later ones; an absent aggregate leaves the state as it is.
/// Never merges.
pub fn compressed_state_agg_rollup_trans_inner(
    state: Option<RollupTransState>,
    next: Option<OwnedCompressedStateAgg>,
) -> (r: Option<RollupTransState>)
    ensures
        match (state, next) {
            (None, None) => r is None,
            (None, Some(nx)) => r matches Some(s) && s@.values == Seq::<AggView>::empty().push(nx@)
                && s@.compressed == false,
            (Some(st), None) => r matches Some(s) && s@ == st@,
            (Some(st), Some(nx)) => r matches Some(s) && s@.values == st@.values.push(nx@)
                && s@.compressed == st@.compressed,
        },
{
    match (state, next) {
        (None, None) => None,
        (None, Some(next)) => {
            let mut values: Vec<OwnedCompressedStateAgg> = Vec::new();
            values.push(next);
            let s = RollupTransState { values, compressed: false };
            proof {
                assert(s@.values =~= Seq::<AggView>::empty().push(s.values@[0]@));
            }
            Some(s)
        },
        (Some(state), None) => Some(state),
        (Some(mut state), Some(next)) => {
            let ghost old_vals = state@.values;
            state.values.push(next);
            proof {
                assert(state@.values =~= old_vals.push(state.values@[state.values@.len() - 1]@));
            }
            Some(state)
        },
    }
}

/// Two parallel workers' accumulators meet: absence is identity, and
/// two present accumulators of the same flavor concatenate their
/// pending lists.  Mismatched flavors are a protocol error.
pub fn compressed_state_agg_rollup_combine_inner(
    state1: Option<RollupTransState>,
    state2: Option<RollupTransState>,
) -> (r: Result<Option<RollupTransState>, RollupError>)
    ensures
        match (state1, state2) {
            (None, None) => r matches Ok(o) && o is None,
            (Some(x), None) => r matches Ok(o) && o matches Some(s) && s@ == x@,
            (None, Some(y)) => r matches Ok(o) && o matches Some(s) && s@ == y@,
            (Some(x), Some(y)) => if x@.compressed != y@.compressed {
                r == Result::<Option<RollupTransState>, RollupError>::Err(
                    RollupError::MismatchedCompression,
                )
            } else {
                r matches Ok(o) && o matches Some(s) && s@.values == x@.values + y@.values
                    && s@.compressed == x@.compressed
            },
        },
{
    match (state1, state2) {
        (None, None) => Ok(None),
        (Some(x), None) => Ok(Some(x)),
        (None, Some(y)) => Ok(Some(y)),
        (Some(mut x), Some(mut y)) => {
            if x.compressed != y.compressed {
                return Err(RollupError::MismatchedCompression);
            }
            let ghost xv = x@.values;
            let ghost yv = y@.values;
            x.values.append(&mut y.values);
            proof {
                assert(x@.values =~= xv + yv);
            }
            Ok(Some(x))
        },
    }
}

/// Produce the single merged result: reduce the pending list and hand
/// out its one aggregate.  An absent or empty accumulator yields an
/// absent result.
pub fn compressed_state_agg_rollup_final_inner(state: Option<RollupTransState>) -> (r: Result<
    Option<OwnedCompressedStateAgg>,
    RollupError,
>)
    requires
        state matches Some(s) ==> all_wf(s@.values) && sum_lens(s@.values) <= u32::MAX
            && reduce_budget(s@.values),
    ensures
        state is None ==> (r matches Ok(o) && o is None),
        state matches Some(s) ==> (r matches Ok(o) ==> {
            &&& (o is None <==> s@.values.len() == 0)
            &&& o matches Some(agg) ==> agg@.wf() && agg@.first_time == min_first(s@.values)
                && agg@.last_time == max_last(s@.values) && agg@.dur_total() >= sum_totals(
                s@.values,
            )
        }),
        match state {
            Some(s) => s@.values.len() == 1 ==> (r matches Ok(o) && o matches Some(agg) && agg@
                == s@.values[0]),
            None => true,
        },
        match state {
            Some(s) => s@.values.len() <= 1 ==> r is Ok,
            None => true,
        },
        match state {
            Some(s) => rollup_ready(s@.values) ==> r is Ok,
            None => true,
        },
        match state {
            Some(s) => rollup_ready(s@.values) && s@.values.len() >= 1 ==> (r matches Ok(o)
                && o matches Some(agg) && agg@.compressed == s@.values[0].compressed
                && agg@.first_label() == s@.values[0].first_label() && agg@.last_label()
                == s@.values[s@.values.len() - 1].last_label() && agg@.dur_total() == sum_totals(
                s@.values,
            ) + sum_gaps(s@.values) && (forall|lab: Seq<u8>| #[trigger] agg@.dur_of(lab)
                == rollup_dur_of(s@.values, lab))),
            None => true,
        },
{
    match state {
        None => Ok(None),
        Some(mut state) => {
            match state.merge() {
                Ok(()) => {},
                Err(e) => {
                    return Err(e);
                },
            }
            if state.values.len() == 0 {
                Ok(None)
            } else {
                let ghost reduced = state@.values;
                let agg = match state.values.pop() {
                    Some(a) => a,
                    None => {
                        proof {
                            assert(false);
                        }
                        return Err(RollupError::EmptyAggregate);
                    },
                };
                proof {
                    assert(agg@ == reduced[0]);
                }
                Ok(Some(agg))
            }
        },
    }
}

} // verus!
