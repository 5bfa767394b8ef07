//! The engine's laws.
//!
//! Statements that relate several operations: merge associativity under
//! time order, and the fidelity of the spill boundary.

use vstd::prelude::*;

use crate::codec::{
    compressed_state_agg_rollup_deserialize_inner, compressed_state_agg_rollup_serialize,
};
use crate::rollup_state::{
    all_wf, compressed_state_agg_rollup_final_inner, reduce_budget, rollup_ready, sum_lens,
    RollupTransState,
};
use crate::state_agg::{
    earlier_of, later_of, merge_gap, merge_result_ok, mergeable, AggView, OwnedCompressedStateAgg,
};
use crate::RollupError;

verus! {

/// Law: merging in time order is associative in what it measures.  For
/// pairwise-disjoint, time-ordered aggregates `a`, `b`, `c`, any merge
/// results for the two association orders agree on the covered time
/// range, on the total duration, and on every label's duration.
pub proof fn lemma_merge_associative(
    a: AggView,
    b: AggView,
    c: AggView,
    ab: AggView,
    ab_c: AggView,
    bc: AggView,
    a_bc: AggView,
)
    requires
        a.first_time < b.first_time,
        b.first_time < c.first_time,
        a.last_time <= b.first_time,
        b.last_time <= c.first_time,
        a.first_time <= a.last_time,
        b.first_time <= b.last_time,
        merge_result_ok(ab, a, b),
        merge_result_ok(ab_c, ab, c),
        merge_result_ok(bc, b, c),
        merge_result_ok(a_bc, a, bc),
    ensures
        ab_c.first_time == a_bc.first_time,
        ab_c.last_time == a_bc.last_time,
        ab_c.dur_total() == a_bc.dur_total(),
        forall|lab: Seq<u8>| #[trigger] ab_c.dur_of(lab) == a_bc.dur_of(lab),
{
    assert(earlier_of(a, b) == a);
    assert(later_of(a, b) == b);
    assert(earlier_of(b, c) == b);
    assert(later_of(b, c) == c);
    assert(ab.first_time == a.first_time);
    assert(ab.last_time == b.last_time);
    assert(bc.first_time == b.first_time);
    assert(bc.last_time == c.last_time);
    assert(earlier_of(ab, c) == ab);
    assert(later_of(ab, c) == c);
    assert(earlier_of(a, bc) == a);
    assert(later_of(a, bc) == bc);
    assert(merge_gap(ab, c) == merge_gap(b, c));
    assert(merge_gap(a, bc) == merge_gap(a, b));
    assert(ab.last_label() == b.last_label());
    assert(bc.last_label() == c.last_label());
    assert forall|lab: Seq<u8>| #[trigger] ab_c.dur_of(lab) == a_bc.dur_of(lab) by {
        assert(ab_c.dur_of(lab) == ab.dur_of(lab) + c.dur_of(lab) + (if lab == ab.last_label() {
            merge_gap(ab, c)
        } else {
            0
        }));
        assert(ab.dur_of(lab) == a.dur_of(lab) + b.dur_of(lab) + (if lab == a.last_label() {
            merge_gap(a, b)
        } else {
            0
        }));
        assert(bc.dur_of(lab) == b.dur_of(lab) + c.dur_of(lab) + (if lab == b.last_label() {
            merge_gap(b, c)
        } else {
            0
        }));
        assert(a_bc.dur_of(lab) == a.dur_of(lab) + bc.dur_of(lab) + (if lab == a.last_label() {
            merge_gap(a, bc)
        } else {
            0
        }));
    }
}

/// Law: the spill boundary is faithful.  Serializing an accumulator and
/// deserializing the payload yields exactly the reduced accumulator, so
/// finalizing the round-tripped accumulator and finalizing the
/// accumulator the serialize step left behind produce the same result.
/// On a pending list the protocol guarantees (time-ordered, disjoint,
/// one flavor, non-empty aggregates), the whole round trip is owed to
/// succeed.
pub fn rollup_spill_law(state: RollupTransState) -> (r: Result<
    (Option<OwnedCompressedStateAgg>, Option<OwnedCompressedStateAgg>),
    RollupError,
>)
    requires
        all_wf(state@.values),
        sum_lens(state@.values) <= u32::MAX,
        reduce_budget(state@.values),
    ensures
        r matches Ok(pair) ==> {
            &&& (pair.0 is Some <==> pair.1 is Some)
            &&& (pair.0 matches Some(u) ==> pair.1 matches Some(v) && u@ == v@)
        },
        rollup_ready(state@.values) ==> r is Ok,
{
    let ghost sv = state@;
    let mut work = state;
    let bytes = match compressed_state_agg_rollup_serialize(&mut work) {
        Ok(b) => b,
        Err(e) => {
            proof {
                if rollup_ready(sv.values) {
                    assert(false);
                }
            }
            return Err(e);
        },
    };
    // `work` now holds the reduced accumulator and `bytes` its encoding
    let ghost reduced = work@;
    let roundtripped = match compressed_state_agg_rollup_deserialize_inner(&bytes) {
        Ok(s) => s,
        Err(e) => {
            proof {
                assert(false);
            }
            return Err(e);
        },
    };
    proof {
        assert(roundtripped@ == reduced);
        let vs = reduced.values;
        assert(reduce_budget(vs));
        if vs.len() == 1 {
            assert(vs.drop_last() =~= Seq::<AggView>::empty());
            assert(sum_lens(Seq::<AggView>::empty()) == 0);
            assert(vs.last() == vs[0]);
            assert(vs[0].wf());
            assert(sum_lens(vs) == vs[0].durations.len());
        } else {
            assert(sum_lens(vs) == 0);
        }
    }
    let direct = match compressed_state_agg_rollup_final_inner(Some(work)) {
        Ok(o) => o,
        Err(e) => {
            proof {
                assert(false);
            }
            return Err(e);
        },
    };
    let via_wire = match compressed_state_agg_rollup_final_inner(Some(roundtripped)) {
        Ok(o) => o,
        Err(e) => {
            proof {
                assert(false);
            }
            return Err(e);
        },
    };
    Ok((direct, via_wire))
}

/// Law: the merge characterization does not depend on argument order —
/// what `merge_result_ok` demands of a result for `(a, b)` it demands
/// for `(b, a)` too, since the earlier and the later operand are chosen
/// by start time, never by parameter position.  (Aggregate identity is
/// up to materialized labels: the data model compares references by
/// label value, not by bit pattern, so this is the equality the spec
/// speaks of.)
pub proof fn lemma_merge_result_symmetric(c: AggView, a: AggView, b: AggView)
    requires
        mergeable(a, b),
    ensures
        merge_result_ok(c, a, b) <==> merge_result_ok(c, b, a),
{
    assert(earlier_of(a, b) == earlier_of(b, a));
    assert(later_of(a, b) == later_of(b, a));
    assert(merge_gap(a, b) == merge_gap(b, a));
}

} // verus!
