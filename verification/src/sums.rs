//! Sums over duration records.
//!
//! `sum_durs` is the total duration of a record sequence; `sum_durs_of`
//! is the total attributed to one label, the records' references read
//! against a given dictionary.  The lemmas here support the merge
//! algorithm's loop invariants: how the sums change under `push` and
//! `update`, that they are stable when the dictionary is only extended,
//! and the bounds that rule out overflow.

use vstd::prelude::*;

use crate::label_dict::{label_of, lemma_label_stable, ref_valid};
use crate::state_agg::DurationInState;

verus! {

/// Total duration of a record sequence.
pub open spec fn sum_durs(s: Seq<DurationInState>) -> int
    decreases s.len(),
{
    if s.len() == 0 {
        0
    } else {
        sum_durs(s.drop_last()) + s.last().duration
    }
}

/// Total duration attributed to label `lab`, references read against
/// `dict`.
pub open spec fn sum_durs_of(s: Seq<DurationInState>, dict: Seq<u8>, lab: Seq<u8>) -> int
    decreases s.len(),
{
    if s.len() == 0 {
        0
    } else {
        sum_durs_of(s.drop_last(), dict, lab) + if label_of(dict, s.last().state) == lab {
            s.last().duration as int
        } else {
            0
        }
    }
}

pub proof fn lemma_sum_durs_push(s: Seq<DurationInState>, x: DurationInState)
    ensures
        sum_durs(s.push(x)) == sum_durs(s) + x.duration,
{
    assert(s.push(x).drop_last() =~= s);
}

pub proof fn lemma_sum_durs_of_push(s: Seq<DurationInState>, dict: Seq<u8>, x: DurationInState)
    ensures
        forall|lab: Seq<u8>| #[trigger] sum_durs_of(s.push(x), dict, lab)
            == sum_durs_of(s, dict, lab) + if label_of(dict, x.state) == lab {
                x.duration as int
            } else {
                0
            },
{
    assert(s.push(x).drop_last() =~= s);
}

pub proof fn lemma_sum_durs_update(s: Seq<DurationInState>, j: int, x: DurationInState)
    requires
        0 <= j < s.len(),
    ensures
        sum_durs(s.update(j, x)) == sum_durs(s) - s[j].duration + x.duration,
    decreases s.len(),
{
    if j == s.len() - 1 {
        assert(s.update(j, x).drop_last() =~= s.drop_last());
    } else {
        assert(s.update(j, x).drop_last() =~= s.drop_last().update(j, x));
        lemma_sum_durs_update(s.drop_last(), j, x);
    }
}

pub proof fn lemma_sum_durs_of_update(s: Seq<DurationInState>, dict: Seq<u8>, j: int, x: DurationInState)
    requires
        0 <= j < s.len(),
        x.state == s[j].state,
    ensures
        forall|lab: Seq<u8>| #[trigger] sum_durs_of(s.update(j, x), dict, lab)
            == sum_durs_of(s, dict, lab) + if label_of(dict, s[j].state) == lab {
                x.duration - s[j].duration
            } else {
                0
            },
    decreases s.len(),
{
    if j == s.len() - 1 {
        assert(s.update(j, x).drop_last() =~= s.drop_last());
        assert forall|lab: Seq<u8>| #[trigger] sum_durs_of(s.update(j, x), dict, lab)
            == sum_durs_of(s, dict, lab) + if label_of(dict, s[j].state) == lab {
            x.duration - s[j].duration
        } else {
            0
        } by {
            assert(s.update(j, x).last() == x);
            assert(s.last() == s[j]);
        }
    } else {
        assert(s.update(j, x).drop_last() =~= s.drop_last().update(j, x));
        assert(s.drop_last()[j] == s[j]);
        lemma_sum_durs_of_update(s.drop_last(), dict, j, x);
        assert forall|lab: Seq<u8>| #[trigger] sum_durs_of(s.update(j, x), dict, lab)
            == sum_durs_of(s, dict, lab) + if label_of(dict, s[j].state) == lab {
            x.duration - s[j].duration
        } else {
            0
        } by {
            assert(sum_durs_of(s.drop_last().update(j, x), dict, lab) == sum_durs_of(
                s.drop_last(),
                dict,
                lab,
            ) + if label_of(dict, s[j].state) == lab {
                x.duration - s[j].duration
            } else {
                0
            });
            assert(s.update(j, x).last() == s.last());
        }
    }
}

pub proof fn lemma_sum_durs_nonneg(s: Seq<DurationInState>)
    requires
        forall|i: int| 0 <= i < s.len() ==> (#[trigger] s[i]).duration >= 0,
    ensures
        sum_durs(s) >= 0,
    decreases s.len(),
{
    if s.len() > 0 {
        lemma_sum_durs_nonneg(s.drop_last());
    }
}

pub proof fn lemma_elem_le_sum(s: Seq<DurationInState>, j: int)
    requires
        forall|i: int| 0 <= i < s.len() ==> (#[trigger] s[i]).duration >= 0,
        0 <= j < s.len(),
    ensures
        s[j].duration <= sum_durs(s),
    decreases s.len(),
{
    if j == s.len() - 1 {
        lemma_sum_durs_nonneg(s.drop_last());
    } else {
        lemma_elem_le_sum(s.drop_last(), j);
    }
}

pub proof fn lemma_sum_durs_prefix_step(s: Seq<DurationInState>, i: int)
    requires
        0 <= i < s.len(),
    ensures
        sum_durs(s.subrange(0, i + 1)) == sum_durs(s.subrange(0, i)) + s[i].duration,
{
    assert(s.subrange(0, i + 1).drop_last() =~= s.subrange(0, i));
}

pub proof fn lemma_sum_durs_of_prefix_step(s: Seq<DurationInState>, dict: Seq<u8>, i: int)
    requires
        0 <= i < s.len(),
    ensures
        forall|lab: Seq<u8>| #[trigger] sum_durs_of(s.subrange(0, i + 1), dict, lab)
            == sum_durs_of(s.subrange(0, i), dict, lab) + if label_of(dict, s[i].state) == lab {
                s[i].duration as int
            } else {
                0
            },
{
    assert(s.subrange(0, i + 1).drop_last() =~= s.subrange(0, i));
}

/// A prefix of a nonnegative record sequence sums to at most the whole.
pub proof fn lemma_sum_prefix_le(s: Seq<DurationInState>, i: int)
    requires
        forall|k: int| 0 <= k < s.len() ==> (#[trigger] s[k]).duration >= 0,
        0 <= i <= s.len(),
    ensures
        sum_durs(s.subrange(0, i)) <= sum_durs(s),
    decreases s.len() - i,
{
    if i == s.len() {
        assert(s.subrange(0, i) =~= s);
    } else {
        lemma_sum_durs_prefix_step(s, i);
        lemma_sum_prefix_le(s, i + 1);
    }
}

/// Extending the dictionary does not change any per-label sum, as long
/// as every record's reference was already valid.
pub proof fn lemma_sum_durs_of_dict_extend(
    s: Seq<DurationInState>,
    d1: Seq<u8>,
    d2: Seq<u8>,
)
    requires
        forall|i: int| 0 <= i < s.len() ==> ref_valid(d1, (#[trigger] s[i]).state),
        d1.len() <= d2.len(),
        d2.subrange(0, d1.len() as int) == d1,
    ensures
        forall|lab: Seq<u8>| #[trigger] sum_durs_of(s, d2, lab) == sum_durs_of(s, d1, lab),
    decreases s.len(),
{
    if s.len() > 0 {
        assert(ref_valid(d1, s[s.len() - 1].state));
        lemma_label_stable(d1, d2, s.last().state);
        assert forall|i: int|
            0 <= i < s.drop_last().len() implies ref_valid(
            d1,
            (#[trigger] s.drop_last()[i]).state,
        ) by {
            assert(s.drop_last()[i] == s[i]);
        }
        lemma_sum_durs_of_dict_extend(s.drop_last(), d1, d2);
        assert forall|lab: Seq<u8>| #[trigger] sum_durs_of(s, d2, lab) == sum_durs_of(
            s,
            d1,
            lab,
        ) by {
            assert(sum_durs_of(s.drop_last(), d2, lab) == sum_durs_of(s.drop_last(), d1, lab));
        }
    }
}

} // verus!
