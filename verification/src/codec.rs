//! Byte codec for the spill boundary.
//!
//! An accumulator crossing a parallel-worker or spill boundary is first
//! reduced to at most one aggregate and then encoded into a
//! self-describing byte payload: little-endian fixed-width integers,
//! length-prefixed variable parts.  `dec_state` is the specification of
//! the decoder; the encoder proves that its output decodes back to the
//! encoded value, which gives round-trip fidelity without trusting
//! either direction.

use vstd::prelude::*;

use crate::label_dict::StateRef;
use crate::rollup_state::{
    all_wf, reduce_budget, rollup_ready, sum_lens, RollupTransState, StateView,
};
use crate::state_agg::{AggView, DurationInState, OwnedCompressedStateAgg, TimeInState};
use crate::RollupError;

verus! {

/// The eight little-endian bytes of a machine word.
pub open spec fn u64_le_bytes(v: u64) -> Seq<u8> {
    seq![
        (v % 256) as u8,
        ((v >> 8) % 256) as u8,
        ((v >> 16) % 256) as u8,
        ((v >> 24) % 256) as u8,
        ((v >> 32) % 256) as u8,
        ((v >> 40) % 256) as u8,
        ((v >> 48) % 256) as u8,
        ((v >> 56) % 256) as u8,
    ]
}

/// A machine word from its eight little-endian bytes.
pub open spec fn u64_of_le(
    b0: u8,
    b1: u8,
    b2: u8,
    b3: u8,
    b4: u8,
    b5: u8,
    b6: u8,
    b7: u8,
) -> u64 {
    (b0 as u64) | ((b1 as u64) << 8) | ((b2 as u64) << 16) | ((b3 as u64) << 24) | ((b4 as u64)
        << 32) | ((b5 as u64) << 40) | ((b6 as u64) << 48) | ((b7 as u64) << 56)
}

proof fn lemma_u64_le_roundtrip(v: u64)
    ensures
        u64_of_le(
            (v % 256) as u8,
            ((v >> 8) % 256) as u8,
            ((v >> 16) % 256) as u8,
            ((v >> 24) % 256) as u8,
            ((v >> 32) % 256) as u8,
            ((v >> 40) % 256) as u8,
            ((v >> 48) % 256) as u8,
            ((v >> 56) % 256) as u8,
        ) == v,
{
    assert(((v % 256) as u8 as u64) | ((((v >> 8) % 256) as u8 as u64) << 8) | ((((v >> 16) % 256)
        as u8 as u64) << 16) | ((((v >> 24) % 256) as u8 as u64) << 24) | ((((v >> 32) % 256) as u8
        as u64) << 32) | ((((v >> 40) % 256) as u8 as u64) << 40) | ((((v >> 48) % 256) as u8
        as u64) << 48) | ((((v >> 56) % 256) as u8 as u64) << 56) == v) by (bit_vector);
}

/// Prefix facts compose: if `b` extends `a` and `c` extends `b`, then
/// `c` extends `a`.
proof fn lemma_prefix_trans(a: Seq<u8>, b: Seq<u8>, c: Seq<u8>)
    requires
        a.len() <= b.len(),
        b.len() <= c.len(),
        b.subrange(0, a.len() as int) == a,
        c.subrange(0, b.len() as int) == b,
    ensures
        c.subrange(0, a.len() as int) == a,
{
    assert(c.subrange(0, a.len() as int) =~= a) by {
        assert forall|i: int| 0 <= i < a.len() implies c[i] == a[i] by {
            assert(c.subrange(0, b.len() as int)[i] == c[i]);
            assert(b.subrange(0, a.len() as int)[i] == b[i]);
        }
    }
}

/// A signed time value carried as a machine word, order-preservingly
/// shifted so that the smallest time maps to zero.
pub open spec fn i64_as_u64(x: i64) -> u64 {
    ((x as int) + 0x8000_0000_0000_0000) as u64
}

/// Inverse of `i64_as_u64`.
pub open spec fn u64_as_i64(u: u64) -> i64 {
    ((u as int) - 0x8000_0000_0000_0000) as i64
}

/// Parse a machine word at `pos`.
pub open spec fn dec_u64(b: Seq<u8>, pos: int) -> Option<(u64, int)> {
    if 0 <= pos && pos + 8 <= b.len() {
        Some(
            (
                u64_of_le(
                    b[pos],
                    b[pos + 1],
                    b[pos + 2],
                    b[pos + 3],
                    b[pos + 4],
                    b[pos + 5],
                    b[pos + 6],
                    b[pos + 7],
                ),
                pos + 8,
            ),
        )
    } else {
        None
    }
}

/// Parse a time value at `pos`.
pub open spec fn dec_i64(b: Seq<u8>, pos: int) -> Option<(i64, int)> {
    match dec_u64(b, pos) {
        Some((u, p)) => Some((u64_as_i64(u), p)),
        None => None,
    }
}

/// Parse a one-byte flag at `pos`; any byte but zero and one is refused.
pub open spec fn dec_bool(b: Seq<u8>, pos: int) -> Option<(bool, int)> {
    if 0 <= pos && pos + 1 <= b.len() {
        if b[pos] == 1u8 {
            Some((true, pos + 1))
        } else if b[pos] == 0u8 {
            Some((false, pos + 1))
        } else {
            None
        }
    } else {
        None
    }
}

/// Parse a size that must fit the machine's pointer width.
pub open spec fn dec_usize(b: Seq<u8>, pos: int) -> Option<(usize, int)> {
    match dec_u64(b, pos) {
        Some((u, p)) => if u <= usize::MAX as u64 {
            Some((u as usize, p))
        } else {
            None
        },
        None => None,
    }
}

/// Parse a record index that must fit `u32`.
pub open spec fn dec_u32(b: Seq<u8>, pos: int) -> Option<(u32, int)> {
    match dec_u64(b, pos) {
        Some((u, p)) => if u <= u32::MAX as u64 {
            Some((u as u32, p))
        } else {
            None
        },
        None => None,
    }
}

/// Parse a length-prefixed byte string.
pub open spec fn dec_byte_seq(b: Seq<u8>, pos: int) -> Option<(Seq<u8>, int)> {
    match dec_u64(b, pos) {
        Some((n, p)) => if p + n <= b.len() {
            Some((b.subrange(p, p + n), p + n))
        } else {
            None
        },
        None => None,
    }
}

/// Parse one duration record.
pub open spec fn dec_dur(b: Seq<u8>, pos: int) -> Option<(DurationInState, int)> {
    match dec_usize(b, pos) {
        Some((off, p1)) => match dec_usize(b, p1) {
            Some((len, p2)) => match dec_i64(b, p2) {
                Some((d, p3)) => Some(
                    (DurationInState { state: StateRef { off, len }, duration: d }, p3),
                ),
                None => None,
            },
            None => None,
        },
        None => None,
    }
}

/// Parse `n` duration records.
pub open spec fn dec_durs(b: Seq<u8>, pos: int, n: nat) -> Option<(Seq<DurationInState>, int)>
    decreases n,
{
    if n == 0 {
        Some((Seq::empty(), pos))
    } else {
        match dec_dur(b, pos) {
            Some((d, p1)) => match dec_durs(b, p1, (n - 1) as nat) {
                Some((rest, p2)) => Some((seq![d] + rest, p2)),
                None => None,
            },
            None => None,
        }
    }
}

/// Parse one timeline segment.
pub open spec fn dec_seg(b: Seq<u8>, pos: int) -> Option<(TimeInState, int)> {
    match dec_usize(b, pos) {
        Some((off, p1)) => match dec_usize(b, p1) {
            Some((len, p2)) => match dec_i64(b, p2) {
                Some((st, p3)) => match dec_i64(b, p3) {
                    Some((en, p4)) => Some(
                        (
                            TimeInState {
                                state: StateRef { off, len },
                                start_time: st,
                                end_time: en,
                            },
                            p4,
                        ),
                    ),
                    None => None,
                },
                None => None,
            },
            None => None,
        },
        None => None,
    }
}

/// Parse `n` timeline segments.
pub open spec fn dec_segs(b: Seq<u8>, pos: int, n: nat) -> Option<(Seq<TimeInState>, int)>
    decreases n,
{
    if n == 0 {
        Some((Seq::empty(), pos))
    } else {
        match dec_seg(b, pos) {
            Some((s, p1)) => match dec_segs(b, p1, (n - 1) as nat) {
                Some((rest, p2)) => Some((seq![s] + rest, p2)),
                None => None,
            },
            None => None,
        }
    }
}

/// Parse one aggregate.
pub open spec fn dec_agg(b: Seq<u8>, pos: int) -> Option<(AggView, int)> {
    match dec_i64(b, pos) {
        Some((first_time, p1)) => match dec_i64(b, p1) {
            Some((last_time, p2)) => match dec_u32(b, p2) {
                Some((first_state, p3)) => match dec_u32(b, p3) {
                    Some((last_state, p4)) => match dec_bool(b, p4) {
                        Some((compressed, p5)) => match dec_bool(b, p5) {
                            Some((integer_states, p6)) => match dec_byte_seq(b, p6) {
                                Some((states, p7)) => match dec_u64(b, p7) {
                                    Some((nd, p8)) => match dec_durs(b, p8, nd as nat) {
                                        Some((durations, p9)) => match dec_u64(b, p9) {
                                            Some((ns, p10)) => match dec_segs(b, p10, ns as nat) {
                                                Some((segs, p11)) => Some(
                                                    (
                                                        AggView {
                                                            durations,
                                                            combined_durations: segs,
                                                            first_time,
                                                            last_time,
                                                            first_state,
                                                            last_state,
                                                            states,
                                                            compressed,
                                                            integer_states,
                                                        },
                                                        p11,
                                                    ),
                                                ),
                                                None => None,
                                            },
                                            None => None,
                                        },
                                        None => None,
                                    },
                                    None => None,
                                },
                                None => None,
                            },
                            None => None,
                        },
                        None => None,
                    },
                    None => None,
                },
                None => None,
            },
            None => None,
        },
        None => None,
    }
}

/// Parse `n` aggregates.
pub open spec fn dec_aggs(b: Seq<u8>, pos: int, n: nat) -> Option<(Seq<AggView>, int)>
    decreases n,
{
    if n == 0 {
        Some((Seq::empty(), pos))
    } else {
        match dec_agg(b, pos) {
            Some((a, p1)) => match dec_aggs(b, p1, (n - 1) as nat) {
                Some((rest, p2)) => Some((seq![a] + rest, p2)),
                None => None,
            },
            None => None,
        }
    }
}

/// The decoder's specification: a flag byte, a count, that many
/// aggregates, and nothing after them.
pub open spec fn dec_state(b: Seq<u8>) -> Option<StateView> {
    match dec_bool(b, 0) {
        Some((compressed, p1)) => match dec_u64(b, p1) {
            Some((n, p2)) => match dec_aggs(b, p2, n as nat) {
                Some((values, p3)) => if p3 == b.len() {
                    Some(StateView { values, compressed })
                } else {
                    None
                },
                None => None,
            },
            None => None,
        },
        None => None,
    }
}

/// A parse that succeeded in a buffer still succeeds, with the same
/// result, after more bytes are appended.
proof fn lemma_dec_u64_stable(b1: Seq<u8>, b2: Seq<u8>, pos: int)
    requires
        dec_u64(b1, pos) is Some,
        b1.len() <= b2.len(),
        b2.subrange(0, b1.len() as int) == b1,
    ensures
        dec_u64(b2, pos) == dec_u64(b1, pos),
{
    assert forall|i: int| 0 <= i < b1.len() implies b2[i] == b1[i] by {
        assert(b2.subrange(0, b1.len() as int)[i] == b2[i]);
    }
}

proof fn lemma_dec_bool_stable(b1: Seq<u8>, b2: Seq<u8>, pos: int)
    requires
        dec_bool(b1, pos) is Some,
        b1.len() <= b2.len(),
        b2.subrange(0, b1.len() as int) == b1,
    ensures
        dec_bool(b2, pos) == dec_bool(b1, pos),
{
    assert(b2.subrange(0, b1.len() as int)[pos] == b2[pos]);
}

proof fn lemma_dec_byte_seq_stable(b1: Seq<u8>, b2: Seq<u8>, pos: int)
    requires
        dec_byte_seq(b1, pos) is Some,
        b1.len() <= b2.len(),
        b2.subrange(0, b1.len() as int) == b1,
    ensures
        dec_byte_seq(b2, pos) == dec_byte_seq(b1, pos),
{
    lemma_dec_u64_stable(b1, b2, pos);
    let (n, p) = dec_u64(b1, pos).unwrap();
    assert(b2.subrange(p, p + n) =~= b1.subrange(p, p + n)) by {
        assert forall|i: int| p <= i < p + n implies b2[i] == b1[i] by {
            assert(b2.subrange(0, b1.len() as int)[i] == b2[i]);
        }
    }
}

proof fn lemma_dec_dur_stable(b1: Seq<u8>, b2: Seq<u8>, pos: int)
    requires
        dec_dur(b1, pos) is Some,
        b1.len() <= b2.len(),
        b2.subrange(0, b1.len() as int) == b1,
    ensures
        dec_dur(b2, pos) == dec_dur(b1, pos),
{
    lemma_dec_u64_stable(b1, b2, pos);
    let (_, p1) = dec_u64(b1, pos).unwrap();
    lemma_dec_u64_stable(b1, b2, p1);
    let (_, p2) = dec_u64(b1, p1).unwrap();
    lemma_dec_u64_stable(b1, b2, p2);
}

proof fn lemma_dec_durs_stable(b1: Seq<u8>, b2: Seq<u8>, pos: int, n: nat)
    requires
        dec_durs(b1, pos, n) is Some,
        b1.len() <= b2.len(),
        b2.subrange(0, b1.len() as int) == b1,
    ensures
        dec_durs(b2, pos, n) == dec_durs(b1, pos, n),
    decreases n,
{
    if n > 0 {
        lemma_dec_dur_stable(b1, b2, pos);
        let (_, p1) = dec_dur(b1, pos).unwrap();
        lemma_dec_durs_stable(b1, b2, p1, (n - 1) as nat);
    }
}

proof fn lemma_dec_seg_stable(b1: Seq<u8>, b2: Seq<u8>, pos: int)
    requires
        dec_seg(b1, pos) is Some,
        b1.len() <= b2.len(),
        b2.subrange(0, b1.len() as int) == b1,
    ensures
        dec_seg(b2, pos) == dec_seg(b1, pos),
{
    lemma_dec_u64_stable(b1, b2, pos);
    let (_, p1) = dec_u64(b1, pos).unwrap();
    lemma_dec_u64_stable(b1, b2, p1);
    let (_, p2) = dec_u64(b1, p1).unwrap();
    lemma_dec_u64_stable(b1, b2, p2);
    let (_, p3) = dec_u64(b1, p2).unwrap();
    lemma_dec_u64_stable(b1, b2, p3);
}

proof fn lemma_dec_segs_stable(b1: Seq<u8>, b2: Seq<u8>, pos: int, n: nat)
    requires
        dec_segs(b1, pos, n) is Some,
        b1.len() <= b2.len(),
        b2.subrange(0, b1.len() as int) == b1,
    ensures
        dec_segs(b2, pos, n) == dec_segs(b1, pos, n),
    decreases n,
{
    if n > 0 {
        lemma_dec_seg_stable(b1, b2, pos);
        let (_, p1) = dec_seg(b1, pos).unwrap();
        lemma_dec_segs_stable(b1, b2, p1, (n - 1) as nat);
    }
}

proof fn lemma_dec_agg_stable(b1: Seq<u8>, b2: Seq<u8>, pos: int)
    requires
        dec_agg(b1, pos) is Some,
        b1.len() <= b2.len(),
        b2.subrange(0, b1.len() as int) == b1,
    ensures
        dec_agg(b2, pos) == dec_agg(b1, pos),
{
    lemma_dec_u64_stable(b1, b2, pos);
    let (_, p1) = dec_u64(b1, pos).unwrap();
    lemma_dec_u64_stable(b1, b2, p1);
    let (_, p2) = dec_u64(b1, p1).unwrap();
    lemma_dec_u64_stable(b1, b2, p2);
    let (_, p3) = dec_u64(b1, p2).unwrap();
    lemma_dec_u64_stable(b1, b2, p3);
    let (_, p4) = dec_u64(b1, p3).unwrap();
    lemma_dec_bool_stable(b1, b2, p4);
    let (_, p5) = dec_bool(b1, p4).unwrap();
    lemma_dec_bool_stable(b1, b2, p5);
    let (_, p6) = dec_bool(b1, p5).unwrap();
    lemma_dec_byte_seq_stable(b1, b2, p6);
    let (_, p7) = dec_byte_seq(b1, p6).unwrap();
    lemma_dec_u64_stable(b1, b2, p7);
    let (nd, p8) = dec_u64(b1, p7).unwrap();
    lemma_dec_durs_stable(b1, b2, p8, nd as nat);
    let (_, p9) = dec_durs(b1, p8, nd as nat).unwrap();
    lemma_dec_u64_stable(b1, b2, p9);
    let (ns, p10) = dec_u64(b1, p9).unwrap();
    lemma_dec_segs_stable(b1, b2, p10, ns as nat);
}

/// Parsing one more item at the end of a successfully parsed list.
proof fn lemma_dec_durs_snoc(b1: Seq<u8>, b2: Seq<u8>, pos: int, n: nat)
    requires
        dec_durs(b1, pos, n) is Some,
        b1.len() <= b2.len(),
        b2.subrange(0, b1.len() as int) == b1,
        dec_dur(b2, dec_durs(b1, pos, n).unwrap().1) is Some,
    ensures
        dec_durs(b2, pos, n + 1) == Some(
            (
                dec_durs(b1, pos, n).unwrap().0.push(
                    dec_dur(b2, dec_durs(b1, pos, n).unwrap().1).unwrap().0,
                ),
                dec_dur(b2, dec_durs(b1, pos, n).unwrap().1).unwrap().1,
            ),
        ),
    decreases n,
{
    let (s, e) = dec_durs(b1, pos, n).unwrap();
    let (d, e2) = dec_dur(b2, e).unwrap();
    if n == 0 {
        assert(e == pos);
        assert(dec_durs(b2, e2, 0nat) == Some((Seq::<DurationInState>::empty(), e2)));
        assert(dec_durs(b2, pos, 1nat) == Some((seq![d] + Seq::<DurationInState>::empty(), e2)));
        assert(seq![d] + Seq::<DurationInState>::empty() =~= Seq::<
            DurationInState,
        >::empty().push(d));
    } else {
        lemma_dec_dur_stable(b1, b2, pos);
        let (d0, p1) = dec_dur(b1, pos).unwrap();
        assert(dec_durs(b1, p1, (n - 1) as nat) is Some);
        lemma_dec_durs_snoc(b1, b2, p1, (n - 1) as nat);
        let (s0, _) = dec_durs(b1, p1, (n - 1) as nat).unwrap();
        assert(s == seq![d0] + s0);
        assert(dec_durs(b2, p1, ((n - 1) + 1) as nat) == Some((s0.push(d), e2)));
        assert(dec_durs(b2, pos, n + 1) == Some((seq![d0] + s0.push(d), e2)));
        assert(seq![d0] + s0.push(d) =~= (seq![d0] + s0).push(d));
    }
}

proof fn lemma_dec_segs_snoc(b1: Seq<u8>, b2: Seq<u8>, pos: int, n: nat)
    requires
        dec_segs(b1, pos, n) is Some,
        b1.len() <= b2.len(),
        b2.subrange(0, b1.len() as int) == b1,
        dec_seg(b2, dec_segs(b1, pos, n).unwrap().1) is Some,
    ensures
        dec_segs(b2, pos, n + 1) == Some(
            (
                dec_segs(b1, pos, n).unwrap().0.push(
                    dec_seg(b2, dec_segs(b1, pos, n).unwrap().1).unwrap().0,
                ),
                dec_seg(b2, dec_segs(b1, pos, n).unwrap().1).unwrap().1,
            ),
        ),
    decreases n,
{
    let (s, e) = dec_segs(b1, pos, n).unwrap();
    let (d, e2) = dec_seg(b2, e).unwrap();
    if n == 0 {
        assert(e == pos);
        assert(dec_segs(b2, e2, 0nat) == Some((Seq::<TimeInState>::empty(), e2)));
        assert(dec_segs(b2, pos, 1nat) == Some((seq![d] + Seq::<TimeInState>::empty(), e2)));
        assert(seq![d] + Seq::<TimeInState>::empty() =~= Seq::<TimeInState>::empty().push(d));
    } else {
        lemma_dec_seg_stable(b1, b2, pos);
        let (d0, p1) = dec_seg(b1, pos).unwrap();
        assert(dec_segs(b1, p1, (n - 1) as nat) is Some);
        lemma_dec_segs_snoc(b1, b2, p1, (n - 1) as nat);
        let (s0, _) = dec_segs(b1, p1, (n - 1) as nat).unwrap();
        assert(s == seq![d0] + s0);
        assert(dec_segs(b2, p1, ((n - 1) + 1) as nat) == Some((s0.push(d), e2)));
        assert(dec_segs(b2, pos, n + 1) == Some((seq![d0] + s0.push(d), e2)));
        assert(seq![d0] + s0.push(d) =~= (seq![d0] + s0).push(d));
    }
}

proof fn lemma_dec_aggs_snoc(b1: Seq<u8>, b2: Seq<u8>, pos: int, n: nat)
    requires
        dec_aggs(b1, pos, n) is Some,
        b1.len() <= b2.len(),
        b2.subrange(0, b1.len() as int) == b1,
        dec_agg(b2, dec_aggs(b1, pos, n).unwrap().1) is Some,
    ensures
        dec_aggs(b2, pos, n + 1) == Some(
            (
                dec_aggs(b1, pos, n).unwrap().0.push(
                    dec_agg(b2, dec_aggs(b1, pos, n).unwrap().1).unwrap().0,
                ),
                dec_agg(b2, dec_aggs(b1, pos, n).unwrap().1).unwrap().1,
            ),
        ),
    decreases n,
{
    let (s, e) = dec_aggs(b1, pos, n).unwrap();
    let (d, e2) = dec_agg(b2, e).unwrap();
    if n == 0 {
        assert(e == pos);
        assert(dec_aggs(b2, e2, 0nat) == Some((Seq::<AggView>::empty(), e2)));
        assert(dec_aggs(b2, pos, 1nat) == Some((seq![d] + Seq::<AggView>::empty(), e2)));
        assert(seq![d] + Seq::<AggView>::empty() =~= Seq::<AggView>::empty().push(d));
    } else {
        lemma_dec_agg_stable(b1, b2, pos);
        let (d0, p1) = dec_agg(b1, pos).unwrap();
        assert(dec_aggs(b1, p1, (n - 1) as nat) is Some);
        lemma_dec_aggs_snoc(b1, b2, p1, (n - 1) as nat);
        let (s0, _) = dec_aggs(b1, p1, (n - 1) as nat).unwrap();
        assert(s == seq![d0] + s0);
        assert(dec_aggs(b2, p1, ((n - 1) + 1) as nat) == Some((s0.push(d), e2)));
        assert(dec_aggs(b2, pos, n + 1) == Some((seq![d0] + s0.push(d), e2)));
        assert(seq![d0] + s0.push(d) =~= (seq![d0] + s0).push(d));
    }
}

/// Append one machine word, little-endian.
fn push_u64(out: &mut Vec<u8>, v: u64)
    ensures
        final(out)@ == old(out)@ + u64_le_bytes(v),
        dec_u64(final(out)@, old(out)@.len() as int) == Some((v, final(out)@.len() as int)),
{
    let ghost p = out@.len();
    out.push((v % 256) as u8);
    out.push(((v >> 8) % 256) as u8);
    out.push(((v >> 16) % 256) as u8);
    out.push(((v >> 24) % 256) as u8);
    out.push(((v >> 32) % 256) as u8);
    out.push(((v >> 40) % 256) as u8);
    out.push(((v >> 48) % 256) as u8);
    out.push(((v >> 56) % 256) as u8);
    proof {
        assert(out@ =~= old(out)@ + u64_le_bytes(v));
        lemma_u64_le_roundtrip(v);
        assert(dec_u64(out@, p as int) == Some((v, out@.len() as int)));
    }
}

/// Append one time value.
fn push_i64(out: &mut Vec<u8>, x: i64)
    ensures
        final(out)@ == old(out)@ + u64_le_bytes(i64_as_u64(x)),
        dec_i64(final(out)@, old(out)@.len() as int) == Some((x, final(out)@.len() as int)),
{
    let u: u64 = (((x as i128) + 0x8000_0000_0000_0000i128) as u64);
    proof {
        assert(u == i64_as_u64(x));
        assert(u64_as_i64(i64_as_u64(x)) == x);
    }
    push_u64(out, u);
}

/// Append one flag byte.
fn push_bool(out: &mut Vec<u8>, v: bool)
    ensures
        final(out)@ == old(out)@ + seq![(if v { 1u8 } else { 0u8 })],
        dec_bool(final(out)@, old(out)@.len() as int) == Some((v, final(out)@.len() as int)),
{
    out.push(if v {
        1u8
    } else {
        0u8
    });
    proof {
        assert(out@ =~= old(out)@ + seq![(if v { 1u8 } else { 0u8 })]);
    }
}

/// Append a length-prefixed byte string.
fn push_byte_seq(out: &mut Vec<u8>, v: &Vec<u8>)
    ensures
        final(out)@.len() >= old(out)@.len(),
        final(out)@.subrange(0, old(out)@.len() as int) == old(out)@,
        dec_byte_seq(final(out)@, old(out)@.len() as int) == Some(
            (v@, final(out)@.len() as int),
        ),
{
    let ghost p = out@.len();
    push_u64(out, v.len() as u64);
    let ghost b1 = out@;
    let n = v.len();
    let mut i: usize = 0;
    while i < n
        invariant
            n == v@.len(),
            i <= n,
            out@ == b1 + v@.subrange(0, i as int),
        decreases n - i,
    {
        out.push(v[i]);
        proof {
            assert(out@ =~= b1 + v@.subrange(0, i + 1));
        }
        i += 1;
    }
    proof {
        assert(out@ =~= b1 + v@);
        assert(out@.subrange(0, b1.len() as int) =~= b1);
        lemma_dec_u64_stable(b1, out@, p as int);
        assert(out@.subrange(b1.len() as int, (b1.len() + v@.len()) as int) =~= v@);
        assert(out@.subrange(0, p as int) =~= old(out)@);
    }
}

/// Append one duration record.
fn push_dur(out: &mut Vec<u8>, d: DurationInState)
    ensures
        final(out)@.len() >= old(out)@.len(),
        final(out)@.subrange(0, old(out)@.len() as int) == old(out)@,
        dec_dur(final(out)@, old(out)@.len() as int) == Some((d, final(out)@.len() as int)),
{
    let ghost p0 = out@.len();
    push_u64(out, d.state.off as u64);
    let ghost b1 = out@;
    push_u64(out, d.state.len as u64);
    let ghost b2 = out@;
    push_i64(out, d.duration);
    proof {
        assert(out@.subrange(0, b2.len() as int) =~= b2);
        assert(b2.subrange(0, b1.len() as int) =~= b1);
        lemma_prefix_trans(b1, b2, out@);
        lemma_dec_u64_stable(b1, out@, p0 as int);
        lemma_dec_u64_stable(b2, out@, b1.len() as int);
        assert(out@.subrange(0, p0 as int) =~= old(out)@);
    }
}

/// Append one timeline segment.
fn push_seg(out: &mut Vec<u8>, s: TimeInState)
    ensures
        final(out)@.len() >= old(out)@.len(),
        final(out)@.subrange(0, old(out)@.len() as int) == old(out)@,
        dec_seg(final(out)@, old(out)@.len() as int) == Some((s, final(out)@.len() as int)),
{
    let ghost p0 = out@.len();
    push_u64(out, s.state.off as u64);
    let ghost b1 = out@;
    push_u64(out, s.state.len as u64);
    let ghost b2 = out@;
    push_i64(out, s.start_time);
    let ghost b3 = out@;
    push_i64(out, s.end_time);
    proof {
        assert(out@.subrange(0, b3.len() as int) =~= b3);
        assert(b3.subrange(0, b2.len() as int) =~= b2);
        assert(b2.subrange(0, b1.len() as int) =~= b1);
        lemma_prefix_trans(b2, b3, out@);
        lemma_prefix_trans(b1, b2, out@);
        lemma_dec_u64_stable(b1, out@, p0 as int);
        lemma_dec_u64_stable(b2, out@, b1.len() as int);
        lemma_dec_u64_stable(b3, out@, b2.len() as int);
        assert(out@.subrange(0, p0 as int) =~= old(out)@);
    }
}

/// Append one aggregate.
#[verifier::rlimit(100)]
fn push_agg(out: &mut Vec<u8>, a: &OwnedCompressedStateAgg)
    ensures
        final(out)@.len() >= old(out)@.len(),
        final(out)@.subrange(0, old(out)@.len() as int) == old(out)@,
        dec_agg(final(out)@, old(out)@.len() as int) == Some((a@, final(out)@.len() as int)),
{
    let ghost p0 = out@.len();
    push_i64(out, a.first_time);
    let ghost b1 = out@;
    push_i64(out, a.last_time);
    let ghost b2 = out@;
    push_u64(out, a.first_state as u64);
    let ghost b3 = out@;
    push_u64(out, a.last_state as u64);
    let ghost b4 = out@;
    push_bool(out, a.compressed);
    let ghost b5 = out@;
    push_bool(out, a.integer_states);
    let ghost b6 = out@;
    push_byte_seq(out, &a.states);
    let ghost b7 = out@;
    push_u64(out, a.durations.len() as u64);
    let ghost b8 = out@;
    let ghost p8 = out@.len();
    let nd = a.durations.len();
    let mut i: usize = 0;
    while i < nd
        invariant
            nd == a.durations@.len(),
            i <= nd,
            out@.len() >= b8.len(),
            out@.subrange(0, b8.len() as int) == b8,
            p8 == b8.len(),
            dec_durs(out@, p8 as int, i as nat) == Some(
                (a.durations@.subrange(0, i as int), out@.len() as int),
            ),
        decreases nd - i,
    {
        let ghost bpre = out@;
        push_dur(out, a.durations[i]);
        proof {
            lemma_dec_durs_snoc(bpre, out@, p8 as int, i as nat);
            assert(a.durations@.subrange(0, i as int).push(a.durations@[i as int])
                =~= a.durations@.subrange(0, i + 1));
            assert(out@.subrange(0, b8.len() as int) =~= b8);
        }
        i += 1;
    }
    let ghost b9 = out@;
    let ghost p9 = out@.len();
    push_u64(out, a.combined_durations.len() as u64);
    let ghost b10 = out@;
    let ghost p10 = out@.len();
    let ns = a.combined_durations.len();
    let mut k: usize = 0;
    while k < ns
        invariant
            ns == a.combined_durations@.len(),
            k <= ns,
            out@.len() >= b10.len(),
            out@.subrange(0, b10.len() as int) == b10,
            p10 == b10.len(),
            dec_segs(out@, p10 as int, k as nat) == Some(
                (a.combined_durations@.subrange(0, k as int), out@.len() as int),
            ),
        decreases ns - k,
    {
        let ghost bpre = out@;
        push_seg(out, a.combined_durations[k]);
        proof {
            lemma_dec_segs_snoc(bpre, out@, p10 as int, k as nat);
            assert(a.combined_durations@.subrange(0, k as int).push(
                a.combined_durations@[k as int],
            ) =~= a.combined_durations@.subrange(0, k + 1));
            assert(out@.subrange(0, b10.len() as int) =~= b10);
        }
        k += 1;
    }
    proof {
        let b = out@;
        // prefix chain: every intermediate buffer is a prefix of the final one
        assert(b.subrange(0, b10.len() as int) == b10);
        assert(b10.subrange(0, b9.len() as int) =~= b9);
        lemma_prefix_trans(b9, b10, b);
        assert(b9.subrange(0, b8.len() as int) == b8);
        lemma_prefix_trans(b8, b9, b);
        assert(b8.subrange(0, b7.len() as int) =~= b7);
        lemma_prefix_trans(b7, b8, b);
        assert(b7.subrange(0, b6.len() as int) == b6);
        lemma_prefix_trans(b6, b7, b);
        assert(b6.subrange(0, b5.len() as int) =~= b5);
        lemma_prefix_trans(b5, b6, b);
        assert(b5.subrange(0, b4.len() as int) =~= b4);
        lemma_prefix_trans(b4, b5, b);
        assert(b4.subrange(0, b3.len() as int) =~= b3);
        lemma_prefix_trans(b3, b4, b);
        assert(b3.subrange(0, b2.len() as int) =~= b2);
        lemma_prefix_trans(b2, b3, b);
        assert(b2.subrange(0, b1.len() as int) =~= b1);
        lemma_prefix_trans(b1, b2, b);
        // lift every field parse into the final buffer
        lemma_dec_u64_stable(b1, b, p0 as int);
        lemma_dec_u64_stable(b2, b, b1.len() as int);
        lemma_dec_u64_stable(b3, b, b2.len() as int);
        lemma_dec_u64_stable(b4, b, b3.len() as int);
        lemma_dec_bool_stable(b5, b, b4.len() as int);
        lemma_dec_bool_stable(b6, b, b5.len() as int);
        lemma_dec_byte_seq_stable(b7, b, b6.len() as int);
        lemma_dec_u64_stable(b8, b, b7.len() as int);
        lemma_dec_durs_stable(b9, b, p8 as int, nd as nat);
        lemma_dec_u64_stable(b10, b, p9 as int);
        assert(a.durations@.subrange(0, nd as int) =~= a.durations@);
        assert(a.combined_durations@.subrange(0, ns as int) =~= a.combined_durations@);
        assert(b.subrange(0, p0 as int) =~= old(out)@);
        assert(dec_agg(b, p0 as int) == Some((a@, b.len() as int)));
    }
}

/// Encode an accumulator into the wire payload; the payload decodes
/// back to exactly the encoded accumulator.
pub fn encode_state(state: &RollupTransState) -> (out: Vec<u8>)
    ensures
        dec_state(out@) == Some(state@),
{
    let mut out: Vec<u8> = Vec::new();
    push_bool(&mut out, state.compressed);
    let ghost b1 = out@;
    push_u64(&mut out, state.values.len() as u64);
    let ghost b2 = out@;
    let ghost p2 = out@.len();
    let n = state.values.len();
    let mut i: usize = 0;
    while i < n
        invariant
            n == state.values@.len(),
            i <= n,
            out@.len() >= b2.len(),
            out@.subrange(0, b2.len() as int) == b2,
            p2 == b2.len(),
            dec_aggs(out@, p2 as int, i as nat) == Some(
                (
                    state.values@.subrange(0, i as int).map_values(
                        |a: OwnedCompressedStateAgg| a@,
                    ),
                    out@.len() as int,
                ),
            ),
        decreases n - i,
    {
        let ghost bpre = out@;
        push_agg(&mut out, &state.values[i]);
        proof {
            lemma_dec_aggs_snoc(bpre, out@, p2 as int, i as nat);
            assert(state.values@.subrange(0, i as int).map_values(
                |a: OwnedCompressedStateAgg| a@,
            ).push(state.values@[i as int]@) =~= state.values@.subrange(0, i + 1).map_values(
                |a: OwnedCompressedStateAgg| a@,
            ));
            assert(out@.subrange(0, b2.len() as int) =~= b2);
        }
        i += 1;
    }
    proof {
        let b = out@;
        assert(b.subrange(0, b2.len() as int) == b2);
        assert(b2.subrange(0, b1.len() as int) =~= b1);
        lemma_prefix_trans(b1, b2, b);
        lemma_dec_bool_stable(b1, b, 0);
        lemma_dec_u64_stable(b2, b, b1.len() as int);
        assert(state.values@.subrange(0, n as int) =~= state.values@);
        assert(dec_state(b) == Some(state@));
    }
    out
}

/// Reduce the accumulator and encode it for the spill boundary: the
/// transmitted payload always holds at most one merged aggregate.
pub fn compressed_state_agg_rollup_serialize(state: &mut RollupTransState) -> (r: Result<
    Vec<u8>,
    RollupError,
>)
    requires
        all_wf(old(state)@.values),
        sum_lens(old(state)@.values) <= u32::MAX,
        reduce_budget(old(state)@.values),
    ensures
        final(state)@.compressed == old(state)@.compressed,
        r matches Ok(bytes) ==> dec_state(bytes@) == Some(final(state)@)
            && final(state)@.values.len() <= 1 && all_wf(final(state)@.values),
        r is Ok && old(state)@.values.len() >= 1 ==> final(state)@.values.len() == 1,
        r matches Err(_) ==> final(state)@ == old(state)@,
        old(state)@.values.len() <= 1 ==> r is Ok && final(state)@ == old(state)@,
        rollup_ready(old(state)@.values) ==> r is Ok,
{
    match state.merge() {
        Ok(()) => {},
        Err(e) => {
            return Err(e);
        },
    }
    Ok(encode_state(state))
}

/// Decode a wire payload back into an accumulator.  A malformed payload
/// is reported as an error; no partial accumulator is ever returned.
#[verifier::loop_isolation(false)]
#[verifier::rlimit(100)]
pub fn compressed_state_agg_rollup_deserialize_inner(bytes: &Vec<u8>) -> (r: Result<
    RollupTransState,
    RollupError,
>)
    ensures
        r matches Ok(s) ==> dec_state(bytes@) == Some(s@),
        r is Err ==> dec_state(bytes@) is None,
{
    let blen = bytes.len();
    // flag byte
    if blen < 1 {
        return Err(RollupError::MalformedPayload);
    }
    let flag = bytes[0];
    if flag > 1 {
        return Err(RollupError::MalformedPayload);
    }
    let compressed = flag == 1;
    // count
    let (n, mut pos) = match read_u64(bytes, 1) {
        Some(v) => v,
        None => {
            return Err(RollupError::MalformedPayload);
        },
    };
    let mut values: Vec<OwnedCompressedStateAgg> = Vec::new();
    let mut done: u64 = 0;
    proof {
        assert(dec_bool(bytes@, 0) == Some((compressed, 1int)));
    }
    while done < n
        invariant
            blen == bytes@.len(),
            done <= n,
            pos <= blen,
            values@.len() == done,
            dec_aggs(bytes@, pos as int, (n - done) as nat) is Some ==> (dec_aggs(
                bytes@,
                9int,
                n as nat,
            ) is Some && dec_aggs(bytes@, 9int, n as nat).unwrap().0 == values@.map_values(
                |a: OwnedCompressedStateAgg| a@,
            ) + dec_aggs(bytes@, pos as int, (n - done) as nat).unwrap().0 && dec_aggs(
                bytes@,
                9int,
                n as nat,
            ).unwrap().1 == dec_aggs(bytes@, pos as int, (n - done) as nat).unwrap().1),
            dec_aggs(bytes@, pos as int, (n - done) as nat) is None ==> dec_aggs(
                bytes@,
                9int,
                n as nat,
            ) is None,
            dec_u64(bytes@, 1int) == Some((n, 9int)),
        decreases n - done,
    {
        let ghost rem = (n - done) as nat;
        let (agg, npos) = match read_agg(bytes, pos) {
            Some(v) => v,
            None => {
                return Err(RollupError::MalformedPayload);
            },
        };
        let ghost oldmap = values@.map_values(|a: OwnedCompressedStateAgg| a@);
        proof {
            if dec_aggs(bytes@, npos as int, (rem - 1) as nat) is Some {
                let (rest, e) = dec_aggs(bytes@, npos as int, (rem - 1) as nat).unwrap();
                assert(dec_aggs(bytes@, pos as int, rem) == Some((seq![agg@] + rest, e)));
            } else {
                assert(dec_aggs(bytes@, pos as int, rem) is None);
            }
        }
        values.push(agg);
        pos = npos;
        done = done + 1;
        proof {
            assert(values@.map_values(|a: OwnedCompressedStateAgg| a@) =~= oldmap.push(agg@));
            let rem2 = (n - done) as nat;
            if dec_aggs(bytes@, pos as int, rem2) is Some {
                let (rest, e) = dec_aggs(bytes@, pos as int, rem2).unwrap();
                assert(oldmap + (seq![agg@] + rest) =~= oldmap.push(agg@) + rest);
            }
        }
    }
    if pos != blen {
        proof {
            assert(dec_aggs(bytes@, pos as int, 0nat) == Some(
                (Seq::<AggView>::empty(), pos as int),
            ));
        }
        return Err(RollupError::MalformedPayload);
    }
    let s = RollupTransState { values, compressed };
    proof {
        assert(dec_aggs(bytes@, pos as int, 0nat) == Some((Seq::<AggView>::empty(), pos as int)));
        assert(values@.map_values(|a: OwnedCompressedStateAgg| a@) + Seq::<AggView>::empty()
            =~= values@.map_values(|a: OwnedCompressedStateAgg| a@));
        assert(dec_state(bytes@) == Some(s@));
    }
    Ok(s)
}

/// Decode, reporting success or failure to the host; the protocol entry
/// point around `compressed_state_agg_rollup_deserialize_inner`.
pub fn compressed_state_agg_rollup_deserialize(bytes: &Vec<u8>) -> (r: Option<RollupTransState>)
    ensures
        r matches Some(s) ==> dec_state(bytes@) == Some(s@),
        r is None ==> dec_state(bytes@) is None,
{
    match compressed_state_agg_rollup_deserialize_inner(bytes) {
        Ok(s) => Some(s),
        Err(_) => None,
    }
}

/// Read one machine word.
fn read_u64(bytes: &Vec<u8>, pos: usize) -> (r: Option<(u64, usize)>)
    ensures
        match r {
            Some((v, p)) => dec_u64(bytes@, pos as int) == Some((v, p as int)) && p <= bytes@.len(),
            None => dec_u64(bytes@, pos as int) is None,
        },
{
    let blen = bytes.len();
    if pos > blen || blen - pos < 8 {
        return None;
    }
    let v = (bytes[pos] as u64) | ((bytes[pos + 1] as u64) << 8) | ((bytes[pos + 2] as u64) << 16)
        | ((bytes[pos + 3] as u64) << 24) | ((bytes[pos + 4] as u64) << 32) | ((bytes[pos + 5]
        as u64) << 40) | ((bytes[pos + 6] as u64) << 48) | ((bytes[pos + 7] as u64) << 56);
    Some((v, pos + 8))
}

/// Read one time value.
fn read_i64(bytes: &Vec<u8>, pos: usize) -> (r: Option<(i64, usize)>)
    ensures
        match r {
            Some((v, p)) => dec_i64(bytes@, pos as int) == Some((v, p as int)) && p <= bytes@.len(),
            None => dec_i64(bytes@, pos as int) is None,
        },
{
    match read_u64(bytes, pos) {
        Some((u, p)) => {
            let x: i64 = (((u as i128) - 0x8000_0000_0000_0000i128) as i64);
            proof {
                assert(x == u64_as_i64(u));
            }
            Some((x, p))
        },
        None => None,
    }
}

/// Read one flag byte.
fn read_bool(bytes: &Vec<u8>, pos: usize) -> (r: Option<(bool, usize)>)
    ensures
        match r {
            Some((v, p)) => dec_bool(bytes@, pos as int) == Some((v, p as int)) && p
                <= bytes@.len(),
            None => dec_bool(bytes@, pos as int) is None,
        },
{
    let blen = bytes.len();
    if pos >= blen {
        return None;
    }
    let byte = bytes[pos];
    if byte == 1 {
        Some((true, pos + 1))
    } else if byte == 0 {
        Some((false, pos + 1))
    } else {
        None
    }
}

/// Read one size.
fn read_usize(bytes: &Vec<u8>, pos: usize) -> (r: Option<(usize, usize)>)
    ensures
        match r {
            Some((v, p)) => dec_usize(bytes@, pos as int) == Some((v, p as int)) && p
                <= bytes@.len(),
            None => dec_usize(bytes@, pos as int) is None,
        },
{
    match read_u64(bytes, pos) {
        Some((u, p)) => {
            if u <= usize::MAX as u64 {
                Some((u as usize, p))
            } else {
                None
            }
        },
        None => None,
    }
}

/// Read one record index.
fn read_u32(bytes: &Vec<u8>, pos: usize) -> (r: Option<(u32, usize)>)
    ensures
        match r {
            Some((v, p)) => dec_u32(bytes@, pos as int) == Some((v, p as int)) && p
                <= bytes@.len(),
            None => dec_u32(bytes@, pos as int) is None,
        },
{
    match read_u64(bytes, pos) {
        Some((u, p)) => {
            if u <= u32::MAX as u64 {
                Some((u as u32, p))
            } else {
                None
            }
        },
        None => None,
    }
}

/// Read one length-prefixed byte string.
fn read_byte_seq(bytes: &Vec<u8>, pos: usize) -> (r: Option<(Vec<u8>, usize)>)
    ensures
        match r {
            Some((v, p)) => dec_byte_seq(bytes@, pos as int) == Some((v@, p as int)) && p
                <= bytes@.len(),
            None => dec_byte_seq(bytes@, pos as int) is None,
        },
{
    let blen = bytes.len();
    let (n, p) = match read_u64(bytes, pos) {
        Some(v) => v,
        None => {
            return None;
        },
    };
    if n > (blen - p) as u64 {
        return None;
    }
    let n = n as usize;
    let mut v: Vec<u8> = Vec::new();
    let mut i: usize = 0;
    while i < n
        invariant
            blen == bytes@.len(),
            p + n <= blen,
            i <= n,
            v@ == bytes@.subrange(p as int, p + i),
        decreases n - i,
    {
        v.push(bytes[p + i]);
        proof {
            assert(v@ =~= bytes@.subrange(p as int, p + i + 1));
        }
        i += 1;
    }
    Some((v, p + n))
}

/// Read one duration record.
fn read_dur(bytes: &Vec<u8>, pos: usize) -> (r: Option<(DurationInState, usize)>)
    ensures
        match r {
            Some((v, p)) => dec_dur(bytes@, pos as int) == Some((v, p as int)) && p
                <= bytes@.len(),
            None => dec_dur(bytes@, pos as int) is None,
        },
{
    let (off, p1) = match read_usize(bytes, pos) {
        Some(v) => v,
        None => {
            return None;
        },
    };
    let (len, p2) = match read_usize(bytes, p1) {
        Some(v) => v,
        None => {
            return None;
        },
    };
    let (d, p3) = match read_i64(bytes, p2) {
        Some(v) => v,
        None => {
            return None;
        },
    };
    Some((DurationInState { state: StateRef { off, len }, duration: d }, p3))
}

/// Read one timeline segment.
fn read_seg(bytes: &Vec<u8>, pos: usize) -> (r: Option<(TimeInState, usize)>)
    ensures
        match r {
            Some((v, p)) => dec_seg(bytes@, pos as int) == Some((v, p as int)) && p
                <= bytes@.len(),
            None => dec_seg(bytes@, pos as int) is None,
        },
{
    let (off, p1) = match read_usize(bytes, pos) {
        Some(v) => v,
        None => {
            return None;
        },
    };
    let (len, p2) = match read_usize(bytes, p1) {
        Some(v) => v,
        None => {
            return None;
        },
    };
    let (st, p3) = match read_i64(bytes, p2) {
        Some(v) => v,
        None => {
            return None;
        },
    };
    let (en, p4) = match read_i64(bytes, p3) {
        Some(v) => v,
        None => {
            return None;
        },
    };
    Some((TimeInState { state: StateRef { off, len }, start_time: st, end_time: en }, p4))
}

/// Read one aggregate.
#[verifier::loop_isolation(false)]
#[verifier::rlimit(100)]
fn read_agg(bytes: &Vec<u8>, pos: usize) -> (r: Option<(OwnedCompressedStateAgg, usize)>)
    ensures
        match r {
            Some((v, p)) => dec_agg(bytes@, pos as int) == Some((v@, p as int)) && p
                <= bytes@.len(),
            None => dec_agg(bytes@, pos as int) is None,
        },
{
    let (first_time, p1) = match read_i64(bytes, pos) {
        Some(v) => v,
        None => {
            return None;
        },
    };
    let (last_time, p2) = match read_i64(bytes, p1) {
        Some(v) => v,
        None => {
            return None;
        },
    };
    let (first_state, p3) = match read_u32(bytes, p2) {
        Some(v) => v,
        None => {
            return None;
        },
    };
    let (last_state, p4) = match read_u32(bytes, p3) {
        Some(v) => v,
        None => {
            return None;
        },
    };
    let (compressed, p5) = match read_bool(bytes, p4) {
        Some(v) => v,
        None => {
            return None;
        },
    };
    let (integer_states, p6) = match read_bool(bytes, p5) {
        Some(v) => v,
        None => {
            return None;
        },
    };
    let (states, p7) = match read_byte_seq(bytes, p6) {
        Some(v) => v,
        None => {
            return None;
        },
    };
    let (nd, p8) = match read_u64(bytes, p7) {
        Some(v) => v,
        None => {
            return None;
        },
    };
    let mut durations: Vec<DurationInState> = Vec::new();
    let mut pd: usize = p8;
    let mut done: u64 = 0;
    while done < nd
        invariant
            pd <= bytes@.len(),
            done <= nd,
            durations@.len() == done,
            dec_durs(bytes@, pd as int, (nd - done) as nat) is Some ==> (dec_durs(
                bytes@,
                p8 as int,
                nd as nat,
            ) is Some && dec_durs(bytes@, p8 as int, nd as nat).unwrap().0 == durations@
                + dec_durs(bytes@, pd as int, (nd - done) as nat).unwrap().0 && dec_durs(
                bytes@,
                p8 as int,
                nd as nat,
            ).unwrap().1 == dec_durs(bytes@, pd as int, (nd - done) as nat).unwrap().1),
            dec_durs(bytes@, pd as int, (nd - done) as nat) is None ==> dec_durs(
                bytes@,
                p8 as int,
                nd as nat,
            ) is None,
        decreases nd - done,
    {
        let ghost rem = (nd - done) as nat;
        let (d, np) = match read_dur(bytes, pd) {
            Some(v) => v,
            None => {
                return None;
            },
        };
        proof {
            if dec_durs(bytes@, np as int, (rem - 1) as nat) is Some {
                assert(seq![d] + dec_durs(bytes@, np as int, (rem - 1) as nat).unwrap().0
                    =~= (durations@ + (seq![d] + dec_durs(
                    bytes@,
                    np as int,
                    (rem - 1) as nat,
                ).unwrap().0)).subrange(
                    durations@.len() as int,
                    (durations@ + (seq![d] + dec_durs(
                        bytes@,
                        np as int,
                        (rem - 1) as nat,
                    ).unwrap().0)).len() as int,
                ));
            }
        }
        durations.push(d);
        pd = np;
        done = done + 1;
        proof {
            assert(durations@ =~= durations@.subrange(0, durations@.len() - 1).push(
                durations@[durations@.len() - 1],
            ));
            assert forall|s0: Seq<DurationInState>, d0: DurationInState, rest: Seq<
                DurationInState,
            >| true implies #[trigger] (s0.push(d0) + rest) =~= s0 + (seq![d0] + rest) by {}
        }
    }
    let (ns, p9) = match read_u64(bytes, pd) {
        Some(v) => v,
        None => {
            return None;
        },
    };
    let mut segs: Vec<TimeInState> = Vec::new();
    let mut ps: usize = p9;
    let mut sdone: u64 = 0;
    while sdone < ns
        invariant
            ps <= bytes@.len(),
            sdone <= ns,
            segs@.len() == sdone,
            dec_segs(bytes@, ps as int, (ns - sdone) as nat) is Some ==> (dec_segs(
                bytes@,
                p9 as int,
                ns as nat,
            ) is Some && dec_segs(bytes@, p9 as int, ns as nat).unwrap().0 == segs@ + dec_segs(
                bytes@,
                ps as int,
                (ns - sdone) as nat,
            ).unwrap().0 && dec_segs(bytes@, p9 as int, ns as nat).unwrap().1 == dec_segs(
                bytes@,
                ps as int,
                (ns - sdone) as nat,
            ).unwrap().1),
            dec_segs(bytes@, ps as int, (ns - sdone) as nat) is None ==> dec_segs(
                bytes@,
                p9 as int,
                ns as nat,
            ) is None,
        decreases ns - sdone,
    {
        let ghost rem = (ns - sdone) as nat;
        let (s, np) = match read_seg(bytes, ps) {
            Some(v) => v,
            None => {
                return None;
            },
        };
        segs.push(s);
        ps = np;
        sdone = sdone + 1;
        proof {
            assert forall|s0: Seq<TimeInState>, d0: TimeInState, rest: Seq<TimeInState>|
                true implies #[trigger] (s0.push(d0) + rest) =~= s0 + (seq![d0] + rest) by {}
        }
    }
    let agg = OwnedCompressedStateAgg {
        durations,
        combined_durations: segs,
        first_time,
        last_time,
        first_state,
        last_state,
        states,
        compressed,
        integer_states,
    };
    proof {
        assert(dec_durs(bytes@, pd as int, 0nat) == Some(
            (Seq::<DurationInState>::empty(), pd as int),
        ));
        assert(agg.durations@ + Seq::<DurationInState>::empty() =~= agg.durations@);
        assert(dec_segs(bytes@, ps as int, 0nat) == Some((Seq::<TimeInState>::empty(), ps as int)));
        assert(agg.combined_durations@ + Seq::<TimeInState>::empty() =~= agg.combined_durations@);
        assert(agg@ =~= dec_agg(bytes@, pos as int).unwrap().0);
    }
    Some((agg, ps))
}

} // verus!
