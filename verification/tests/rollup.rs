use state_rollup::codec::{
    compressed_state_agg_rollup_deserialize, compressed_state_agg_rollup_deserialize_inner,
    compressed_state_agg_rollup_serialize, encode_state,
};
use state_rollup::label_dict::{entry, existing_entry, labels_equal, materialize, StateRef};
use state_rollup::laws::rollup_spill_law;
use state_rollup::rollup_state::{
    compressed_state_agg_rollup_combine_inner, compressed_state_agg_rollup_final_inner,
    compressed_state_agg_rollup_trans_inner, RollupTransState,
};
use state_rollup::state_agg::{DurationInState, OwnedCompressedStateAgg, TimeInState};
use state_rollup::RollupError;

fn agg(
    states: &str,
    durs: &[(usize, usize, i64)],
    segs: &[(usize, usize, i64, i64)],
    first_time: i64,
    last_time: i64,
    first_state: u32,
    last_state: u32,
    compressed: bool,
) -> OwnedCompressedStateAgg {
    OwnedCompressedStateAgg {
        durations: durs
            .iter()
            .map(|&(off, len, duration)| DurationInState { state: StateRef { off, len }, duration })
            .collect(),
        combined_durations: segs
            .iter()
            .map(|&(off, len, start_time, end_time)| TimeInState {
                state: StateRef { off, len },
                start_time,
                end_time,
            })
            .collect(),
        first_time,
        last_time,
        first_state,
        last_state,
        states: states.as_bytes().to_vec(),
        compressed,
        integer_states: false,
    }
}

fn label(a: &OwnedCompressedStateAgg, r: StateRef) -> String {
    String::from_utf8(materialize(&a.states, r)).unwrap()
}

fn dur_of(a: &OwnedCompressedStateAgg, name: &str) -> Option<i64> {
    a.durations
        .iter()
        .find(|d| label(a, d.state) == name)
        .map(|d| d.duration)
}

// aggregate A covers [0,10) with {"on": 8}; B covers [10,20) with
// {"on": 5, "off": 5}; the ranges touch exactly, so there is no gap
fn scenario_a() -> OwnedCompressedStateAgg {
    agg("on", &[(0, 2, 8)], &[(0, 2, 0, 10)], 0, 10, 0, 0, false)
}

fn scenario_b() -> OwnedCompressedStateAgg {
    agg(
        "onoff",
        &[(0, 2, 5), (2, 3, 5)],
        &[(0, 2, 10, 15), (2, 3, 15, 20)],
        10,
        20,
        0,
        1,
        false,
    )
}

#[test]
fn merge_touching_ranges() {
    let a = scenario_a();
    let b = scenario_b();
    let c = a.merge(b).unwrap();
    assert_eq!(c.first_time, 0);
    assert_eq!(c.last_time, 20);
    assert_eq!(dur_of(&c, "on"), Some(13));
    assert_eq!(dur_of(&c, "off"), Some(5));
    assert_eq!(c.durations.len(), 2);
    assert_eq!(label(&c, c.durations[c.first_state as usize].state), "on");
    assert_eq!(label(&c, c.durations[c.last_state as usize].state), "off");
    // the boundary segments share the label "on", so they coalesce
    assert_eq!(c.combined_durations.len(), 2);
    assert_eq!(c.combined_durations[0].start_time, 0);
    assert_eq!(c.combined_durations[0].end_time, 15);
    assert_eq!(c.combined_durations[1].start_time, 15);
    assert_eq!(c.combined_durations[1].end_time, 20);
}

#[test]
fn merge_gap_attributed_to_last_state() {
    // A covers [0,10) ending in "on"; B covers [15,20) starting in
    // "off"; the 5-unit gap [10,15) goes to "on"
    let a = scenario_a();
    let b = agg("off", &[(0, 3, 5)], &[(0, 3, 15, 20)], 15, 20, 0, 0, false);
    let c = a.merge(b).unwrap();
    assert_eq!(c.first_time, 0);
    assert_eq!(c.last_time, 20);
    assert_eq!(dur_of(&c, "on"), Some(13));
    assert_eq!(dur_of(&c, "off"), Some(5));
    // the timeline stays contiguous: the gap is covered by extending
    // the earlier aggregate's last segment
    assert_eq!(c.combined_durations[0].start_time, 0);
    assert_eq!(c.combined_durations[0].end_time, 15);
    assert_eq!(c.combined_durations[1].start_time, 15);
    assert_eq!(c.combined_durations[1].end_time, 20);
}

#[test]
fn merge_order_does_not_matter_for_operands() {
    let c = scenario_b().merge(scenario_a()).unwrap();
    assert_eq!(c.first_time, 0);
    assert_eq!(c.last_time, 20);
    assert_eq!(dur_of(&c, "on"), Some(13));
    assert_eq!(dur_of(&c, "off"), Some(5));
}

#[test]
fn merge_last_state_survives_rekeying() {
    // the merged last-state reference must materialize to the same
    // label as the later aggregate's own last-state reference
    let a = scenario_a();
    let b = scenario_b();
    let later_last = label(&b, b.durations[b.last_state as usize].state);
    let c = a.merge(b).unwrap();
    assert_eq!(label(&c, c.durations[c.last_state as usize].state), later_last);
}

#[test]
fn merge_range_full_overlap() {
    let mut outer = agg("", &[], &[], 0, 0, 0, 0, false);
    outer.first_time = 10;
    outer.last_time = 50;
    let mut inner = agg("", &[], &[], 0, 0, 0, 0, false);
    inner.first_time = 20;
    inner.last_time = 30;
    assert_eq!(inner.merge(outer).unwrap_err(), RollupError::OverlappingRanges);
}

#[test]
fn merge_range_partial_overlap() {
    let mut r1 = agg("", &[], &[], 0, 0, 0, 0, false);
    r1.first_time = 10;
    r1.last_time = 50;
    let mut r2 = agg("", &[], &[], 0, 0, 0, 0, false);
    r2.first_time = 20;
    r2.last_time = 50;
    assert_eq!(r2.merge(r1).unwrap_err(), RollupError::OverlappingRanges);
}

#[test]
fn merge_rejects_same_start_time() {
    let a = scenario_a();
    let mut b = scenario_a();
    b.last_time = 30;
    assert_eq!(a.merge(b).unwrap_err(), RollupError::SameStartTime);
}

#[test]
fn merge_rejects_mismatched_compression() {
    let a = scenario_a();
    let mut b = agg("off", &[(0, 3, 5)], &[], 15, 20, 0, 0, true);
    b.compressed = true;
    assert_eq!(a.merge(b).unwrap_err(), RollupError::MismatchedCompression);
}

#[test]
fn merge_rejects_mismatched_state_types() {
    let a = scenario_a();
    let mut b = agg("off", &[(0, 3, 5)], &[(0, 3, 15, 20)], 15, 20, 0, 0, false);
    b.integer_states = true;
    assert_eq!(a.merge(b).unwrap_err(), RollupError::MismatchedStateTypes);
}

#[test]
fn merge_rejects_empty_operand() {
    let a = scenario_a();
    let b = agg("", &[], &[], 15, 20, 0, 0, false);
    assert_eq!(a.merge(b).unwrap_err(), RollupError::EmptyAggregate);
}

#[test]
fn merge_associates_on_three_aggregates() {
    let a = scenario_a();
    let b = scenario_b();
    let c = agg("idle", &[(0, 4, 7)], &[(0, 4, 25, 32)], 25, 32, 0, 0, false);
    let left = a.duplicate().merge(b.duplicate()).unwrap().merge(c.duplicate()).unwrap();
    let right = a.merge(b.merge(c).unwrap()).unwrap();
    assert_eq!(left.first_time, right.first_time);
    assert_eq!(left.last_time, right.last_time);
    for name in ["on", "off", "idle"] {
        assert_eq!(dur_of(&left, name), dur_of(&right, name));
    }
}

#[test]
fn dictionary_entry_and_lookup() {
    let mut dict: Vec<u8> = Vec::new();
    let on = entry(&mut dict, &b"on".to_vec());
    let off = entry(&mut dict, &b"off".to_vec());
    assert_eq!(materialize(&dict, on), b"on".to_vec());
    assert_eq!(materialize(&dict, off), b"off".to_vec());
    let found = existing_entry(&dict, &b"off".to_vec());
    assert_eq!(materialize(&dict, found), b"off".to_vec());
    assert!(labels_equal(&dict, off, &dict, found));
    assert!(!labels_equal(&dict, on, &dict, off));
}

#[test]
fn accumulate_and_finalize() {
    let s = compressed_state_agg_rollup_trans_inner(None, None);
    assert!(s.is_none());
    let s = compressed_state_agg_rollup_trans_inner(None, Some(scenario_a()));
    let s = compressed_state_agg_rollup_trans_inner(s, None);
    let s = compressed_state_agg_rollup_trans_inner(s, Some(scenario_b()));
    let out = compressed_state_agg_rollup_final_inner(s).unwrap().unwrap();
    assert_eq!(out.first_time, 0);
    assert_eq!(out.last_time, 20);
    assert_eq!(dur_of(&out, "on"), Some(13));
    assert_eq!(dur_of(&out, "off"), Some(5));
}

#[test]
fn finalize_absent_and_empty() {
    assert_eq!(
        compressed_state_agg_rollup_final_inner(None).map(|o| o.is_none()),
        Ok(true)
    );
    let empty = RollupTransState { values: Vec::new(), compressed: false };
    assert_eq!(
        compressed_state_agg_rollup_final_inner(Some(empty)).map(|o| o.is_none()),
        Ok(true)
    );
}

#[test]
fn combine_concatenates() {
    let x = compressed_state_agg_rollup_trans_inner(None, Some(scenario_a()));
    let y = compressed_state_agg_rollup_trans_inner(None, Some(scenario_b()));
    let both = compressed_state_agg_rollup_combine_inner(x, y).unwrap().unwrap();
    assert_eq!(both.values.len(), 2);
    let out = compressed_state_agg_rollup_final_inner(Some(both)).unwrap().unwrap();
    assert_eq!(dur_of(&out, "on"), Some(13));
    let z = compressed_state_agg_rollup_combine_inner(None, None).unwrap();
    assert!(z.is_none());
}

#[test]
fn combine_rejects_mismatched_flavors() {
    let x = RollupTransState { values: Vec::new(), compressed: false };
    let y = RollupTransState { values: Vec::new(), compressed: true };
    assert!(matches!(
        compressed_state_agg_rollup_combine_inner(Some(x), Some(y)),
        Err(RollupError::MismatchedCompression)
    ));
}

#[test]
fn serialize_roundtrip_preserves_finalize() {
    let s = compressed_state_agg_rollup_trans_inner(None, Some(scenario_a()));
    let s = compressed_state_agg_rollup_trans_inner(s, Some(scenario_b())).unwrap();
    let (direct, via_wire) = rollup_spill_law(s).unwrap();
    let direct = direct.unwrap();
    let via_wire = via_wire.unwrap();
    assert_eq!(direct.first_time, via_wire.first_time);
    assert_eq!(direct.last_time, via_wire.last_time);
    assert_eq!(direct.states, via_wire.states);
    assert_eq!(direct.durations, via_wire.durations);
    assert_eq!(direct.combined_durations, via_wire.combined_durations);
    assert_eq!(dur_of(&via_wire, "on"), Some(13));
    assert_eq!(dur_of(&via_wire, "off"), Some(5));
}

#[test]
fn serialize_then_deserialize_yields_reduced_state() {
    let s = compressed_state_agg_rollup_trans_inner(None, Some(scenario_a()));
    let mut s = compressed_state_agg_rollup_trans_inner(s, Some(scenario_b())).unwrap();
    let bytes = compressed_state_agg_rollup_serialize(&mut s).unwrap();
    let back = compressed_state_agg_rollup_deserialize_inner(&bytes).unwrap();
    assert_eq!(back.values.len(), 1);
    assert_eq!(back.values[0].first_time, 0);
    assert_eq!(back.values[0].last_time, 20);
    assert_eq!(dur_of(&back.values[0], "on"), Some(13));
}

#[test]
fn encode_decode_identity_without_reduce() {
    let state = RollupTransState {
        values: vec![scenario_a(), scenario_b()],
        compressed: false,
    };
    let bytes = encode_state(&state);
    let back = compressed_state_agg_rollup_deserialize_inner(&bytes).unwrap();
    assert_eq!(back.compressed, false);
    assert_eq!(back.values.len(), 2);
    assert_eq!(back.values[0].first_time, 0);
    assert_eq!(back.values[0].states, b"on".to_vec());
    assert_eq!(back.values[1].durations.len(), 2);
    assert_eq!(back.values[1].durations[1].duration, 5);
}

#[test]
fn deserialize_rejects_malformed_payloads() {
    assert!(compressed_state_agg_rollup_deserialize_inner(&Vec::new()).is_err());
    assert!(compressed_state_agg_rollup_deserialize_inner(&vec![7u8]).is_err());
    assert!(compressed_state_agg_rollup_deserialize_inner(&vec![0u8, 1, 2, 3]).is_err());
    // a valid payload with trailing garbage is refused
    let state = RollupTransState { values: Vec::new(), compressed: false };
    let mut bytes = encode_state(&state);
    assert!(compressed_state_agg_rollup_deserialize(&bytes).is_some());
    bytes.push(0);
    assert!(compressed_state_agg_rollup_deserialize(&bytes).is_none());
}

#[test]
fn duration_conservation_with_gap() {
    let a = scenario_a();
    let b = agg("off", &[(0, 3, 5)], &[(0, 3, 15, 20)], 15, 20, 0, 0, false);
    let sum_a: i64 = a.durations.iter().map(|d| d.duration).sum();
    let sum_b: i64 = b.durations.iter().map(|d| d.duration).sum();
    let gap = b.first_time - a.last_time;
    let c = a.merge(b).unwrap();
    let sum_c: i64 = c.durations.iter().map(|d| d.duration).sum();
    assert_eq!(sum_c, sum_a + sum_b + gap);
}

#[test]
fn timeline_tiles_union_range() {
    let a = scenario_a();
    let b = agg("off", &[(0, 3, 5)], &[(0, 3, 15, 20)], 15, 20, 0, 0, false);
    let c = a.merge(b).unwrap();
    assert!(!c.combined_durations.is_empty());
    assert_eq!(c.combined_durations[0].start_time, c.first_time);
    assert_eq!(c.combined_durations.last().unwrap().end_time, c.last_time);
    for w in c.combined_durations.windows(2) {
        assert_eq!(w[0].end_time, w[1].start_time);
    }
    for seg in &c.combined_durations {
        assert!(seg.start_time <= seg.end_time);
    }
}

#[test]
fn ordered_pending_list_reduces_with_gap_attribution() {
    // three time-ordered aggregates with gaps: [0,10) ending "on",
    // [15,20) all "off", [26,30) all "on"; the first gap goes to "on",
    // the second to "off"
    let a = scenario_a();
    let b = agg("off", &[(0, 3, 5)], &[(0, 3, 15, 20)], 15, 20, 0, 0, false);
    let c = agg("on", &[(0, 2, 4)], &[(0, 2, 26, 30)], 26, 30, 0, 0, false);
    let s = compressed_state_agg_rollup_trans_inner(None, Some(a));
    let s = compressed_state_agg_rollup_trans_inner(s, Some(b));
    let s = compressed_state_agg_rollup_trans_inner(s, Some(c));
    let out = compressed_state_agg_rollup_final_inner(s).unwrap().unwrap();
    assert_eq!(out.first_time, 0);
    assert_eq!(out.last_time, 30);
    assert_eq!(dur_of(&out, "on"), Some(8 + 5 + 4));
    assert_eq!(dur_of(&out, "off"), Some(5 + 6));
    assert_eq!(label(&out, out.durations[out.first_state as usize].state), "on");
    assert_eq!(label(&out, out.durations[out.last_state as usize].state), "on");
}
