use flock_mhot::ref_witness::{build_ref_witness, leaf_digest, Digest};
use flock_mhot::schedule::MhotHashSchedule;
use flock_mhot::wide_glue::{check_wiring_cpu, compute_atom_outputs};

#[test]
fn glue_accepts_valid() {
    let sched = MhotHashSchedule::from_fanouts(&[8, 4, 2]);
    let witness = build_ref_witness(&sched, 42);
    let outputs = compute_atom_outputs(&witness.atom_states);
    let leaf_digests = make_leaf_digests(&sched, 42);
    assert!(
        check_wiring_cpu(
            &sched,
            &outputs,
            &witness.atom_states,
            &leaf_digests,
            &witness.expected_root
        )
        .is_ok(),
        "valid wiring must pass"
    );
}

#[test]
fn glue_rejects_tampered_wire() {
    let sched = MhotHashSchedule::from_fanouts(&[8, 4, 2]);
    let witness = build_ref_witness(&sched, 42);
    let mut outputs = compute_atom_outputs(&witness.atom_states);
    outputs[1][3] ^= 0x01;
    let leaf_digests = make_leaf_digests(&sched, 42);
    assert!(
        check_wiring_cpu(
            &sched,
            &outputs,
            &witness.atom_states,
            &leaf_digests,
            &witness.expected_root
        )
        .is_err(),
        "tampered wire must be caught"
    );
}

#[test]
fn glue_rejects_tampered_root() {
    let sched = MhotHashSchedule::from_fanouts(&[8, 4, 2]);
    let witness = build_ref_witness(&sched, 42);
    let outputs = compute_atom_outputs(&witness.atom_states);
    let leaf_digests = make_leaf_digests(&sched, 42);
    let mut bad_root = witness.expected_root;
    bad_root[0] ^= 0x01;
    assert!(
        check_wiring_cpu(
            &sched,
            &outputs,
            &witness.atom_states,
            &leaf_digests,
            &bad_root
        )
        .is_err(),
        "tampered root must be caught"
    );
}

/// Recreate the leaf digests used by build_ref_witness.
fn make_leaf_digests(sched: &MhotHashSchedule, seed: u64) -> Vec<Digest> {
    let total_leaves: usize = sched.fanouts.iter().sum();
    (0..total_leaves)
        .map(|i| leaf_digest(seed, i))
        .collect()
}
