use flock_mhot::ref_witness::{build_ref_witness, cpu_fold_root};
use flock_mhot::schedule::{MhotHashSchedule, WireEndpoint};

#[test]
fn ref_root_matches_cpu_keccak() {
    let sched = MhotHashSchedule::from_fanouts(&[8, 4, 2]);
    let witness = build_ref_witness(&sched, 42);
    let cpu_root = cpu_fold_root(&sched, &witness.atom_states);
    assert_eq!(
        cpu_root, witness.expected_root,
        "schedule+witness semantics must be self-consistent"
    );
}

#[test]
fn different_seeds_different_roots() {
    let sched = MhotHashSchedule::from_fanouts(&[4, 2]);
    let w1 = build_ref_witness(&sched, 1);
    let w2 = build_ref_witness(&sched, 2);
    assert_ne!(
        w1.expected_root, w2.expected_root,
        "different seeds must produce different roots"
    );
}

#[test]
fn single_node_fold() {
    let sched = MhotHashSchedule::from_fanouts(&[4]);
    let w = build_ref_witness(&sched, 7);
    assert_eq!(sched.hash_atoms.len(), 1);
    let cpu_root = cpu_fold_root(&sched, &w.atom_states);
    assert_eq!(cpu_root, w.expected_root);
}

#[test]
fn realistic_fanouts() {
    let sched = MhotHashSchedule::from_fanouts(&[28, 24, 22, 16, 8]);
    let w = build_ref_witness(&sched, 99);
    let cpu_root = cpu_fold_root(&sched, &w.atom_states);
    assert_eq!(cpu_root, w.expected_root);
}

#[test]
fn driven_slots_do_not_matter_to_the_fold() {
    for fanouts in [vec![8, 4, 2], vec![28, 24, 22, 16, 8], vec![4, 1, 8], vec![1, 7]] {
        let sched = MhotHashSchedule::from_fanouts(&fanouts);
        let w = build_ref_witness(&sched, 21);
        let mut states = w.atom_states.clone();
        let mut overwritten = 0;
        for wire in &sched.wires {
            if let WireEndpoint::AtomInput { atom_id, child_slot } = wire.dst {
                if matches!(wire.src, WireEndpoint::AtomOutput { .. }) {
                    states[atom_id][32 * child_slot..32 * child_slot + 32].fill(0xA5);
                    overwritten += 1;
                }
            }
        }
        assert!(overwritten > 0);
        assert_eq!(cpu_fold_root(&sched, &states), w.expected_root);
    }
}

#[test]
fn slots_from_outside_matter_to_the_fold() {
    let sched = MhotHashSchedule::from_fanouts(&[8, 4, 2]);
    let w = build_ref_witness(&sched, 21);
    let mut states = w.atom_states.clone();
    states[0][32] ^= 1;
    assert_ne!(cpu_fold_root(&sched, &states), w.expected_root);
}
