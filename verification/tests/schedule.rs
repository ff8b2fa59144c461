use flock_mhot::schedule::{MhotHashSchedule, Wire, WireEndpoint};

#[test]
fn schedule_atom_count_no_pad() {
    let sched = MhotHashSchedule::from_fanouts(&[28, 24, 22, 16, 8]);
    let expect: usize = [28, 24, 22, 16, 8]
        .iter()
        .map(|&f| if f <= 1 { 0 } else { (f - 1 + 2) / 3 })
        .sum();
    assert_eq!(
        sched.hash_atoms.len(),
        expect,
        "atom count must equal actual 4-ary demand, no padding to max fanout"
    );
}

#[test]
fn schedule_atom_count_small() {
    let sched = MhotHashSchedule::from_fanouts(&[4, 2]);
    assert_eq!(sched.hash_atoms.len(), 2);
}

#[test]
fn schedule_fanout_1_no_atoms() {
    let sched = MhotHashSchedule::from_fanouts(&[4, 1, 8]);
    assert_eq!(sched.hash_atoms.len(), 4);
}

#[test]
fn schedule_wires_exist() {
    let sched = MhotHashSchedule::from_fanouts(&[8, 4]);
    assert!(!sched.wires.is_empty(), "schedule must produce wires");
    let root_wires: Vec<_> = sched
        .wires
        .iter()
        .filter(|w| matches!(w.dst, WireEndpoint::PublicRoot))
        .collect();
    assert_eq!(root_wires.len(), 1, "exactly one wire to PublicRoot");
}

#[test]
fn schedule_atom_n_children_valid() {
    let sched = MhotHashSchedule::from_fanouts(&[28, 24, 22, 16, 8]);
    for atom in &sched.hash_atoms {
        assert!(
            atom.n_children >= 1 && atom.n_children <= 4,
            "atom {} has invalid n_children={}",
            atom.atom_id,
            atom.n_children
        );
    }
}

#[test]
fn schedule_atom_input_has_single_source_kind() {
    let sched = MhotHashSchedule::from_fanouts(&[8, 4, 2]);
    for leaf_wire in &sched.wires {
        let Wire {
            src: WireEndpoint::LeafDigest { .. },
            dst:
                WireEndpoint::AtomInput {
                    atom_id,
                    child_slot,
                },
        } = leaf_wire
        else {
            continue;
        };

        for atom_wire in &sched.wires {
            assert!(
                !matches!(
                    atom_wire,
                    Wire {
                        src: WireEndpoint::AtomOutput { .. },
                        dst: WireEndpoint::AtomInput {
                            atom_id: other_atom_id,
                            child_slot: other_child_slot,
                        },
                    } if other_atom_id == atom_id && other_child_slot == child_slot
                ),
                "atom input ({atom_id}, {child_slot}) cannot be both external leaf and internal root"
            );
        }
    }
}

#[test]
fn every_used_slot_takes_one_wire() {
    for fanouts in [vec![8, 4, 2], vec![28, 24, 22, 16, 8], vec![4, 1, 8], vec![2], vec![5, 1]] {
        let sched = MhotHashSchedule::from_fanouts(&fanouts);
        for atom in &sched.hash_atoms {
            assert!(2 <= atom.n_children && atom.n_children <= 4);
            for slot in 0..4 {
                let wires = sched
                    .wires
                    .iter()
                    .filter(|w| {
                        matches!(
                            w.dst,
                            WireEndpoint::AtomInput { atom_id, child_slot }
                                if atom_id == atom.atom_id && child_slot == slot
                        )
                    })
                    .count();
                assert_eq!(wires, if slot < atom.n_children { 1 } else { 0 });
            }
        }
    }
}
