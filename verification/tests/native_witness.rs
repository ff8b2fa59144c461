use flock_mhot::native_witness::{
    cpu_merkle_root, mhot_node_to_sha256_merkle, mhot_nodes_to_sha256_merkle, MhotNodeWitness,
};
use flock_mhot::sha256::{sha256_compress, SHA256_IV};
use flock_mhot::sound_multiproof::bytes_to_words;

fn make_random_children(n: usize, seed: u64) -> Vec<[u8; 32]> {
    let mut s = seed;
    (0..n)
        .map(|_| {
            let mut h = [0u8; 32];
            for b in h.iter_mut() {
                s ^= s << 13;
                s ^= s >> 7;
                s ^= s << 17;
                *b = s as u8;
            }
            h
        })
        .collect()
}

#[test]
fn single_node_fanout8_witness() {
    let children = make_random_children(8, 0xDEADBEEF);
    let node = MhotNodeWitness {
        children: children.clone(),
        selected_child: 3,
    };
    let w = mhot_node_to_sha256_merkle(&node, false);

    assert_eq!(w.compressions.len(), 3, "fanout 8 → depth 3");
    assert_eq!(w.b_bits.len(), 3);
    assert_eq!(w.leaf, bytes_to_words(&children[3]));
    assert!(!w.b_bits[0], "b_bits[0] must be false (Flock convention)");

    // Verify the chain: replaying compressions must produce root.
    let mut current = w.leaf;
    for (i, comp) in w.compressions.iter().enumerate() {
        let (iv, m) = comp;
        assert_eq!(*iv, SHA256_IV);
        if !w.b_bits[i] {
            assert_eq!(&m[..8], &current[..], "left child must be current hash");
        } else {
            assert_eq!(&m[8..], &current[..], "right child must be current hash");
        }
        current = sha256_compress(iv, m);
    }
    assert_eq!(current, w.root, "chain must lead to Flock root");
}

#[test]
fn witness_bbits0_always_false() {
    for sel in 0..8 {
        let children = make_random_children(8, 0xF000 + sel as u64);
        let node = MhotNodeWitness {
            children,
            selected_child: sel,
        };
        let w = mhot_node_to_sha256_merkle(&node, false);
        assert!(!w.b_bits[0], "b_bits[0] must be false for selected_child={sel}");
    }
}

#[test]
fn native_root_matches_when_leaf_is_left_child() {
    let children = make_random_children(4, 0xAAAA);
    let node = MhotNodeWitness {
        children,
        selected_child: 0,
    };
    let w = mhot_node_to_sha256_merkle(&node, false);
    assert_eq!(
        w.root, w.native_root,
        "when leaf is a left child, Flock root == native root"
    );
}

#[test]
fn native_order_root_equals_native_root() {
    for fanout in [2usize, 4, 5, 8] {
        for sel in 0..fanout {
            let children = make_random_children(fanout, 0x4E00 + (fanout * 100 + sel) as u64);
            let node = MhotNodeWitness {
                children,
                selected_child: sel,
            };
            let w = mhot_node_to_sha256_merkle(&node, true);
            assert_eq!(
                w.root, w.native_root,
                "native_order root must equal native_root (fanout={fanout} sel={sel})"
            );
            assert_eq!(
                w.b_bits[0],
                sel & 1 == 1,
                "b_bits[0] must be the real depth-0 side (fanout={fanout} sel={sel})"
            );
            // Replaying the chain with the real side bits must land on native_root.
            let mut current = w.leaf;
            for (i, (iv, m)) in w.compressions.iter().enumerate() {
                if !w.b_bits[i] {
                    assert_eq!(&m[..8], &current[..], "left placement at depth {i}");
                } else {
                    assert_eq!(&m[8..], &current[..], "right placement at depth {i}");
                }
                current = sha256_compress(iv, m);
            }
            assert_eq!(current, w.native_root, "chain must lead to native_root");
        }
    }
}

#[test]
fn multi_node_witnesses_independent() {
    let nodes: Vec<MhotNodeWitness> = vec![
        MhotNodeWitness {
            children: make_random_children(8, 111),
            selected_child: 2,
        },
        MhotNodeWitness {
            children: make_random_children(4, 222),
            selected_child: 1,
        },
        MhotNodeWitness {
            children: make_random_children(2, 333),
            selected_child: 0,
        },
    ];
    let witnesses = mhot_nodes_to_sha256_merkle(&nodes);
    assert_eq!(witnesses.len(), 3);
    assert_eq!(witnesses[0].compressions.len(), 3);
    assert_eq!(witnesses[1].compressions.len(), 2);
    assert_eq!(witnesses[2].compressions.len(), 1);
    for w in &witnesses {
        assert!(!w.b_bits[0], "b_bits[0] must be false for each node");
    }
}

#[test]
fn roots_are_of_padded_halves() {
    for n in 1..=9usize {
        let children: Vec<[u8; 32]> = (0..n).map(|i| [i as u8 + 1; 32]).collect();
        let mut padded = children.clone();
        padded.resize(n.next_power_of_two(), [0; 32]);
        let root = cpu_merkle_root(&children);
        assert_eq!(root, cpu_merkle_root(&padded));
        if n == 1 {
            assert_eq!(root, [0x0101_0101; 8]);
        } else {
            let (l, r) = padded.split_at(padded.len() / 2);
            let mut block = [0u32; 16];
            block[..8].copy_from_slice(&cpu_merkle_root(l));
            block[8..].copy_from_slice(&cpu_merkle_root(r));
            assert_eq!(root, sha256_compress(&SHA256_IV, &block));
        }
    }
}
