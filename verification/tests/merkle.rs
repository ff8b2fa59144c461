use flock_mhot::merkle::{
    hash_leaf, hash_pair, merkle_multi_proof, merkle_proof, merkle_root, merkle_tree,
    merkle_tree_sequential, verify_merkle_multi_proof, verify_merkle_proof,
};
use flock_mhot::sha256x4::hash4;
use sha2::{Digest, Sha256};

#[test]
fn two_leaves_matches_hand_computation() {
    // Two 8-byte leaves: [0,1,2,3,4,5,6,7] and [8,9,10,11,12,13,14,15].
    let data: Vec<u8> = (0..16).collect();
    let tree = merkle_tree(&data, 2);
    assert_eq!(tree.len(), 3); // 2 leaves + 1 root

    let h0 = hash_leaf(&data[0..8]);
    let h1 = hash_leaf(&data[8..16]);
    let root = hash_pair(&h0, &h1);

    assert_eq!(tree[0], h0);
    assert_eq!(tree[1], h1);
    assert_eq!(tree[2], root);
}

#[test]
fn one_leaf_root_is_the_leaf_hash() {
    let data: Vec<u8> = (0..32).collect();
    let root = merkle_root(&data, 1);
    assert_eq!(root, hash_leaf(&data));
}

#[test]
fn parallel_matches_sequential() {
    // Use a non-trivial size: 1024 leaves × 64 B = 64 KB.
    let n_leaves = 1024;
    let leaf_size = 64;
    let mut data = vec![0u8; n_leaves * leaf_size];
    // Fill with a deterministic pattern.
    for (i, b) in data.iter_mut().enumerate() {
        *b = ((i.wrapping_mul(0x9E3779B9)) & 0xff) as u8;
    }
    let par = merkle_tree(&data, n_leaves);
    let seq = merkle_tree_sequential(&data, n_leaves);
    assert_eq!(par, seq);
}

/// Leaf sizes chosen to hit every SHA-256 tail shape in the 4-way
/// interleaved path: rem = 0 (block-aligned), rem < 56 (one tail block),
/// and rem ≥ 56 (two tail blocks). Also a non-multiple-of-4 leaf count
/// for the remainder fallback.
#[test]
fn parallel_matches_sequential_tail_shapes() {
    for (n_leaves, leaf_size) in [(64, 1024), (64, 100), (64, 60), (64, 56), (2, 48), (16, 1)] {
        let mut data = vec![0u8; n_leaves * leaf_size];
        for (i, b) in data.iter_mut().enumerate() {
            *b = ((i.wrapping_mul(0x6C8E944D)) & 0xff) as u8;
        }
        let par = merkle_tree(&data, n_leaves);
        let seq = merkle_tree_sequential(&data, n_leaves);
        assert_eq!(par, seq, "n_leaves={n_leaves} leaf_size={leaf_size}");
    }
}

#[test]
fn root_changes_when_any_leaf_changes() {
    let n_leaves = 64;
    let leaf_size = 32;
    let mut data = vec![0u8; n_leaves * leaf_size];
    for (i, b) in data.iter_mut().enumerate() {
        *b = (i as u8).wrapping_mul(31);
    }
    let r0 = merkle_root(&data, n_leaves);
    // Flip one bit deep in the buffer.
    data[n_leaves * leaf_size - 1] ^= 0x01;
    let r1 = merkle_root(&data, n_leaves);
    assert_ne!(r0, r1, "single-bit change should change the root");
}

#[test]
fn power_of_two_assertion() {
    let data = vec![0u8; 64];
    // Should not panic for power-of-two leaf counts.
    let _ = merkle_root(&data, 1);
    let _ = merkle_root(&data, 2);
    let _ = merkle_root(&data, 4);
    let _ = merkle_root(&data, 8);
}

#[test]
fn merkle_proof_roundtrips_at_every_leaf() {
    let n_leaves = 16;
    let leaf_size = 8;
    let mut data = vec![0u8; n_leaves * leaf_size];
    for (i, b) in data.iter_mut().enumerate() {
        *b = ((i.wrapping_mul(0x9E3779B9)) & 0xff) as u8;
    }
    let tree = merkle_tree(&data, n_leaves);
    let root = *tree.last().unwrap();

    for i in 0..n_leaves {
        let leaf_hash = hash_leaf(&data[i * leaf_size..(i + 1) * leaf_size]);
        let proof = merkle_proof(&tree, n_leaves, i);
        assert_eq!(proof.len(), 4); // log2(16) = 4
        assert!(
            verify_merkle_proof(&root, &leaf_hash, i, &proof),
            "verify failed at i={i}"
        );
    }
}

#[test]
fn merkle_proof_rejects_wrong_index() {
    let n_leaves = 8;
    let leaf_size = 16;
    let data: Vec<u8> = (0..(n_leaves * leaf_size) as u8).collect();
    let tree = merkle_tree(&data, n_leaves);
    let root = *tree.last().unwrap();

    let leaf_hash = hash_leaf(&data[0..leaf_size]);
    let proof = merkle_proof(&tree, n_leaves, 0);

    // Same proof, but claim it's for index 1 → should fail (different sibling structure).
    assert!(!verify_merkle_proof(&root, &leaf_hash, 1, &proof));
}

#[test]
fn merkle_proof_rejects_tampered_path() {
    let n_leaves = 8;
    let leaf_size = 16;
    let data: Vec<u8> = (0..(n_leaves * leaf_size) as u8).collect();
    let tree = merkle_tree(&data, n_leaves);
    let root = *tree.last().unwrap();

    let leaf_hash = hash_leaf(&data[0..leaf_size]);
    let mut proof = merkle_proof(&tree, n_leaves, 0);
    // Flip a byte in the first sibling.
    proof[0][0] ^= 1;
    assert!(!verify_merkle_proof(&root, &leaf_hash, 0, &proof));
}

fn random_data(n_leaves: usize, leaf_size: usize, seed: u64) -> Vec<u8> {
    let mut data = vec![0u8; n_leaves * leaf_size];
    let mut z = seed;
    for b in data.iter_mut() {
        z = z.wrapping_mul(0x9E37_79B9_7F4A_7C15).wrapping_add(1);
        *b = ((z >> 33) & 0xff) as u8;
    }
    data
}

#[test]
fn multi_proof_single_position_matches_single_proof() {
    let (n_leaves, leaf_size) = (16, 8);
    let data = random_data(n_leaves, leaf_size, 42);
    let tree = merkle_tree(&data, n_leaves);
    let root = *tree.last().unwrap();

    for i in 0..n_leaves {
        let multi = merkle_multi_proof(&tree, n_leaves, &[i]);
        let single = merkle_proof(&tree, n_leaves, i);
        assert_eq!(
            multi, single,
            "multi-proof of [{i}] must equal single proof"
        );

        let leaf_hash = hash_leaf(&data[i * leaf_size..(i + 1) * leaf_size]);
        assert!(verify_merkle_multi_proof(
            &root,
            n_leaves,
            &[i],
            &[leaf_hash],
            &multi
        ));
    }
}

#[test]
fn multi_proof_sibling_pair_emits_no_hashes_at_leaf_level() {
    // Sibling pair (0,1) at the leaf level shares its parent → no leaf-level
    // sibling is needed; one sibling per remaining level.
    let n_leaves = 8;
    let leaf_size = 4;
    let data = random_data(n_leaves, leaf_size, 7);
    let tree = merkle_tree(&data, n_leaves);
    let root = *tree.last().unwrap();

    let multi = merkle_multi_proof(&tree, n_leaves, &[0, 1]);
    assert_eq!(
        multi.len(),
        2,
        "sibling pair at leaves saves the leaf-level hash"
    );

    let leaves: Vec<flock_mhot::merkle::Hash> = [0usize, 1]
        .iter()
        .map(|&i| hash_leaf(&data[i * leaf_size..(i + 1) * leaf_size]))
        .collect();
    assert!(verify_merkle_multi_proof(
        &root,
        n_leaves,
        &[0, 1],
        &leaves,
        &multi
    ));
}

#[test]
fn multi_proof_full_query_set_is_root_only() {
    // Every leaf queried → the verifier already knows everything, so the
    // multi-proof should be empty.
    let n_leaves = 16;
    let leaf_size = 8;
    let data = random_data(n_leaves, leaf_size, 99);
    let tree = merkle_tree(&data, n_leaves);
    let root = *tree.last().unwrap();

    let positions: Vec<usize> = (0..n_leaves).collect();
    let multi = merkle_multi_proof(&tree, n_leaves, &positions);
    assert!(
        multi.is_empty(),
        "full-set multi-proof should have zero hashes"
    );

    let leaves: Vec<flock_mhot::merkle::Hash> = (0..n_leaves)
        .map(|i| hash_leaf(&data[i * leaf_size..(i + 1) * leaf_size]))
        .collect();
    assert!(verify_merkle_multi_proof(
        &root, n_leaves, &positions, &leaves, &multi
    ));
}

#[test]
fn multi_proof_random_subsets_roundtrip() {
    let n_leaves = 64;
    let leaf_size = 16;
    let data = random_data(n_leaves, leaf_size, 2024);
    let tree = merkle_tree(&data, n_leaves);
    let root = *tree.last().unwrap();

    let all_leaves: Vec<flock_mhot::merkle::Hash> = (0..n_leaves)
        .map(|i| hash_leaf(&data[i * leaf_size..(i + 1) * leaf_size]))
        .collect();

    let subsets: &[&[usize]] = &[
        &[0],
        &[63],
        &[0, 63],
        &[3, 17, 41],
        &[10, 11, 12, 13],
        &[0, 1, 2, 3, 60, 61, 62, 63],
        &[5, 5, 5, 17, 17],
        &[0, 8, 16, 24, 32, 40, 48, 56],
    ];
    for positions in subsets {
        let multi = merkle_multi_proof(&tree, n_leaves, positions);

        let mut sorted: Vec<usize> = positions.to_vec();
        sorted.sort_unstable();
        sorted.dedup();
        let leaves: Vec<flock_mhot::merkle::Hash> = sorted.iter().map(|&p| all_leaves[p]).collect();

        assert!(
            verify_merkle_multi_proof(&root, n_leaves, &sorted, &leaves, &multi),
            "roundtrip failed for positions={positions:?}"
        );

        let log_n = n_leaves.trailing_zeros() as usize;
        assert!(
            multi.len() <= sorted.len() * log_n,
            "multi-proof can't exceed sum of independent paths"
        );
    }
}

#[test]
fn multi_proof_rejects_wrong_leaf() {
    let (n_leaves, leaf_size) = (32, 8);
    let data = random_data(n_leaves, leaf_size, 1);
    let tree = merkle_tree(&data, n_leaves);
    let root = *tree.last().unwrap();

    let positions = vec![3usize, 7, 19, 28];
    let multi = merkle_multi_proof(&tree, n_leaves, &positions);
    let mut leaves: Vec<flock_mhot::merkle::Hash> = positions
        .iter()
        .map(|&p| hash_leaf(&data[p * leaf_size..(p + 1) * leaf_size]))
        .collect();

    assert!(verify_merkle_multi_proof(
        &root, n_leaves, &positions, &leaves, &multi
    ));
    leaves[1][0] ^= 1;
    assert!(!verify_merkle_multi_proof(
        &root, n_leaves, &positions, &leaves, &multi
    ));
}

#[test]
fn multi_proof_rejects_tampered_proof_hash() {
    let (n_leaves, leaf_size) = (32, 8);
    let data = random_data(n_leaves, leaf_size, 2);
    let tree = merkle_tree(&data, n_leaves);
    let root = *tree.last().unwrap();

    let positions = vec![1usize, 14, 27];
    let mut multi = merkle_multi_proof(&tree, n_leaves, &positions);
    let leaves: Vec<flock_mhot::merkle::Hash> = positions
        .iter()
        .map(|&p| hash_leaf(&data[p * leaf_size..(p + 1) * leaf_size]))
        .collect();

    assert!(verify_merkle_multi_proof(
        &root, n_leaves, &positions, &leaves, &multi
    ));
    multi[0][0] ^= 1;
    assert!(!verify_merkle_multi_proof(
        &root, n_leaves, &positions, &leaves, &multi
    ));
}

#[test]
fn multi_proof_rejects_extra_or_missing_hashes() {
    let (n_leaves, leaf_size) = (16, 8);
    let data = random_data(n_leaves, leaf_size, 3);
    let tree = merkle_tree(&data, n_leaves);
    let root = *tree.last().unwrap();

    let positions = vec![2usize, 11];
    let multi = merkle_multi_proof(&tree, n_leaves, &positions);
    let leaves: Vec<flock_mhot::merkle::Hash> = positions
        .iter()
        .map(|&p| hash_leaf(&data[p * leaf_size..(p + 1) * leaf_size]))
        .collect();

    let mut extra = multi.clone();
    extra.push([0xaa; 32]);
    assert!(!verify_merkle_multi_proof(
        &root, n_leaves, &positions, &leaves, &extra
    ));

    let mut short = multi.clone();
    short.pop();
    assert!(!verify_merkle_multi_proof(
        &root, n_leaves, &positions, &leaves, &short
    ));
}

#[test]
fn multi_proof_rejects_unsorted_positions() {
    let (n_leaves, leaf_size) = (16, 8);
    let data = random_data(n_leaves, leaf_size, 5);
    let tree = merkle_tree(&data, n_leaves);
    let root = *tree.last().unwrap();

    let positions = vec![2usize, 11];
    let multi = merkle_multi_proof(&tree, n_leaves, &positions);
    let leaves: Vec<flock_mhot::merkle::Hash> = positions
        .iter()
        .map(|&p| hash_leaf(&data[p * leaf_size..(p + 1) * leaf_size]))
        .collect();

    let unsorted = vec![11usize, 2];
    let unsorted_leaves = vec![leaves[1], leaves[0]];
    assert!(!verify_merkle_multi_proof(
        &root,
        n_leaves,
        &unsorted,
        &unsorted_leaves,
        &multi
    ));
}

#[test]
fn multi_proof_beats_independent_paths_at_scale() {
    let n_leaves = 1024;
    let leaf_size = 8;
    let data = random_data(n_leaves, leaf_size, 4096);
    let tree = merkle_tree(&data, n_leaves);
    let root = *tree.last().unwrap();
    let log_n = n_leaves.trailing_zeros() as usize;

    let positions_raw: Vec<usize> = (0..100)
        .map(|i| {
            let mut z = (i as u64).wrapping_mul(0xDEAD_BEEF_F0F0_F0F0);
            z ^= z >> 27;
            (z as usize) & (n_leaves - 1)
        })
        .collect();
    let multi = merkle_multi_proof(&tree, n_leaves, &positions_raw);

    let mut positions = positions_raw.clone();
    positions.sort_unstable();
    positions.dedup();
    let leaves: Vec<flock_mhot::merkle::Hash> = positions
        .iter()
        .map(|&p| hash_leaf(&data[p * leaf_size..(p + 1) * leaf_size]))
        .collect();

    assert!(verify_merkle_multi_proof(
        &root, n_leaves, &positions, &leaves, &multi
    ));
    assert!(
        multi.len() < positions.len() * log_n,
        "multi-proof should beat independent paths: got {} vs {} × {}",
        multi.len(),
        positions.len(),
        log_n
    );
}

#[test]
fn sha256x4_x86_matches_scalar() {
    let inputs: [[u8; 64]; 4] = [
        {
            let mut a = [0u8; 64];
            for (i, b) in a.iter_mut().enumerate() {
                *b = (i as u8).wrapping_mul(0x37);
            }
            a
        },
        {
            let mut a = [0u8; 64];
            for (i, b) in a.iter_mut().enumerate() {
                *b = (i as u8).wrapping_add(0xAB);
            }
            a
        },
        {
            let mut a = [0u8; 64];
            for (i, b) in a.iter_mut().enumerate() {
                *b = (i as u8) ^ 0xCD;
            }
            a
        },
        {
            let mut a = [0u8; 64];
            for (i, b) in a.iter_mut().enumerate() {
                *b = ((i * 7 + 3) & 0xFF) as u8;
            }
            a
        },
    ];

    let scalar: Vec<flock_mhot::merkle::Hash> = inputs
        .iter()
        .map(|inp| Sha256::digest(inp).into())
        .collect();

    let mut batch = [[0u8; 32]; 4];
    hash4([&inputs[0][..], &inputs[1][..], &inputs[2][..], &inputs[3][..]], &mut batch);

    for i in 0..4 {
        assert_eq!(
            batch[i], scalar[i],
            "sha256x4 lane {i} differs from scalar"
        );
    }
}

#[test]
fn sha256x4_x86_various_lengths() {
    for len in [1, 7, 32, 55, 56, 63, 64, 100, 128, 200] {
        let inputs: Vec<Vec<u8>> = (0..4u8)
            .map(|seed| {
                (0..len)
                    .map(|i| (i as u8).wrapping_mul(seed.wrapping_add(0x31)))
                    .collect()
            })
            .collect();

        let scalar: Vec<flock_mhot::merkle::Hash> = inputs
            .iter()
            .map(|inp| Sha256::digest(inp).into())
            .collect();

        let mut batch = [[0u8; 32]; 4];
        hash4([&inputs[0], &inputs[1], &inputs[2], &inputs[3]], &mut batch);

        for i in 0..4 {
            assert_eq!(
                batch[i], scalar[i],
                "sha256x4 lane {i} differs at len={len}"
            );
        }
    }
}

#[test]
fn merkle_tree_x86_matches_scalar() {
    for (n_leaves, leaf_size) in [
        (4, 32),
        (8, 64),
        (16, 8),
        (64, 100),
        (256, 16),
        (1024, 64),
    ] {
        let data = random_data(n_leaves, leaf_size, 0xDEAD_CAFE);
        let tree = merkle_tree(&data, n_leaves);
        let seq = merkle_tree_sequential(&data, n_leaves);
        assert_eq!(
            tree, seq,
            "merkle_tree (x86 path) differs from sequential at n_leaves={n_leaves} leaf_size={leaf_size}"
        );
    }
}

#[test]
fn trees_hold_leaves_then_pairs() {
    for n in [1usize, 2, 4, 16] {
        let data: Vec<u8> = (0..n * 5).map(|i| (i * 7) as u8).collect();
        for tree in [merkle_tree(&data, n), merkle_tree_sequential(&data, n)] {
            assert_eq!(tree.len(), 2 * n - 1);
            for i in 0..n {
                assert_eq!(tree[i], hash_leaf(&data[5 * i..5 * i + 5]));
            }
            for k in 0..n - 1 {
                assert_eq!(tree[n + k], hash_pair(&tree[2 * k], &tree[2 * k + 1]));
            }
        }
    }
}
