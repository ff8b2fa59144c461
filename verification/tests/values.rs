// Exact values, edge cases and errors of the parts that need no proof system.

use flock_mhot::backend::{make_index_point, make_params, LigeritoProfile, PcsParams};
use flock_mhot::bytes::{read_be_word, read_be_word64, u32_be, u32_le, u64_be, u64_le};
use flock_mhot::content::{check_compact_content, ContentError};
use flock_mhot::entry_binding::{
    compute_dense_key, count_mask_bits, leaf_content_hash, search_in_sparse_keys, PathEntry,
};
use flock_mhot::hash_only::ligerito_setup_n_keccaks;
use flock_mhot::keccak::keccak_f;
use flock_mhot::math::{is_power_of_two, log2_ceil, next_power_of_two};
use flock_mhot::merkle::{
    hash_leaf, hash_leaf_quad, hash_pair, hash_pair_quad, merkle_multi_proof, merkle_root,
    merkle_tree, sha256_blocks, verify_merkle_multi_proof, verify_merkle_proof,
};
use flock_mhot::merkle_membership::{
    build_content_hash_chain, compute_content_hash, digest_bytes_to_route_bits,
    digest_to_sof_f128, leaf_words_to_digest_bytes, merkle_slot_pd_point, mhot_node_to_route_witness,
    min_n_blocks_log, pack_bits_to_f128, pad_to_needed, padded_path, pd_point,
    recompute_native_root, route_sof_f128, ContentMeta, BLOCK_PACKED, SOF_PACKED_BASE,
};
use flock_mhot::mhot_to_sha256::{
    bytes_to_message_words, bytes_to_sha256_chain, sha256_bytes, sha256_chain_output,
};
use flock_mhot::native_witness::{cpu_merkle_root, mhot_node_to_sha256_merkle, MhotNodeWitness};
use flock_mhot::r1cs::F128;
use flock_mhot::ref_witness::{
    build_ref_witness, bytes_to_logical_state, keccak_f_digest, leaf_digest,
    logical_state_to_bytes,
};
use flock_mhot::route_f32_setup::{RouteF32Setup, SetupCache};
use flock_mhot::schedule::{MhotHashSchedule, WireEndpoint};
use flock_mhot::sha256::{sha256_compress, SHA256_IV};
use flock_mhot::sound_multiproof::{
    allocate_blocks, bytes_to_words, dummy_padding_chain, innode_depth, pad_forward,
};
use flock_mhot::wide_glue::{check_wiring_cpu, compute_atom_outputs};
use flock_mhot::zk_stub::{popcount, POPCOUNT_AND_GATES, POPCOUNT_OUTPUT_BITS};

const NODE_ROOT: [u32; 8] = [
    0xc3375562, 0x5688dbf7, 0xed1c724c, 0xead2101d, 0x54d25a27, 0x79560074, 0x3bf9be2a, 0xdba85b65,
];

const PADDED_ROOT: [u32; 8] = [
    0x4da1be62, 0xe4f3ba83, 0xdcde1b7d, 0xb2ab982f, 0x750f4234, 0x46bb4987, 0x140b9c11, 0x9f693dcb,
];

fn hex(bytes: &[u8]) -> String {
    bytes.iter().map(|b| format!("{b:02x}")).collect()
}

fn two_children(selected: usize) -> MhotNodeWitness {
    MhotNodeWitness { children: vec![[0x11; 32], [0x22; 32]], selected_child: selected }
}

// --- hashing and trees ---

#[test]
fn leaf_hash_is_the_message_digest() {
    assert_eq!(
        hex(&hash_leaf(b"")),
        "e3b0c44298fc1c149afbf4c8996fb92427ae41e4649b934ca495991b7852b855"
    );
    assert_eq!(
        hex(&hash_leaf(b"abc")),
        "ba7816bf8f01cfea414140de5dae2223b00361a396177a9cb410ff61f20015ad"
    );
    for len in [0usize, 1, 55, 56, 63, 64, 65, 119, 120, 200] {
        let data: Vec<u8> = (0..len).map(|i| (i * 7) as u8).collect();
        assert_eq!(hash_leaf(&data), sha256_bytes(&data), "length {len}");
    }
}

#[test]
fn two_leaf_root_value() {
    assert_eq!(
        hex(&merkle_root(b"abcd", 2)),
        "c5fdd166560d16ced70242cfaf2894e2bc666fe24fff13449c52299f63c749ce"
    );
}

#[test]
fn block_counts() {
    assert_eq!(sha256_blocks(0), 1);
    assert_eq!(sha256_blocks(55), 1);
    assert_eq!(sha256_blocks(56), 2);
    assert_eq!(sha256_blocks(64), 2);
    assert_eq!(sha256_blocks(119), 2);
    assert_eq!(sha256_blocks(120), 3);
}

#[test]
fn quads_agree_with_single_hashes() {
    let data: Vec<u8> = (0..8 * 10).map(|i| (i * 3) as u8).collect();
    let quad = hash_leaf_quad(&data, 10, 2);
    for l in 0..4 {
        assert_eq!(quad[l], hash_leaf(&data[(2 + l) * 10..(3 + l) * 10]));
    }
    let tree = merkle_tree(&data, 8);
    let quad = hash_pair_quad(&tree, 0, 0);
    for l in 0..4 {
        assert_eq!(quad[l], hash_pair(&tree[2 * l], &tree[2 * l + 1]));
        assert_eq!(quad[l], tree[8 + l]);
    }
}

#[test]
fn empty_proof_of_a_single_leaf() {
    let leaf = hash_leaf(b"only");
    assert!(verify_merkle_proof(&leaf, &leaf, 0, &[]));
    assert!(verify_merkle_multi_proof(&leaf, 1, &[0], &[leaf], &[]));
    assert!(!verify_merkle_proof(&leaf, &hash_leaf(b"other"), 0, &[]));
}

#[test]
fn multi_proof_refuses_malformed_questions() {
    let data: Vec<u8> = (0..16).collect();
    let tree = merkle_tree(&data, 4);
    let root = tree[6];
    let proof = merkle_multi_proof(&tree, 4, &[1, 2]);
    assert!(verify_merkle_multi_proof(&root, 4, &[1, 2], &[tree[1], tree[2]], &proof));
    // Fewer leaves than positions, a position out of range, one given twice, none.
    assert!(!verify_merkle_multi_proof(&root, 4, &[1, 2], &[tree[1]], &proof));
    assert!(!verify_merkle_multi_proof(&root, 4, &[1, 4], &[tree[1], tree[2]], &proof));
    assert!(!verify_merkle_multi_proof(&root, 4, &[1, 1], &[tree[1], tree[1]], &proof));
    assert!(!verify_merkle_multi_proof(&root, 4, &[], &[], &proof));
    // A number of leaves that is no power of two.
    assert!(!verify_merkle_multi_proof(&root, 3, &[1, 2], &[tree[1], tree[2]], &proof));
}

#[test]
fn chain_of_a_message_puts_out_its_digest() {
    for len in [0usize, 3, 55, 56, 64, 130] {
        let data: Vec<u8> = (0..len).map(|i| (i * 11) as u8).collect();
        let chain = bytes_to_sha256_chain(&data);
        assert_eq!(chain.len() as u64, sha256_blocks(len));
        assert_eq!(chain[0].0, SHA256_IV);
        assert_eq!(leaf_words_to_digest_bytes(&sha256_chain_output(&chain)), hash_leaf(&data));
    }
}

#[test]
fn message_words_are_big_endian() {
    let block: Vec<u8> = (0..70).collect();
    let m = bytes_to_message_words(&block, 6);
    assert_eq!(m[0], 0x06070809);
    assert_eq!(m[15], 0x42434445);
}

#[test]
fn byte_orders() {
    assert_eq!(u32_be(0x01020304), [1, 2, 3, 4]);
    assert_eq!(u32_le(0x01020304), [4, 3, 2, 1]);
    assert_eq!(u64_be(0x0102030405060708), [1, 2, 3, 4, 5, 6, 7, 8]);
    assert_eq!(u64_le(0x0102030405060708), [8, 7, 6, 5, 4, 3, 2, 1]);
    assert_eq!(read_be_word(&[9, 1, 2, 3, 4], 1), 0x01020304);
    assert_eq!(read_be_word64(&[1, 2, 3, 4, 5, 6, 7, 8], 0), 0x0102030405060708);
}

#[test]
fn powers_of_two() {
    assert!(!is_power_of_two(0));
    assert!(is_power_of_two(1));
    assert!(!is_power_of_two(6));
    assert!(is_power_of_two(1 << 40));
    assert_eq!([1, 2, 3, 4, 5, 32, 33].map(log2_ceil), [0, 1, 2, 2, 3, 5, 6]);
    assert_eq!([0, 1, 3, 8, 9].map(next_power_of_two), [1, 1, 4, 8, 16]);
}

// --- keccak and the schedule ---

#[test]
fn keccak_of_the_zero_state() {
    let mut state = [false; 1600];
    keccak_f(&mut state);
    let bytes = logical_state_to_bytes(&state);
    assert_eq!(u64::from_le_bytes(bytes[..8].try_into().unwrap()), 0xF1258F7940E1DDE7);
    assert_eq!(
        hex(&keccak_f_digest(&[0u8; 200])),
        "e7dde140798f25f18a47c033f9ccd584eea95aa61e2698d54d49806f304715bd"
    );
}

#[test]
fn state_bytes_and_bits_are_inverse() {
    let bytes: [u8; 200] = std::array::from_fn(|i| (i * 37 + 5) as u8);
    let state = bytes_to_logical_state(&bytes);
    assert_eq!(logical_state_to_bytes(&state), bytes);
    // Bit z of lane l stands at l + 25 z.
    assert_eq!(state[3 + 25 * 9], (bytes[3 * 8 + 1] >> 1) & 1 == 1);
}

#[test]
fn seeded_leaf_value() {
    let d = leaf_digest(0, 0);
    assert_eq!(u64::from_le_bytes(d[..8].try_into().unwrap()), 0xe220a8397b1dcdaf);
    assert_ne!(leaf_digest(0, 1), d);
}

#[test]
fn schedule_of_eight_and_four() {
    let s = MhotHashSchedule::from_fanouts(&[8, 4]);
    let atoms: Vec<(usize, usize, usize, usize)> =
        s.hash_atoms.iter().map(|a| (a.atom_id, a.node, a.fold_step, a.n_children)).collect();
    assert_eq!(atoms, vec![(0, 0, 0, 4), (1, 0, 1, 4), (2, 0, 2, 2), (3, 1, 0, 4)]);
    let to_root: Vec<bool> = s
        .wires
        .iter()
        .filter(|w| matches!(w.dst, WireEndpoint::PublicRoot))
        .map(|w| matches!(w.src, WireEndpoint::AtomOutput { atom_id: 2 }))
        .collect();
    assert_eq!(to_root, vec![true]);
}

#[test]
fn packed_slots() {
    let s = MhotHashSchedule::from_fanouts(&[4]);
    assert_eq!(s.atom_output_f128(0), (16, 17));
    assert_eq!(s.atom_output_f128(1), (48, 49));
    assert_eq!(s.atom_output_f128(3), (1040, 1041));
    assert_eq!(s.atom_input_f128(0, 0), (0, 1));
    assert_eq!(s.atom_input_f128(4, 2), (1060, 1061));
    let input = WireEndpoint::AtomInput { atom_id: 1, child_slot: 2 };
    assert_eq!(s.endpoint_f128_with_offset(&input, 3), Some((1060, 1061)));
    let output = WireEndpoint::AtomOutput { atom_id: 0 };
    assert_eq!(s.endpoint_f128_with_offset(&output, 3), Some((1040, 1041)));
    assert_eq!(s.endpoint_f128_with_offset(&WireEndpoint::PublicRoot, 3), None);
    assert_eq!(s.endpoint_f128_with_offset(&WireEndpoint::LeafDigest { leaf_index: 0 }, 3), None);
}

#[test]
fn wiring_error_names_the_first_wire() {
    let s = MhotHashSchedule::from_fanouts(&[4, 2]);
    let w = build_ref_witness(&s, 5);
    let outputs = compute_atom_outputs(&w.atom_states);
    let mut leaves: Vec<[u8; 32]> = (0..6).map(|i| leaf_digest(5, i)).collect();
    let good = leaves[1];
    leaves[1] = [0xAB; 32];
    let e = check_wiring_cpu(&s, &outputs, &w.atom_states, &leaves, &w.expected_root).unwrap_err();
    assert!(matches!(s.wires[e.wire_index].src, WireEndpoint::LeafDigest { leaf_index: 1 }));
    assert_eq!(e.src_digest, [0xAB; 32]);
    assert_eq!(e.dst_digest, good);
}

#[test]
fn covered_atoms() {
    assert_eq!([1, 48, 49, 50, 1000].map(ligerito_setup_n_keccaks), [49, 49, 49, 50, 1000]);
}

// --- content and keys ---

#[test]
fn compact_content_edges() {
    let none = [false; 256];
    let all = [true; 256];
    assert_eq!(check_compact_content(&none, &none), Ok(()));
    assert_eq!(check_compact_content(&all, &all), Ok(()));
    assert_eq!(check_compact_content(&none, &all), Ok(()));
    assert_eq!(
        check_compact_content(&all, &none),
        Err(ContentError::KeyBitAboveMask { bit: 0 })
    );
    let mut high = [false; 256];
    high[255] = true;
    assert_eq!(
        check_compact_content(&none, &high),
        Err(ContentError::MaskNotCompact { bit: 0, popcount: 1 })
    );
}

#[test]
fn popcounts() {
    let mut mask = [false; 256];
    assert_eq!(popcount(&mask), 0);
    mask[255] = true;
    mask[7] = true;
    assert_eq!(popcount(&mask), 2);
    assert_eq!(popcount(&[true; 256]), 256);
    assert_eq!(POPCOUNT_AND_GATES, 512);
    assert_eq!(POPCOUNT_OUTPUT_BITS, 9);
}

#[test]
fn dense_keys() {
    let mut key = [0u8; 32];
    key[7] = 0b1010;
    key[15] = 0b1;
    // The chunks are big-endian, the lowest selected bit comes first.
    assert_eq!(compute_dense_key(&key, &[0b1111, 0b1, 0, 0]), 0b11010);
    assert_eq!(compute_dense_key(&key, &[0b1000, 0, 0, 0]), 1);
    assert_eq!(compute_dense_key(&key, &[0, 0, 0, u64::MAX]), 0);
    assert_eq!(count_mask_bits(&[0b1111, 0b1, 0, u64::MAX]), 69);
}

#[test]
fn sparse_key_search_takes_the_last_that_is_covered() {
    assert_eq!(search_in_sparse_keys(0b11, &[0, 0b01, 0b10, 0b100]), 2);
    assert_eq!(search_in_sparse_keys(0b100, &[0, 0b01, 0b10, 0b100]), 3);
    assert_eq!(search_in_sparse_keys(0, &[0, 0b01, 0b10]), 0);
    assert_eq!(search_in_sparse_keys(0, &[0b01, 0b10]), 0);
    assert_eq!(search_in_sparse_keys(7, &[]), 0);
}

#[test]
fn leaf_content_hash_value() {
    let entry = PathEntry { key: std::array::from_fn(|i| i as u8), value: b"xyz".to_vec() };
    assert_eq!(
        hex(&leaf_content_hash(&entry)),
        "c509b594872e961924402e05b70c7f7d417675d5e0f7bee780d149990f39f0cc"
    );
}

// --- nodes ---

#[test]
fn node_roots_have_their_values() {
    assert_eq!(cpu_merkle_root(&[[0x11; 32], [0x22; 32]]), NODE_ROOT);
    // The children are filled up with zero digests.
    assert_eq!(
        cpu_merkle_root(&[[0x11; 32], [0x22; 32], [0x33; 32]]),
        [
            0x8c9f2025, 0x77d370d0, 0x2761d7e4, 0xd366b2c9, 0xcd3cc79a, 0x059e2f71, 0x3204b5c1,
            0x8a6e9dd5,
        ]
    );
    assert_eq!(cpu_merkle_root(&[[0x11; 32]]), [0x11111111; 8]);
}

#[test]
fn path_replays_to_the_native_root() {
    let children: Vec<[u8; 32]> = (0..5).map(|i| [i as u8 + 1; 32]).collect();
    let native = cpu_merkle_root(&children);
    for selected in 0..5 {
        let node = MhotNodeWitness { children: children.clone(), selected_child: selected };
        let w = mhot_node_to_sha256_merkle(&node, true);
        assert_eq!(w.b_bits, (0..3).map(|d| (selected >> d) & 1 == 1).collect::<Vec<_>>());
        let siblings: Vec<[u32; 8]> = w
            .compressions
            .iter()
            .zip(&w.b_bits)
            .map(|((_, m), &side)| {
                let at = if side { 0 } else { 8 };
                std::array::from_fn(|i| m[at + i])
            })
            .collect();
        assert_eq!(recompute_native_root(&w.leaf, &siblings, &w.b_bits), native);
    }
}

#[test]
fn padded_paths_end_in_the_same_root() {
    for selected in [0, 1] {
        let p = padded_path(&two_children(selected), true);
        assert_eq!(p.n_real, 1);
        assert_eq!(p.compressions.len(), 8);
        assert_eq!(p.b_bits, (0..8).map(|k| k == 0 && selected == 1).collect::<Vec<_>>());
        assert_eq!(p.native_root, NODE_ROOT);
        assert_eq!(p.root, PADDED_ROOT);
    }
    assert_eq!(pad_forward(&NODE_ROOT, 7), PADDED_ROOT);
    assert_eq!(pad_forward(&NODE_ROOT, 0), NODE_ROOT);
}

#[test]
fn padding_goes_on_from_the_last_output() {
    let m: [u32; 16] = std::array::from_fn(|i| i as u32);
    let mut comps = vec![(SHA256_IV, m)];
    let mut sides = vec![true];
    let root = pad_to_needed(&mut comps, &mut sides, 3);
    assert_eq!(comps.len(), 3);
    assert_eq!(sides, vec![true, false, false]);
    let first = sha256_compress(&SHA256_IV, &m);
    assert_eq!(&comps[1].1[..8], &first[..]);
    assert_eq!(&comps[1].1[8..], &[0u32; 8][..]);
    assert_eq!(root, pad_forward(&first, 2));
    // Enough blocks already: nothing is added.
    let same = pad_to_needed(&mut comps, &mut sides, 2);
    assert_eq!(comps.len(), 3);
    assert_eq!(same, root);
}

#[test]
fn path_lengths() {
    assert_eq!([1, 8, 9, 16, 17].map(min_n_blocks_log), [3, 3, 4, 4, 5]);
    assert_eq!(allocate_blocks(1, 8), 8);
    assert_eq!(allocate_blocks(1, 128), 128);
    assert_eq!(allocate_blocks(3, 8), 32);
    assert_eq!(allocate_blocks(17, 128), 256);
    let meta = |n: usize| ContentMeta {
        extraction_masks: [0; 4],
        sparse_partial_keys: vec![0; n],
        child_leaf_counts: vec![1; n],
    };
    assert_eq!([1, 2, 3, 22, 32].map(|n| innode_depth(&meta(n))), [0, 1, 2, 5, 5]);
}

#[test]
fn filler_chain() {
    let p = dummy_padding_chain();
    assert_eq!(p.compressions.len(), 8);
    assert_eq!(p.b_bits.len(), 8);
    let mut current = p.leaf;
    for (k, (iv, m)) in p.compressions.iter().enumerate() {
        let at = if p.b_bits[k] { 8 } else { 0 };
        assert_eq!(&m[at..at + 8], &current[..]);
        current = sha256_compress(iv, m);
    }
    assert_eq!(current, p.root);
}

#[test]
fn content_hash_value() {
    let meta = ContentMeta {
        extraction_masks: [1, 0, 0, 0],
        sparse_partial_keys: vec![0, 1],
        child_leaf_counts: vec![1, 1],
    };
    let root = leaf_words_to_digest_bytes(&NODE_ROOT);
    let d = compute_content_hash(&meta, &root);
    assert_eq!(hex(&d), "806c316f2e786f583bbc2efabeaf84f4aac0e66cfcf75015b566f80876207eb9");
    // 80 bytes take two blocks; the chain goes on to eight.
    let (chain, hash, last, n_real) = build_content_hash_chain(&meta, &root);
    assert_eq!(n_real, 2);
    assert_eq!(chain.len(), 8);
    assert_eq!(leaf_words_to_digest_bytes(&hash), d);
    assert_eq!(sha256_chain_output(&chain[..2]), hash);
    assert_eq!(sha256_chain_output(&chain), last);
    for i in 1..chain.len() {
        assert_eq!(chain[i].0, sha256_compress(&chain[i - 1].0, &chain[i - 1].1));
    }
}

#[test]
fn words_and_bytes() {
    let d: [u8; 32] = std::array::from_fn(|i| i as u8);
    let w = bytes_to_words(&d);
    assert_eq!(w[0], 0x00010203);
    assert_eq!(leaf_words_to_digest_bytes(&w), d);
}

// --- routes ---

#[test]
fn digest_bits_and_their_packing() {
    let mut d = [0u8; 32];
    d[0] = 0b0000_0101;
    d[16] = 0b1000_0000;
    let bits = digest_bytes_to_route_bits(&d);
    let set: Vec<usize> = (0..256).filter(|&i| bits[i]).collect();
    assert_eq!(set, vec![0, 2, 135]);
    let sof = digest_to_sof_f128(&d);
    assert_eq!(sof[0], F128 { lo: 5, hi: 0 });
    assert_eq!(sof[1], F128 { lo: 128, hi: 0 });
    assert_eq!(pack_bits_to_f128(&bits, 2, 66), F128 { lo: 1, hi: 0 });
    assert_eq!(pack_bits_to_f128(&bits, 71, 136), F128 { lo: 0, hi: 1 });
}

#[test]
fn node_route_puts_out_the_selected_child() {
    for (n, selected) in [(2usize, 1usize), (5, 4), (22, 13), (32, 31)] {
        let children: Vec<[u8; 32]> = (0..n).map(|i| [(3 * i + 1) as u8; 32]).collect();
        let node = MhotNodeWitness { children: children.clone(), selected_child: selected };
        let w = mhot_node_to_route_witness(&node);
        assert_eq!(w.children.len(), 32);
        assert_eq!(route_sof_f128(&w), digest_to_sof_f128(&children[selected]));
    }
}

#[test]
fn points_of_packed_claims() {
    let one = F128::one();
    let zero = F128::zero();
    assert_eq!(make_index_point(5, 4), vec![one, zero, one, zero]);
    assert_eq!(make_index_point(0, 2), vec![zero, zero]);
    assert_eq!(BLOCK_PACKED, 256);
    assert_eq!(SOF_PACKED_BASE, 146);
    let setup = RouteF32Setup::new(1);
    assert_eq!(pd_point(&setup, 3, SOF_PACKED_BASE), make_index_point(3 * 256 + 146, 15));
    assert_eq!(merkle_slot_pd_point(22, 15, 2, 3, 1), make_index_point(2 * 256 + 7, 15));
}

#[test]
fn setups_cover_their_instances() {
    for (n, covered, m) in [(1usize, 128usize, 22usize), (128, 128, 22), (129, 256, 23), (600, 1024, 25)] {
        let s = RouteF32Setup::new(n);
        assert_eq!(s.n_instances, n);
        assert_eq!(s.setup_n_instances, covered);
        assert_eq!(s.r1cs.m, m);
        assert_eq!(1 << s.n_blocks_log(), covered);
        let params =
            PcsParams { m, log_inv_rate: 1, log_batch_size: 6, profile: LigeritoProfile::Fast };
        assert_eq!(s.pcs_params, params);
        assert_eq!(make_params(m), params);
    }
}

#[test]
fn cached_setups_are_those_that_are_built() {
    let mut cache = SetupCache::empty();
    for n in [3usize, 200, 3, 128, 200] {
        let s = RouteF32Setup::cached(n, &mut cache);
        assert_eq!(s.setup_n_instances, RouteF32Setup::new(n).setup_n_instances);
        assert_eq!(s.r1cs.m, RouteF32Setup::new(n).r1cs.m);
    }
    let held = cache.entries.len();
    RouteF32Setup::cached_verify(200, &mut cache);
    assert_eq!(cache.entries.len(), held);
    RouteF32Setup::clear_setup_cache(&mut cache);
    assert!(cache.entries.is_empty());
}
