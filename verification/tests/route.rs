use flock_mhot::r1cs::BlockR1cs;
use flock_mhot::route::{
    build_block_r1cs, build_matrices, child_base, child_digest_pos, extracted_pos,
    fill_block_witness, found_state_pos, match_result_pos, mux_delta_pos, take_pos, CHILDREN_BASE,
    CHILD_STRIDE, DIGEST_BITS, FANOUT, FOUND_OUT_FINAL_POS, K, KEY_BASE, KEY_BITS, K_SKIP,
    MASK_BASE, SELECTED_IN_BASE, SELECTED_OUT_FINAL_BASE, U64_PER_BLOCK, USEFUL_BITS, Z_CONST_POS,
};

#[test]
fn route_layout_constants_consistent() {
    assert_eq!(K, 32768);
    assert_eq!(K_SKIP, 6);
    assert_eq!(KEY_BASE, 0);
    assert_eq!(Z_CONST_POS, 256);
    assert_eq!(SELECTED_IN_BASE, 257);
    assert_eq!(MASK_BASE, 513);
    assert_eq!(CHILDREN_BASE, 769);
    assert_eq!(CHILD_STRIDE, 517);
    assert_eq!(FOUND_OUT_FINAL_POS, 2837);
    assert_eq!(SELECTED_OUT_FINAL_BASE, 2838);
    assert_eq!(USEFUL_BITS, 3094);
    assert!(USEFUL_BITS <= K);

    let (a_0, b_0) = build_matrices();
    let a_nnz: usize = a_0.rows.iter().map(Vec::len).sum();
    let b_nnz: usize = b_0.rows.iter().map(Vec::len).sum();
    let nonempty_rows = a_0
        .rows
        .iter()
        .zip(b_0.rows.iter())
        .filter(|(a, b)| !a.is_empty() || !b.is_empty())
        .count();
    println!(
        "F_route layout: useful_bits={USEFUL_BITS}, nonempty_rows={nonempty_rows}, a_nnz={a_nnz}, b_nnz={b_nnz}, total_nnz={}",
        a_nnz + b_nnz
    );
    assert_eq!(nonempty_rows, 2838);
    assert_eq!(a_nnz, 3867);
    assert_eq!(b_nnz, 5403);

    for child in 0..FANOUT {
        assert_eq!(child_digest_pos(child, 0), child_base(child));
        assert_eq!(extracted_pos(child, 0), child_base(child) + 256);
        assert_eq!(match_result_pos(child), child_base(child) + 258);
        assert_eq!(take_pos(child), child_base(child) + 259);
        assert_eq!(found_state_pos(child), child_base(child) + 260);
        assert_eq!(mux_delta_pos(child, 0), child_base(child) + 261);
        assert_eq!(mux_delta_pos(child, 255), child_base(child + 1) - 1);
    }
}

#[test]
fn route_witness_satisfies_r1cs() {
    let r1cs = build_block_r1cs(3);
    let z = one_block_witness_bool();
    assert_eq!(z.len(), r1cs.n());
    assert!(r1cs.satisfies(&z));
}

#[test]
fn all_zero_witness_rejected() {
    let r1cs = build_block_r1cs(3);
    let z = vec![false; r1cs.n()];

    assert!(
        r1cs.satisfies(&z),
        "BlockR1cs::satisfies is matrix-only and does not enforce const_pin"
    );
    assert!(!satisfies_with_const_pin(&r1cs, &z));
}

#[test]
fn wrong_key_witness_rejected() {
    let r1cs = build_block_r1cs(3);
    let mut z = one_block_witness_bool();
    assert!(r1cs.satisfies(&z));

    z[KEY_BASE] ^= true;
    assert!(!r1cs.satisfies(&z));
}

fn one_block_witness_bool() -> Vec<bool> {
    let mut key = [false; KEY_BITS];
    let mut mask = [false; KEY_BITS];
    key[0] = false;
    key[1] = true;
    mask[0] = true;
    mask[1] = true;

    let children: [[bool; DIGEST_BITS]; FANOUT] =
        std::array::from_fn(|child| std::array::from_fn(|bit| ((child * 17 + bit) & 1) != 0));

    let mut z_u64 = vec![0u64; U64_PER_BLOCK];
    let mut a_u64 = vec![0u64; U64_PER_BLOCK];
    let mut b_u64 = vec![0u64; U64_PER_BLOCK];
    fill_block_witness(&key, &mask, &children, &mut z_u64, &mut a_u64, &mut b_u64);

    let mut z = vec![false; K * (1 << 3)];
    for bit in 0..K {
        z[bit] = ((z_u64[bit >> 6] >> (bit & 63)) & 1) != 0;
    }
    z
}

fn satisfies_with_const_pin(r1cs: &BlockR1cs, z: &[bool]) -> bool {
    if !r1cs.satisfies(z) {
        return false;
    }
    match r1cs.const_pin {
        Some(pin) => (0..r1cs.n_outer()).all(|block| z[block * r1cs.k() + pin]),
        None => true,
    }
}

fn bit(words: &[u64], pos: usize) -> bool {
    (words[pos >> 6] >> (pos & 63)) & 1 == 1
}

// What a block puts out is the child that the masked key spells.
#[test]
fn block_puts_out_the_spelled_child() {
    for index in 0..FANOUT {
        let mut key = [false; KEY_BITS];
        let mut mask = [false; KEY_BITS];
        for j in 0..2 {
            key[j] = (index >> j) & 1 == 1;
            mask[j] = true;
        }
        let children: [[bool; DIGEST_BITS]; FANOUT] =
            std::array::from_fn(|c| std::array::from_fn(|b| (c + 1) * b % 7 < 3));
        let mut z = vec![0u64; U64_PER_BLOCK];
        let mut a = vec![0u64; U64_PER_BLOCK];
        let mut b = vec![0u64; U64_PER_BLOCK];
        fill_block_witness(&key, &mask, &children, &mut z, &mut a, &mut b);
        assert!(bit(&z, Z_CONST_POS));
        assert!(bit(&z, FOUND_OUT_FINAL_POS));
        for j in 0..DIGEST_BITS {
            assert_eq!(bit(&z, SELECTED_OUT_FINAL_BASE + j), children[index][j]);
        }
        for c in 0..FANOUT {
            assert_eq!(bit(&z, take_pos(c)), c == index);
        }
    }
}

// A satisfying block is determined by its inputs: no other bit can be changed.
#[test]
fn changed_bits_are_rejected() {
    let r1cs = build_block_r1cs(3);
    let z = one_block_witness_bool();
    for pos in [CHILDREN_BASE + 256, take_pos(1), FOUND_OUT_FINAL_POS, SELECTED_OUT_FINAL_BASE] {
        let mut bad = z.clone();
        bad[pos] = !bad[pos];
        assert!(!r1cs.satisfies(&bad), "position {pos}");
    }
}
