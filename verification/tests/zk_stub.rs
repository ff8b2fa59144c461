use flock_mhot::zk_stub::{check_popcount_cpu, PrivateMuxConfig};

#[test]
fn private_mux_config() {
    let public = PrivateMuxConfig::public();
    assert!(!public.mask_private);
    assert!(!public.selected_idx_private);

    let private = PrivateMuxConfig::private();
    assert!(private.mask_private);
    assert!(private.selected_idx_private);
}

#[test]
fn popcount_cpu_correct() {
    let mut mask = [false; 256];
    assert!(check_popcount_cpu(&mask, 0));

    mask[0] = true;
    mask[5] = true;
    mask[100] = true;
    assert!(check_popcount_cpu(&mask, 3));
    assert!(!check_popcount_cpu(&mask, 2));
}
