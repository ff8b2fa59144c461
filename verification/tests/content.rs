use flock_mhot::content::{
    check_absence, check_compact_content, AbsenceError, ContentError, KEY_BITS,
};

#[test]
fn valid_compact_content() {
    let mut key = [false; KEY_BITS];
    let mut mask = [false; KEY_BITS];
    mask[0] = true;
    mask[1] = true;
    key[1] = true;

    assert!(check_compact_content(&key, &mask).is_ok());
}

#[test]
fn non_compact_mask_rejected() {
    let key = [false; KEY_BITS];
    let mut mask = [false; KEY_BITS];
    mask[0] = true;
    mask[2] = true;

    assert_eq!(
        check_compact_content(&key, &mask),
        Err(ContentError::MaskNotCompact {
            bit: 1,
            popcount: 2
        })
    );
}

#[test]
fn key_above_mask_rejected() {
    let mut key = [false; KEY_BITS];
    let mut mask = [false; KEY_BITS];
    mask[0] = true;
    mask[1] = true;
    key[0] = true;
    key[5] = true;

    assert_eq!(
        check_compact_content(&key, &mask),
        Err(ContentError::KeyBitAboveMask { bit: 5 })
    );
}

#[test]
fn absence_different_keys_accepted() {
    let mut query = [false; KEY_BITS];
    let leaf = [false; KEY_BITS];
    query[0] = true;

    assert!(check_absence(&query, &leaf).is_ok());
}

#[test]
fn absence_same_keys_rejected() {
    let key = [false; KEY_BITS];

    assert_eq!(check_absence(&key, &key), Err(AbsenceError::KeysEqual));
}
