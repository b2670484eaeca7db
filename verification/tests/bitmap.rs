//! Bitmap behaviour.

use ethp2p::strategy::bitmap::{BitMap, BitMapError};

#[test]
fn roundtrip_through_bytes_for_various_sizes() {
    for n in [0_u32, 1, 7, 8, 9, 32, 33, 64, 65, 128, 1024] {
        let mut original = BitMap::with_capacity(n);
        // Set every third bit.
        let mut i = 0;
        while i < n {
            original.set(i).unwrap();
            i += 3;
        }
        let bytes = original.as_bytes();
        let parsed = BitMap::from_bytes(&bytes, n).unwrap();
        assert_eq!(parsed, original, "round-trip failed for n = {n}");
    }
}

#[test]
fn set_and_get_symmetric() {
    let mut b = BitMap::with_capacity(128);
    for i in [0, 1, 7, 8, 63, 64, 65, 127] {
        b.set(i).unwrap();
    }
    for i in 0..128 {
        assert_eq!(b.get(i), [0, 1, 7, 8, 63, 64, 65, 127].contains(&i));
    }
}

#[test]
fn or_merge_yields_union() {
    let mut a = BitMap::with_capacity(16);
    for i in [1, 5, 9] {
        a.set(i).unwrap();
    }
    let mut b = BitMap::with_capacity(16);
    for i in [2, 5, 11] {
        b.set(i).unwrap();
    }
    a.or_merge(&b).unwrap();
    for i in 0..16 {
        assert_eq!(a.get(i), [1, 2, 5, 9, 11].contains(&i));
    }
}

#[test]
fn or_merge_size_mismatch_rejected() {
    let mut a = BitMap::with_capacity(16);
    let b = BitMap::with_capacity(32);
    let err = a.or_merge(&b).unwrap_err();
    assert!(matches!(err, BitMapError::SizeMismatch { .. }));
}

#[test]
fn out_of_range_set_rejected() {
    let mut b = BitMap::with_capacity(16);
    let err = b.set(16).unwrap_err();
    assert!(matches!(err, BitMapError::OutOfRange { .. }));
}

#[test]
fn out_of_range_get_returns_false() {
    let b = BitMap::with_capacity(16);
    assert!(!b.get(16));
    assert!(!b.get(99));
}

#[test]
fn count_ones_correct() {
    let mut b = BitMap::with_capacity(100);
    for i in (0..100).step_by(7) {
        b.set(i).unwrap();
    }
    assert_eq!(b.count_ones(), (0..100).step_by(7).count() as u32);
}

#[test]
fn from_bytes_invalid_length_rejected() {
    let err = BitMap::from_bytes(&[0; 3], 16).unwrap_err();
    assert!(matches!(err, BitMapError::InvalidByteLength { .. }));
}

#[test]
fn from_bytes_masks_unused_high_bits() {
    // n = 4; only low 4 bits should be valid even if sender set high bits.
    let mut b = BitMap::from_bytes(&[0xFF], 4).unwrap();
    // Should equal a bitmap with bits 0..=3 set.
    let mut expected = BitMap::with_capacity(4);
    for i in 0..4 {
        expected.set(i).unwrap();
    }
    assert_eq!(b, expected);
    // count_ones reflects masking.
    assert_eq!(b.count_ones(), 4);
    // Setting one of the masked bits would now succeed if not for the n bound.
    let _ = b.set(3);
}
