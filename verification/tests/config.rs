//! Configuration checks.

use ethp2p::strategy::config::{ConfigError, RsConfig};

#[test]
fn default_matches_spec_section_8() {
    let c = RsConfig::default();
    assert_eq!(c.data_shards, 16);
    assert_eq!(c.parity_shards, 16);
    assert_eq!(c.chunk_len, 0);
    assert_eq!(c.bitmap_threshold, 50);
    assert_eq!(c.forward_multiplier, 4);
    assert!(!c.disable_bitmap);
}

#[test]
fn rejects_bitmap_threshold_above_100() {
    let err = RsConfig::new(16, 16, 0, 101, 4, false).unwrap_err();
    assert_eq!(err, ConfigError::BitmapThresholdOutOfRange(101));
}

#[test]
fn rejects_zero_data_shards() {
    let err = RsConfig::new(0, 16, 0, 50, 4, false).unwrap_err();
    assert_eq!(err, ConfigError::DataShardsZero);
}

#[test]
fn accepts_threshold_zero_and_one_hundred() {
    assert!(RsConfig::new(16, 16, 0, 0, 4, false).is_ok());
    assert!(RsConfig::new(16, 16, 0, 100, 4, false).is_ok());
}
