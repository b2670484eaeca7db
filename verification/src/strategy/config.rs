//! Reed-Solomon strategy configuration.

use vstd::prelude::*;

verus! {

/// Reed-Solomon strategy configuration.
#[derive(Debug, Clone, Copy, PartialEq, Eq, Structural)]
pub struct RsConfig {
    /// Number of data shards.
    pub data_shards: u32,
    /// Number of parity shards.
    pub parity_shards: u32,
    /// Fixed chunk size in bytes; if 0, computed from message length and
    /// `data_shards`.
    pub chunk_len: u32,
    /// Percentage of shards received before the routing bitmap is
    /// emitted (0 to 100).
    pub bitmap_threshold: u8,
    /// Maximum successful sends per shard for relays. Origins are
    /// unconstrained.
    pub forward_multiplier: u32,
    /// If true, routing bitmaps are never emitted.
    pub disable_bitmap: bool,
}

impl Default for RsConfig {
    fn default() -> (r: Self)
        ensures
            r == (RsConfig {
                data_shards: 16,
                parity_shards: 16,
                chunk_len: 0,
                bitmap_threshold: 50,
                forward_multiplier: 4,
                disable_bitmap: false,
            }),
    {
        RsConfig {
            data_shards: 16,
            parity_shards: 16,
            chunk_len: 0,
            bitmap_threshold: 50,
            forward_multiplier: 4,
            disable_bitmap: false,
        }
    }
}

/// Errors returned by [`RsConfig::new`].
#[derive(Debug, Clone, Copy, PartialEq, Eq, Structural)]
pub enum ConfigError {
    /// `bitmap_threshold` must be a percentage in `0..=100`.
    BitmapThresholdOutOfRange(u8),
    /// `data_shards` must be at least 1.
    DataShardsZero,
}

impl RsConfig {
    /// Construct a configuration, validating field invariants.
    pub fn new(
        data_shards: u32,
        parity_shards: u32,
        chunk_len: u32,
        bitmap_threshold: u8,
        forward_multiplier: u32,
        disable_bitmap: bool,
    ) -> (r: Result<Self, ConfigError>)
        ensures
            r == (if data_shards == 0 {
                Err(ConfigError::DataShardsZero)
            } else if bitmap_threshold > 100 {
                Err(ConfigError::BitmapThresholdOutOfRange(bitmap_threshold))
            } else {
                Ok(
                    RsConfig {
                        data_shards,
                        parity_shards,
                        chunk_len,
                        bitmap_threshold,
                        forward_multiplier,
                        disable_bitmap,
                    },
                )
            }),
    {
        if data_shards == 0 {
            return Err(ConfigError::DataShardsZero);
        }
        if bitmap_threshold > 100 {
            return Err(ConfigError::BitmapThresholdOutOfRange(bitmap_threshold));
        }
        Ok(
            RsConfig {
                data_shards,
                parity_shards,
                chunk_len,
                bitmap_threshold,
                forward_multiplier,
                disable_bitmap,
            },
        )
    }

    /// Total shard count (`data_shards + parity_shards`).
    #[must_use]
    pub fn total_shards(&self) -> (r: u32)
        requires
            self.data_shards + self.parity_shards <= u32::MAX,
        ensures
            r == self.data_shards + self.parity_shards,
    {
        self.data_shards + self.parity_shards
    }
}

} // verus!
