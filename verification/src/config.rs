//! The two options of a store: how long a block is, and how often a record
//! carries every block it needs.

use vstd::prelude::*;
use crate::error::StoreError;

verus! {

/// Length in bytes of a block when nothing else is asked for.
pub const DEFAULT_BLOCK_SIZE: usize = 10;

/// Distance between two self-contained records when nothing else is asked for.
pub const DEFAULT_SNAPSHOT_INTERVAL: usize = 3;

/// The options that every operation of the store is given.
#[derive(Debug, Clone, Copy, PartialEq, Eq, Structural)]
pub struct Config {
    /// Length in bytes of every block but the last of a content.
    pub block_size: usize,
    /// Every record whose id is a multiple of this carries all its blocks.
    pub snapshot_interval: usize,
}

impl Config {
    /// Both options are positive.
    pub open spec fn valid(&self) -> bool {
        self.block_size > 0 && self.snapshot_interval > 0
    }

    /// The options `block_size` and `snapshot_interval`, refused where one
    /// of them is zero.
    pub fn new(block_size: usize, snapshot_interval: usize) -> (res: Result<Config, StoreError>)
        ensures
            block_size > 0 && snapshot_interval > 0 ==> res == Ok::<Config, StoreError>(
                (Config { block_size, snapshot_interval }),
            ),
            block_size == 0 || snapshot_interval == 0 ==> res == Err::<Config, StoreError>(
                StoreError::InvalidConfiguration,
            ),
    {
        if block_size == 0 || snapshot_interval == 0 {
            Err(StoreError::InvalidConfiguration)
        } else {
            Ok(Config { block_size, snapshot_interval })
        }
    }

    /// Whether both options are positive.
    pub fn is_valid(&self) -> (ok: bool)
        ensures
            ok == self.valid(),
    {
        self.block_size > 0 && self.snapshot_interval > 0
    }
}

impl Default for Config {
    /// Blocks of ten bytes, and a self-contained record every third id.
    fn default() -> (cfg: Config)
        ensures
            cfg.block_size == DEFAULT_BLOCK_SIZE,
            cfg.snapshot_interval == DEFAULT_SNAPSHOT_INTERVAL,
            cfg.valid(),
    {
        Config { block_size: DEFAULT_BLOCK_SIZE, snapshot_interval: DEFAULT_SNAPSHOT_INTERVAL }
    }
}

} // verus!
