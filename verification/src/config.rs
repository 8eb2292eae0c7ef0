//! The settings of a store.

use crate::engine::build_config;
use vstd::prelude::*;

verus! {

/// What the engine is tuned for.
#[derive(Clone, Copy, Debug, PartialEq, Eq, Structural)]
pub enum BackendMode {
    /// Throughput.
    Fast,
    /// Space.
    Small,
}

/// The settings of a store.
#[derive(Clone, Debug)]
pub struct MangoChainsawConfig {
    /// Whether the engine works in a directory of its own that it throws away
    /// when it is closed.
    pub temporary: bool,
    /// Where the engine keeps its state.
    pub data_path: String,
    /// What the engine is tuned for.
    pub backend_mode: BackendMode,
    /// After how many ids the engine's counter is written to disk.
    pub idgen_interval: u64,
    /// The level of compression; none at zero or below. The engine opens
    /// with a positive factor only where it was built with compression, and
    /// only up to its highest level; else it refuses to open.
    pub compression_factor: i32,
}

/// The settings as the engine takes them.
#[derive(Clone, Copy, Debug, PartialEq, Eq, Structural)]
pub struct EngineSettings {
    /// Work in a directory that is thrown away.
    pub temporary: bool,
    /// Tune for space, not for throughput.
    pub low_space: bool,
    /// After how many ids the counter is written to disk.
    pub idgen_interval: u64,
    /// Compress what is written.
    pub use_compression: bool,
    /// The level of compression that the engine is given.
    pub compression_level: i32,
}

impl Default for MangoChainsawConfig {
    /// A store that is thrown away when it is closed.
    fn default() -> (c: Self)
        ensures
            c.temporary,
            c.data_path@ == Seq::<char>::empty(),
            c.backend_mode == BackendMode::Fast,
            c.idgen_interval == 420_069,
            c.compression_factor == 3,
    {
        MangoChainsawConfig {
            temporary: true,
            data_path: String::new(),
            backend_mode: BackendMode::Fast,
            idgen_interval: 420_069,
            compression_factor: 3,
        }
    }
}

impl MangoChainsawConfig {
    /// The settings as the engine takes them. Compression is on where the
    /// factor is positive, and the factor is then its level; without
    /// compression the engine is given the lowest level, which it ignores.
    pub fn engine_settings(&self) -> (s: EngineSettings)
        ensures
            s.temporary == self.temporary,
            s.low_space == (self.backend_mode == BackendMode::Small),
            s.idgen_interval == self.idgen_interval,
            s.use_compression == (self.compression_factor > 0),
            s.compression_level == (if self.compression_factor > 0 {
                self.compression_factor
            } else {
                1
            }),
    {
        let low_space = match self.backend_mode {
            BackendMode::Fast => false,
            BackendMode::Small => true,
        };
        let use_compression = self.compression_factor > 0;
        let compression_level: i32 = if use_compression {
            self.compression_factor
        } else {
            1
        };
        EngineSettings {
            temporary: self.temporary,
            low_space,
            idgen_interval: self.idgen_interval,
            use_compression,
            compression_level,
        }
    }

    /// The engine's configuration for these settings.
    pub fn to_sled_config(&self) -> sled::Config {
        let s = self.engine_settings();
        build_config(
            self.data_path.as_str(),
            s.temporary,
            s.low_space,
            s.idgen_interval,
            s.use_compression,
            s.compression_level,
        )
    }
}

} // verus!
