//! Persistent application settings. Loading and saving the settings file
//! belongs to the surrounding program; the library holds the settings
//! themselves and their defaults.

use vstd::prelude::*;

verus! {

/// Application settings.
#[derive(Debug, Clone, Copy, PartialEq, Eq, Structural)]
pub struct Config {
    /// Automatically connect to the first device found.
    pub enable_autoconnect: bool,
    /// Delay display slightly to smooth low-rate streams.
    pub smooth_data_streaming: bool,
}

impl Default for Config {
    /// The default settings: no autoconnect, smooth streaming on.
    fn default() -> (r: Config)
        ensures
            !r.enable_autoconnect,
            r.smooth_data_streaming,
    {
        Config { enable_autoconnect: false, smooth_data_streaming: true }
    }
}

} // verus!
