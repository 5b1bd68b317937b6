//! Runtime knobs (not a security boundary).

use vstd::prelude::*;

use crate::cover::CoverMode;
use crate::{MAX_DATAGRAM, PROTOCOL_VERSION};

verus! {

/// Process configuration.
#[derive(Clone, Copy, Debug, PartialEq, Eq, Structural)]
pub struct Config {
    /// Wire version the process speaks.
    pub wire_version: u8,
    /// Soft datagram cap.
    pub mtu: usize,
    /// Cover policy.
    pub cover: CoverMode,
    /// Max onion hops this process will wrap.
    pub max_onion_hops: u8,
}

impl Default for Config {
    fn default() -> (c: Self)
        ensures
            c == (Config { wire_version: PROTOCOL_VERSION, mtu: MAX_DATAGRAM, cover: CoverMode::Off, max_onion_hops: 3 }),
    {
        Config { wire_version: PROTOCOL_VERSION, mtu: MAX_DATAGRAM, cover: CoverMode::Off, max_onion_hops: 3 }
    }
}

impl Config {
    /// Balanced cover preset: the defaults with [`CoverMode::Balanced`].
    pub fn balanced() -> (c: Self)
        ensures
            c == (Config { wire_version: PROTOCOL_VERSION, mtu: MAX_DATAGRAM, cover: CoverMode::Balanced, max_onion_hops: 3 }),
    {
        Config { cover: CoverMode::Balanced, ..Self::default() }
    }
}

} // verus!
