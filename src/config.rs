//! Static sizes of the engine's tables.
use vstd::prelude::*;

verus! {

pub const NB_DOMAINS: usize = 32;

pub const NB_CAPAS_PER_DOMAIN: usize = 128;

pub const NB_REGIONS_PER_DOMAIN: usize = 64;

pub const NB_REGIONS: usize = 256;

pub const NB_UPDATES: usize = 128;

/// At most 64: cores are named by the bits of a `u64` bitmap.
pub const NB_CORES: usize = 32;

} // verus!
