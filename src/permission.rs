//! The bits of a domain's PERMISSION bitmap.
use vstd::prelude::*;

verus! {

/// May create child domains.
pub const SPAWN: u64 = 1;

/// May send capabilities to other domains.
pub const SEND: u64 = 2;

/// May duplicate and segment its capabilities.
pub const DUPLICATE: u64 = 4;

pub const ALL: u64 = 7;

pub const NONE: u64 = 0;

} // verus!
