//! Capabilities as stored in a domain's table, and what enumeration reports of them.
use vstd::prelude::*;

use crate::gen_arena::Handle;
use crate::region::MemOps;

verus! {

/// A capability. `Empty` marks a free slot of a table.
#[derive(Clone, Copy, Debug, PartialEq, Eq, Structural)]
pub enum Capa {
    Empty,
    Region(Handle),
    Management(Handle),
    Channel(Handle),
    Switch { to: Handle, core: usize },
}

/// The index of a capability in one domain's table; meaningless in any other.
#[derive(Clone, Copy, Debug, PartialEq, Eq, Structural)]
pub struct LocalCapa {
    pub idx: usize,
}

impl LocalCapa {
    pub fn new(idx: usize) -> (r: LocalCapa)
        ensures
            r.idx == idx,
    {
        LocalCapa { idx }
    }

    pub fn as_usize(&self) -> (r: usize)
        ensures
            r == self.idx,
    {
        self.idx
    }
}

/// A resumable position in an enumeration.
#[derive(Clone, Copy, Debug, PartialEq, Eq, Structural)]
pub struct NextCapaToken {
    pub idx: usize,
}

impl NextCapaToken {
    pub fn new() -> (r: NextCapaToken)
        ensures
            r.idx == 0,
    {
        NextCapaToken { idx: 0 }
    }

    pub fn from_usize(idx: usize) -> (r: NextCapaToken)
        ensures
            r.idx == idx,
    {
        NextCapaToken { idx }
    }

    pub fn as_usize(&self) -> (r: usize)
        ensures
            r == self.idx,
    {
        self.idx
    }
}

/// What a domain may learn of one of its capabilities.
#[derive(Clone, Copy, Debug, PartialEq, Eq)]
pub enum CapaInfo {
    Region { start: usize, end: usize, active: bool, confidential: bool, ops: MemOps },
    Management { domain_id: usize, sealed: bool },
    Channel { domain_id: usize },
    Switch { domain_id: usize, core: usize },
}

/// The domain a `Channel` or `Management` capability names: the domains one may send to.
pub open spec fn channel_target(c: Capa) -> Option<Handle> {
    match c {
        Capa::Channel(d) => Some(d),
        Capa::Management(d) => Some(d),
        _ => None,
    }
}

} // verus!
