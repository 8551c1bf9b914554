//! What platform code reads from the engine's configuration.
use vstd::prelude::*;

use crate::region::{AccessRights, MEMOPS_WRITE};
use crate::CapaError;

verus! {

/// How a domain's execution context is set up when it is switched to: the
/// values of the SWITCH bitmap.
#[derive(Clone, Copy, Debug, PartialEq, Eq, Structural)]
pub enum InitVMCS {
    Shared,
    Copy,
    Fresh,
}

impl InitVMCS {
    pub open spec fn code(self) -> u64 {
        match self {
            InitVMCS::Shared => 1,
            InitVMCS::Copy => 2,
            InitVMCS::Fresh => 3,
        }
    }

    /// The mode that a SWITCH value names; any value but 1, 2 and 3 is refused.
    pub fn from_u64(v: u64) -> (r: Result<InitVMCS, CapaError>)
        ensures
            (1 <= v <= 3) <==> r is Ok,
            r is Ok ==> r->Ok_0.code() == v,
            r is Err ==> r->Err_0 == CapaError::InvalidOperation,
    {
        if v == 1 {
            Ok(InitVMCS::Shared)
        } else if v == 2 {
            Ok(InitVMCS::Copy)
        } else if v == 3 {
            Ok(InitVMCS::Fresh)
        } else {
            Err(CapaError::InvalidOperation)
        }
    }

    pub fn as_u64(&self) -> (r: u64)
        ensures
            r == self.code(),
    {
        match self {
            InitVMCS::Shared => 1,
            InitVMCS::Copy => 2,
            InitVMCS::Fresh => 3,
        }
    }
}

/// Values the monitor hands back to a domain besides error codes.
#[derive(Clone, Copy, Debug, PartialEq, Eq, Structural)]
pub enum MonitorErrors {
    DomainRevoked,
}

impl MonitorErrors {
    pub fn as_usize(&self) -> (r: usize)
        ensures
            r == 66,
    {
        66
    }
}

/// The physical core behind a logical core number: the same on machines
/// that number cores directly.
pub fn remap_core(core: usize) -> (r: usize)
    ensures
        r == core,
{
    core
}

/// `remap_core` applied to every core of a bitmap.
pub fn remap_core_bitmap(bitmap: u64) -> (r: u64)
    ensures
        r == bitmap,
{
    bitmap
}

/// Where a domain sees a region: at its alias when it has one.
pub open spec fn guest_start(r: AccessRights) -> int {
    match r.alias {
        Some(a) => a as int,
        None => r.start as int,
    }
}

/// The region is writable and, as the domain sees it, holds all of the
/// buffer `[addr, end)`.
pub open spec fn holds_buffer(r: AccessRights, addr: usize, end: usize) -> bool {
    let g = guest_start(r);
    let size = r.end - r.start;
    &&& r.start < r.end
    &&& g <= addr < g + size
    &&& g < end <= g + size
    &&& r.ops & MEMOPS_WRITE != 0
}

/// The host address of a buffer that a domain names at `[addr, end)`,
/// found in the first of its regions that holds it; `None` when none does.
pub fn find_buff(regions: &Vec<AccessRights>, addr: usize, end: usize) -> (r: Option<usize>)
    ensures
        r is None ==> forall|i: int| 0 <= i < regions@.len() ==> !holds_buffer(#[trigger] regions@[i], addr, end),
        r is Some ==> exists|i: int| {
            &&& 0 <= i < regions@.len()
            &&& #[trigger] holds_buffer(regions@[i], addr, end)
            &&& forall|j: int| 0 <= j < i ==> !holds_buffer(#[trigger] regions@[j], addr, end)
            &&& r->Some_0 == regions@[i].start + (addr - guest_start(regions@[i]))
        },
{
    let mut i: usize = 0;
    while i < regions.len()
        invariant
            i <= regions@.len(),
            forall|j: int| 0 <= j < i ==> !holds_buffer(#[trigger] regions@[j], addr, end),
        decreases regions.len() - i,
    {
        let r = regions[i];
        if r.start < r.end {
            let g = match r.alias {
                Some(a) => a,
                None => r.start,
            };
            let size = r.end - r.start;
            if g <= addr && addr - g < size && g < end && end - g <= size && r.ops & MEMOPS_WRITE != 0 {
                assert(holds_buffer(regions@[i as int], addr, end));
                return Some(r.start + (addr - g));
            }
        }
        i = i + 1;
    }
    None
}

} // verus!
