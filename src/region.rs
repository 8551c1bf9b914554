//! Memory regions and their access rights.
use vstd::prelude::*;

use crate::gen_arena::Handle;

verus! {

/// A set of memory operations, one bit each.
pub type MemOps = u32;

pub const MEMOPS_READ: MemOps = 1;

pub const MEMOPS_WRITE: MemOps = 2;

pub const MEMOPS_EXEC: MemOps = 4;

pub const MEMOPS_SUPER: MemOps = 8;

pub const MEMOPS_ALL: MemOps = 15;

/// The range `[start, end)` with the operations allowed on it, and the
/// address at which the holder sees it, when that differs.
#[derive(Clone, Copy, Debug, PartialEq, Eq)]
pub struct AccessRights {
    pub start: usize,
    pub end: usize,
    pub ops: MemOps,
    pub alias: Option<usize>,
}

/// Every bit of `a` is in `b`.
pub open spec fn ops_within(a: MemOps, b: MemOps) -> bool {
    a & !b == 0
}

pub open spec fn contains_addr(a: AccessRights, x: int) -> bool {
    a.start <= x < a.end
}

/// `left` and `right` are non-empty, adjacent, in order, and together span `parent`.
pub open spec fn tiles(parent: AccessRights, left: AccessRights, right: AccessRights) -> bool {
    &&& left.start == parent.start
    &&& left.end == right.start
    &&& right.end == parent.end
    &&& left.start < left.end
    &&& right.start < right.end
}

pub fn ops_subset(a: MemOps, b: MemOps) -> (r: bool)
    ensures
        r == ops_within(a, b),
{
    a & !b == 0
}

/// The operations that a raw bit set names; unknown bits are refused.
pub fn memops_from_usize(v: usize) -> (r: Result<MemOps, crate::CapaError>)
    ensures
        v <= MEMOPS_ALL ==> r == Ok::<MemOps, crate::CapaError>(v as MemOps),
        v > MEMOPS_ALL ==> r == Err::<MemOps, crate::CapaError>(crate::CapaError::InvalidMemOps),
{
    if v <= MEMOPS_ALL as usize {
        Ok(v as MemOps)
    } else {
        Err(crate::CapaError::InvalidMemOps)
    }
}


/// A region capability: who holds it, what it grants, and where it comes from.
///
/// Segmenting a region deactivates it and makes two children one level
/// deeper in the same lineage; `lineage` is the handle of the root region
/// that the chain of segmentations started from.
#[derive(Clone, Copy, Debug)]
pub struct RegionCapa {
    pub domain: Handle,
    pub access: AccessRights,
    pub confidential: bool,
    pub active: bool,
    pub lineage: Handle,
    pub depth: usize,
}

/// `x` was carved, by one or more segmentations, out of `r`.
pub open spec fn descends(x: RegionCapa, r: RegionCapa) -> bool {
    &&& x.lineage == r.lineage
    &&& x.depth > r.depth
    &&& r.access.start <= x.access.start
    &&& x.access.end <= r.access.end
}

pub fn is_descendant(x: &RegionCapa, r: &RegionCapa) -> (b: bool)
    ensures
        b == descends(*x, *r),
{
    x.lineage == r.lineage && x.depth > r.depth && r.access.start <= x.access.start
        && x.access.end <= r.access.end
}

/// A region record as the engine keeps it: a non-empty range, and a depth
/// that leaves room for one more segmentation of every piece.
pub open spec fn region_wf(r: RegionCapa) -> bool {
    &&& r.access.start < r.access.end
    &&& r.depth + (r.access.end - r.access.start) <= usize::MAX
}

} // verus!
