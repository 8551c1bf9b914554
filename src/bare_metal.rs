//! Core numbering on hardware with two hyper-threads per physical core,
//! where the first eight logical cores take the even numbers and the next
//! ones the odd numbers.
use vstd::prelude::*;

verus! {

/// How many logical cores a bitmap is remapped for.
pub const NB_REMAPPED_CORES: u64 = 16;

pub open spec fn remapped(core: int) -> int {
    if core < 8 {
        core * 2
    } else {
        (core - 8) * 2 + 1
    }
}

/// The bits of `bitmap` below `n`, each moved to its remapped place.
pub open spec fn remapped_bits(bitmap: u64, n: nat) -> u64
    decreases n,
{
    if n == 0 {
        0
    } else {
        let rest = remapped_bits(bitmap, (n - 1) as nat);
        if bitmap & (1u64 << ((n - 1) as u64)) != 0 {
            rest | (1u64 << (remapped(n - 1) as u64))
        } else {
            rest
        }
    }
}

pub fn remap_core(core: usize) -> (r: usize)
    requires
        core <= usize::MAX / 2,
    ensures
        r == remapped(core as int),
{
    if core < 8 {
        core * 2
    } else {
        (core - 8) * 2 + 1
    }
}

/// `remap_core` applied to the first sixteen cores of a bitmap; the other
/// bits are dropped.
pub fn remap_core_bitmap(bitmap: u64) -> (r: u64)
    ensures
        r == remapped_bits(bitmap, NB_REMAPPED_CORES as nat),
{
    let mut new_bitmap: u64 = 0;
    let mut idx: u64 = 0;
    while idx < NB_REMAPPED_CORES
        invariant
            idx <= NB_REMAPPED_CORES,
            new_bitmap == remapped_bits(bitmap, idx as nat),
        decreases NB_REMAPPED_CORES - idx,
    {
        if bitmap & (1u64 << idx) != 0 {
            let target = remap_core(idx as usize) as u64;
            new_bitmap = new_bitmap | (1u64 << target);
        }
        idx = idx + 1;
    }
    new_bitmap
}

} // verus!
