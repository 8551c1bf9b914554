//! A capability engine that partitions a machine into isolated protection domains.
//!
//! Domains, memory regions and core bindings are tracked in fixed-size,
//! generation-checked arenas; every change that platform code must mirror in
//! hardware is queued as an `Update`.
use vstd::prelude::*;

pub mod bare_metal;
pub mod capa;
pub mod config;
pub mod cores;
pub mod dispatch;
pub mod domain;
pub mod engine;
pub mod free_list;
pub mod gen_arena;
pub mod hypercalls;
pub mod laws;
pub mod permission;
pub mod platform;
pub mod region;
pub mod riscv;
pub mod update;

pub use capa::{Capa, CapaInfo, LocalCapa, NextCapaToken};
pub use domain::{Bitmaps, Domain};
pub use engine::CapaEngine;
pub use gen_arena::{GenArena, Handle};
pub use region::{AccessRights, MemOps, RegionCapa, MEMOPS_ALL};
pub use update::{Buffer, Update};

verus! {

/// Every way an engine operation can be refused.
#[derive(Clone, Copy, Debug, PartialEq, Eq, Structural)]
pub enum CapaError {
    CannotDuplicate,
    InvalidDuplicate,
    InvalidInstall,
    InternalRegionError,
    InvalidRegion,
    WrongCapabilityType,
    CapabilityDoesNotExist,
    AlreadySealed,
    InsufficientPermissions,
    InvalidPermissions,
    OutOfMemory,
    CouldNotDeserializeInfo,
    InvalidCore,
    CouldNotHandleTrap,
    ValidTrapCausedExit,
    InvalidSwitch,
    InvalidVcpuType,
    InvalidOperation,
    InvalidValue,
    InvalidMemOps,
}

} // verus!
