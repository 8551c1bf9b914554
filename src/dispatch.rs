//! Fanning engine updates out to the cores they concern.
//!
//! Platform code drains the engine's queue after every call. Updates about
//! a whole domain are acted on at once; those about one core go to that
//! core's own queue, which only that core drains.
use vstd::prelude::*;

use crate::capa::LocalCapa;
use crate::gen_arena::Handle;
use crate::update::Update;

verus! {

/// Work for one core, taken from its own queue.
#[derive(Clone, Copy, Debug, PartialEq, Eq, Structural)]
pub enum CoreUpdate {
    /// Switch this core to `domain`, which returns through `return_capa`.
    Switch { domain: Handle, return_capa: LocalCapa },
    /// Deliver a trap to `manager`.
    Trap { manager: Handle, trap: u64, info: u64 },
    /// Flush this core's TLB.
    TlbShootdown,
    /// Intercept exactly the traps set in `bitmap`.
    UpdateTrap { bitmap: u64 },
}

/// Where an update is acted on.
#[derive(Clone, Copy, Debug, PartialEq, Eq, Structural)]
pub enum Routed {
    /// Acted on once, by whichever core drained it.
    Global(Update),
    /// Queued for one core.
    Core { core: usize, update: CoreUpdate },
}

pub open spec fn routed(u: Update) -> Routed {
    match u {
        Update::PermissionUpdate { domain } => Routed::Global(u),
        Update::RevokeDomain { domain } => Routed::Global(u),
        Update::CreateDomain { domain } => Routed::Global(u),
        Update::Switch { domain, return_capa, core } => Routed::Core {
            core,
            update: CoreUpdate::Switch { domain, return_capa },
        },
        Update::Trap { manager, trap, info, core } => Routed::Core {
            core,
            update: CoreUpdate::Trap { manager, trap, info },
        },
        Update::TlbShootdown { core } => Routed::Core { core, update: CoreUpdate::TlbShootdown },
        // A domain's TRAP bitmap lists the traps it handles itself; the
        // core intercepts all the others.
        Update::UpdateTraps { trap, core } => Routed::Core { core, update: CoreUpdate::UpdateTrap { bitmap: !trap } },
    }
}

/// Where platform code acts on `u`.
pub fn route(u: Update) -> (r: Routed)
    ensures
        r == routed(u),
{
    match u {
        Update::PermissionUpdate { domain: _ } => Routed::Global(u),
        Update::RevokeDomain { domain: _ } => Routed::Global(u),
        Update::CreateDomain { domain: _ } => Routed::Global(u),
        Update::Switch { domain, return_capa, core } => Routed::Core {
            core,
            update: CoreUpdate::Switch { domain, return_capa },
        },
        Update::Trap { manager, trap, info, core } => Routed::Core {
            core,
            update: CoreUpdate::Trap { manager, trap, info },
        },
        Update::TlbShootdown { core } => Routed::Core { core, update: CoreUpdate::TlbShootdown },
        Update::UpdateTraps { trap, core } => Routed::Core { core, update: CoreUpdate::UpdateTrap { bitmap: !trap } },
    }
}

} // verus!
