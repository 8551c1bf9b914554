//! Properties that hold across the engine's operations.
use vstd::prelude::*;

use crate::capa::{Capa, LocalCapa};
use crate::domain::{handles_trap, Bitmaps};
use crate::engine::{handler_from, CapaEngine};
use crate::gen_arena::{evolves, Handle};
use crate::region::{contains_addr, ops_within, tiles, AccessRights};
use crate::CapaError;

verus! {

/// A successful send to another domain leaves the sender's slot empty and
/// puts the capability in the receiver's table; the receiver is the only
/// other domain whose table changes. (A failed send changes nothing, so the
/// capability stays with the sender.)
pub proof fn lemma_send_conserves(e: CapaEngine, domain: Handle, capa: LocalCapa, to: LocalCapa, j: int)
    requires
        e.wf(),
        e.send_error(domain, capa, to) is None,
        e.send_target(domain, to) != domain,
        crate::domain::is_first_free(e.dom(e.send_target(domain, to)).capas, j),
    ensures
        ({
            let target = e.send_target(domain, to);
            let after = e.moved(domain, capa, target, j);
            &&& after[domain].capas[capa.idx as int] == Capa::Empty
            &&& after[target].capas[j] == e.capa_at(domain, capa.idx)
            &&& forall|d: Handle|
                #[trigger] after.contains_key(d) && d != domain && d != target ==> after[d].capas == e.dom(d).capas
        }),
{
    let target = e.send_target(domain, to);
    e.lemma_tables(domain);
    e.lemma_tables(target);
}

/// The two pieces of a segmentation cover exactly the parent's range, and
/// no address lies in both.
pub proof fn lemma_segments_partition(parent: AccessRights, left: AccessRights, right: AccessRights)
    requires
        tiles(parent, left, right),
    ensures
        forall|x: int| #[trigger] contains_addr(parent, x) <==> contains_addr(left, x) || contains_addr(right, x),
        forall|x: int| !(#[trigger] contains_addr(left, x) && contains_addr(right, x)),
{
}

/// Segmenting with rights that are not within the region's own fails with
/// `InvalidMemOps`, once the region and the ranges are otherwise in order.
pub proof fn lemma_segment_cannot_widen(
    e: CapaEngine,
    domain: Handle,
    capa: LocalCapa,
    left: AccessRights,
    right: AccessRights,
)
    requires
        e.wf(),
        e.live(domain),
        crate::domain::holds_config(e.dom(domain), Bitmaps::PERMISSION, crate::permission::DUPLICATE),
        e.capa_at(domain, capa.idx) is Region,
        e.region_map().contains_key(e.capa_at(domain, capa.idx)->Region_0),
        ({
            let reg = e.region_map()[e.capa_at(domain, capa.idx)->Region_0];
            &&& reg.domain == domain
            &&& reg.active
            &&& tiles(reg.access, left, right)
            &&& !ops_within(left.ops, reg.access.ops) || !ops_within(right.ops, reg.access.ops)
        }),
    ensures
        e.segment_region_error(domain, capa, left, right) == Some(CapaError::InvalidMemOps),
{
}

/// A manager cannot grant a child a permission that it lacks itself.
pub proof fn lemma_no_privilege_escalation(e: CapaEngine, manager: Handle, capa: LocalCapa, value: u64)
    requires
        e.live(manager),
        value & !e.dom(manager).permissions != 0,
    ensures
        e.set_child_config_error(manager, capa, Bitmaps::PERMISSION, value) == Some(
            CapaError::InsufficientPermissions,
        ),
{
    let p = e.dom(manager).permissions;
    assert(value & !p != 0 ==> p & value != value) by (bit_vector);
}

/// A sealed domain's configuration is frozen: setting it, from the domain
/// or from its manager, fails with `AlreadySealed` once the other checks
/// pass, and so does sealing it again.
pub proof fn lemma_sealed_is_frozen(
    e: CapaEngine,
    manager: Handle,
    capa: LocalCapa,
    child: Handle,
    bitmap: Bitmaps,
    value: u64,
    core: usize,
)
    requires
        e.live(manager),
        e.live(child),
        e.dom(child).sealed,
        e.capa_at(manager, capa.idx) == Capa::Management(child),
        crate::domain::holds_config(e.dom(manager), bitmap, value),
    ensures
        e.set_domain_config_error(child) == Some(CapaError::AlreadySealed),
        e.set_child_config_error(manager, capa, bitmap, value) == Some(CapaError::AlreadySealed),
        e.seal_error(manager, core, capa) == Some(CapaError::AlreadySealed),
{
}

/// Along a chain of managers d0 <- d1 <- d2 where neither d1 nor d2 claims
/// a trap: when d0 does not claim it either, the trap cannot be handled;
/// when d0 does, d0 is the domain that takes it.
pub proof fn lemma_trap_routing(e: CapaEngine, d0: Handle, d1: Handle, d2: Handle, trap: u64)
    requires
        e.live(d0),
        e.live(d1),
        e.live(d2),
        e.dom(d2).manager == Some(d1),
        e.dom(d1).manager == Some(d0),
        e.dom(d0).manager is None,
        !handles_trap(e.dom(d2), trap),
        !handles_trap(e.dom(d1), trap),
    ensures
        !handles_trap(e.dom(d0), trap) ==> e.handle_trap_error(d2, trap) == Some(CapaError::CouldNotHandleTrap),
        handles_trap(e.dom(d0), trap) ==> e.trap_handler(d2, trap) == Some(d0),
        handles_trap(e.dom(d0), trap) && e.update_room() >= 2 ==> e.handle_trap_error(d2, trap) is None,
{
    let m = e.domain_map();
    assert(handler_from(m, Some(d1), trap, 32) == handler_from(m, Some(d0), trap, 31));
    assert(handler_from(m, Some(d0), trap, 31) == if handles_trap(m[d0], trap) {
        Some(d0)
    } else {
        handler_from(m, None, trap, 30)
    });
}

/// A revoked domain handle never resolves again. Revocation raises the
/// generation of its slot past the handle's (`retires_freed`), every engine
/// operation lets generations only grow (`evolves` of the domain slots,
/// which composes over any sequence of calls by `lemma_evolves_trans`), and
/// a domain created later in the same slot gets a different handle.
pub proof fn lemma_revoked_stays_dead(before: CapaEngine, later: CapaEngine, h: Handle)
    requires
        later.wf(),
        h.idx < before.domain_slots().len(),
        before.domain_slots()[h.idx as int].gen > h.gen,
        evolves(before.domain_slots(), later.domain_slots()),
    ensures
        !later.live(h),
{
    later.lemma_slots();
}

/// Domain ids are fresh: every live domain's id is at most `last_id`, and
/// the next domain created gets `last_id + 1`.
pub proof fn lemma_ids_fresh(e: CapaEngine, d: Handle)
    requires
        e.wf(),
        e.live(d),
    ensures
        1 <= e.dom(d).id <= e.last_id(),
        e.dom(d).id != e.last_id() + 1,
{
    e.lemma_tables(d);
}

/// A full domain pool refuses new domains with `OutOfMemory`, and a full
/// region pool refuses new root regions the same way, once the other
/// checks pass.
pub proof fn lemma_full_pools(e: CapaEngine, m: Handle, access: AccessRights)
    requires
        e.wf(),
    ensures
        (forall|i: int| 0 <= i < crate::config::NB_DOMAINS ==> (#[trigger] e.domain_slots()[i]).value is Some)
            ==> e.domain_room() == 0 && (e.live(m) && crate::domain::holds_config(
            e.dom(m),
            Bitmaps::PERMISSION,
            crate::permission::SPAWN,
        ) ==> e.create_domain_error(m) == Some(CapaError::OutOfMemory)),
        (forall|i: int| 0 <= i < crate::config::NB_REGIONS ==> (#[trigger] e.region_slots()[i]).value is Some)
            ==> e.region_room() == 0 && (e.create_root_region_error(m, access) is Some) && (e.live(m) && access.start
            < access.end && ops_within(access.ops, crate::region::MEMOPS_ALL) && !(exists|x: Handle|
            #[trigger] e.region_map().contains_key(x) && crate::engine::conflicts(e.region_map()[x], m, access))
            ==> e.create_root_region_error(m, access) == Some(CapaError::OutOfMemory)),
{
    e.lemma_slots();
}

} // verus!
