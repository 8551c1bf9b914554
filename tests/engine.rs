use capa_engine::capa::{Capa, CapaInfo, LocalCapa, NextCapaToken};
use capa_engine::config::{NB_CAPAS_PER_DOMAIN, NB_DOMAINS};
use capa_engine::domain::Bitmaps;
use capa_engine::engine::CapaEngine;
use capa_engine::gen_arena::Handle;
use capa_engine::permission;
use capa_engine::region::{AccessRights, MEMOPS_ALL, MEMOPS_EXEC, MEMOPS_READ, MEMOPS_WRITE};
use capa_engine::update::Update;
use capa_engine::CapaError;

fn rights(start: usize, end: usize, ops: u32) -> AccessRights {
    AccessRights { start, end, ops, alias: None }
}

fn drain(engine: &mut CapaEngine) -> Vec<Update> {
    let mut out = Vec::new();
    while let Some(u) = engine.pop_update() {
        out.push(u);
    }
    out
}

/// A manager with every permission and a root region, and an unsealed child.
fn manager_and_child(engine: &mut CapaEngine) -> (Handle, LocalCapa, LocalCapa, Handle) {
    let m = engine.create_manager_domain(permission::ALL).unwrap();
    let root = engine.create_root_region(m, rights(0, 0x1000, MEMOPS_ALL)).unwrap();
    let child_capa = engine.create_domain(m).unwrap();
    let child = engine.get_domain_capa(m, child_capa).unwrap();
    drain(engine);
    (m, root, child_capa, child)
}

#[test]
fn end_to_end_scenario() {
    let mut engine = CapaEngine::new();
    let (m, root, child_capa, child) = manager_and_child(&mut engine);

    let (left, _right) = engine
        .segment_region(m, root, rights(0, 0x100, MEMOPS_READ | MEMOPS_WRITE), rights(0x100, 0x1000, MEMOPS_ALL))
        .unwrap();
    engine.send(m, left, child_capa).unwrap();
    assert_eq!(engine.domain_regions(child), vec![rights(0, 0x100, MEMOPS_READ | MEMOPS_WRITE)]);
    engine.set_child_config(m, child_capa, Bitmaps::CORE, 0b10).unwrap();
    let switch = engine.seal(m, 0, child_capa).unwrap();
    assert!(engine.is_sealed(child));
    drain(&mut engine);

    // Core 0 is not in the child's CORE bitmap: nothing changes.
    assert_eq!(engine.switch(m, 0, switch), Err(CapaError::InvalidCore));
    assert_eq!(engine.pop_update(), None);

    // Core 1 is.
    engine.switch(m, 1, switch).unwrap();
    let updates = drain(&mut engine);
    assert_eq!(updates.len(), 2);
    assert!(matches!(updates[0], Update::Switch { domain, core: 1, .. } if domain == child));
    assert_eq!(updates[1], Update::UpdateTraps { trap: 0, core: 1 });
}

#[test]
fn switch_succeeds_on_allowed_core() {
    let mut engine = CapaEngine::new();
    let (m, _root, child_capa, child) = manager_and_child(&mut engine);
    engine.set_child_config(m, child_capa, Bitmaps::CORE, 0b11).unwrap();
    engine.set_child_config(m, child_capa, Bitmaps::TRAP, 0b100).unwrap();
    let switch = engine.seal(m, 1, child_capa).unwrap();
    engine.start_domain_on_core(m, 1).unwrap();
    drain(&mut engine);

    engine.switch(m, 1, switch).unwrap();
    let updates = drain(&mut engine);
    assert_eq!(updates.len(), 2);
    match updates[0] {
        Update::Switch { domain, core, .. } => {
            assert_eq!(domain, child);
            assert_eq!(core, 1);
        }
        _ => panic!("expected a switch update"),
    }
    assert_eq!(updates[1], Update::UpdateTraps { trap: 0b100, core: 1 });
    // The switch capability was used up.
    assert_eq!(engine.switch(m, 1, switch), Err(CapaError::CapabilityDoesNotExist));
}

#[test]
fn domain_pool_capacity() {
    let mut engine = CapaEngine::new();
    for _ in 0..NB_DOMAINS {
        engine.create_manager_domain(permission::ALL).unwrap();
    }
    assert_eq!(engine.create_manager_domain(permission::ALL), Err(CapaError::OutOfMemory));
}

#[test]
fn send_moves_capability() {
    let mut engine = CapaEngine::new();
    let (m, root, child_capa, child) = manager_and_child(&mut engine);
    engine.send(m, root, child_capa).unwrap();
    assert_eq!(engine.enumerate(child, NextCapaToken::new()).map(|(info, _)| info), Some(CapaInfo::Region {
        start: 0,
        end: 0x1000,
        active: true,
        confidential: true,
        ops: MEMOPS_ALL,
    }));
    // The slot of the sender is empty now.
    assert_eq!(engine.send(m, root, child_capa), Err(CapaError::CapabilityDoesNotExist));
    let updates = drain(&mut engine);
    assert_eq!(updates, vec![Update::PermissionUpdate { domain: m }, Update::PermissionUpdate { domain: child }]);
}

#[test]
fn send_to_full_table_keeps_capability() {
    let mut engine = CapaEngine::new();
    let (m, root, child_capa, child) = manager_and_child(&mut engine);
    for _ in 0..NB_CAPAS_PER_DOMAIN {
        engine.create_switch(child, 0).unwrap();
    }
    assert_eq!(engine.create_switch(child, 0), Err(CapaError::OutOfMemory));
    assert_eq!(engine.send(m, root, child_capa), Err(CapaError::OutOfMemory));
    // Still with the sender, and still usable.
    let (left, right) = engine
        .segment_region(m, root, rights(0, 0x10, MEMOPS_READ), rights(0x10, 0x1000, MEMOPS_READ))
        .unwrap();
    assert_ne!(left, right);
}

#[test]
fn send_aliased_sets_alias() {
    let mut engine = CapaEngine::new();
    let (m, root, child_capa, child) = manager_and_child(&mut engine);
    assert_eq!(engine.send_aliased(m, child_capa, child_capa, 0x5000), Err(CapaError::WrongCapabilityType));
    engine.send_aliased(m, root, child_capa, 0x5000).unwrap();
    assert_eq!(engine.domain_regions(child), vec![AccessRights { start: 0, end: 0x1000, ops: MEMOPS_ALL, alias: Some(0x5000) }]);
    assert_eq!(engine.domain_regions(m), vec![]);
}

#[test]
fn enumerate_resumes_after_token() {
    let mut engine = CapaEngine::new();
    let (m, _root, _child_capa, _child) = manager_and_child(&mut engine);
    let (first, next) = engine.enumerate(m, NextCapaToken::new()).unwrap();
    assert!(matches!(first, CapaInfo::Region { start: 0, end: 0x1000, .. }));
    assert_eq!(next.as_usize(), 1);
    let (second, next) = engine.enumerate(m, next).unwrap();
    assert!(matches!(second, CapaInfo::Management { sealed: false, .. }));
    assert_eq!(engine.enumerate(m, next), None);
    assert_eq!(engine.enumerate(Handle::new_invalid(), NextCapaToken::new()), None);
}

#[test]
fn get_domain_capa_errors() {
    let mut engine = CapaEngine::new();
    let (m, root, _child_capa, _child) = manager_and_child(&mut engine);
    assert_eq!(engine.get_domain_capa(m, root), Err(CapaError::WrongCapabilityType));
    assert_eq!(engine.get_domain_capa(m, LocalCapa::new(7)), Err(CapaError::CapabilityDoesNotExist));
    assert_eq!(engine.get_domain_capa(Handle::new_invalid(), root), Err(CapaError::CapabilityDoesNotExist));
}

#[test]
fn segment_partitions_region() {
    let mut engine = CapaEngine::new();
    let (m, root, _child_capa, _child) = manager_and_child(&mut engine);
    let (l, r) = engine
        .segment_region(m, root, rights(0, 0x400, MEMOPS_READ), rights(0x400, 0x1000, MEMOPS_READ | MEMOPS_EXEC))
        .unwrap();
    let mut seen = Vec::new();
    let mut token = NextCapaToken::new();
    while let Some((info, next)) = engine.enumerate(m, token) {
        seen.push(info);
        token = next;
    }
    assert!(seen.contains(&CapaInfo::Region { start: 0, end: 0x1000, active: false, confidential: true, ops: MEMOPS_ALL }));
    assert!(seen.contains(&CapaInfo::Region { start: 0, end: 0x400, active: true, confidential: true, ops: MEMOPS_READ }));
    assert!(seen.contains(&CapaInfo::Region {
        start: 0x400,
        end: 0x1000,
        active: true,
        confidential: true,
        ops: MEMOPS_READ | MEMOPS_EXEC
    }));
    assert_ne!(l, r);
}

#[test]
fn segment_cannot_widen_rights() {
    let mut engine = CapaEngine::new();
    let m = engine.create_manager_domain(permission::ALL).unwrap();
    let root = engine.create_root_region(m, rights(0, 0x1000, MEMOPS_READ)).unwrap();
    assert_eq!(
        engine.segment_region(m, root, rights(0, 0x100, MEMOPS_READ | MEMOPS_WRITE), rights(0x100, 0x1000, MEMOPS_READ)),
        Err(CapaError::InvalidMemOps)
    );
    assert_eq!(
        engine.segment_region(m, root, rights(0, 0x100, MEMOPS_READ), rights(0x200, 0x1000, MEMOPS_READ)),
        Err(CapaError::InvalidRegion)
    );
    assert_eq!(
        engine.segment_region(m, root, rights(0, 0, MEMOPS_READ), rights(0, 0x1000, MEMOPS_READ)),
        Err(CapaError::InvalidRegion)
    );
}

#[test]
fn no_privilege_escalation() {
    let mut engine = CapaEngine::new();
    let m = engine.create_manager_domain(permission::SPAWN).unwrap();
    let child_capa = engine.create_domain(m).unwrap();
    assert_eq!(
        engine.set_child_config(m, child_capa, Bitmaps::PERMISSION, permission::SEND),
        Err(CapaError::InsufficientPermissions)
    );
    assert_eq!(engine.set_child_config(m, child_capa, Bitmaps::PERMISSION, permission::SPAWN), Ok(()));
    let child = engine.get_domain_capa(m, child_capa).unwrap();
    assert_eq!(engine.get_domain_config(child, Bitmaps::PERMISSION), permission::SPAWN);
}

#[test]
fn sealed_domain_is_frozen() {
    let mut engine = CapaEngine::new();
    let (m, _root, child_capa, child) = manager_and_child(&mut engine);
    engine.set_domain_config(child, Bitmaps::TRAP, 1).unwrap();
    engine.seal(m, 0, child_capa).unwrap();
    assert_eq!(engine.set_domain_config(child, Bitmaps::TRAP, 2), Err(CapaError::AlreadySealed));
    assert_eq!(engine.set_child_config(m, child_capa, Bitmaps::CORE, 1), Err(CapaError::AlreadySealed));
    assert_eq!(engine.seal(m, 0, child_capa), Err(CapaError::AlreadySealed));
    assert_eq!(engine.set_domain_config(m, Bitmaps::TRAP, 0), Err(CapaError::AlreadySealed));
    assert_eq!(engine.get_domain_config(child, Bitmaps::TRAP), 1);
}

#[test]
fn trap_routing_up_the_chain() {
    let mut engine = CapaEngine::new();
    let d0 = engine.create_manager_domain(permission::ALL).unwrap();
    let c1 = engine.create_domain(d0).unwrap();
    engine.set_child_config(d0, c1, Bitmaps::PERMISSION, permission::SPAWN).unwrap();
    let d1 = engine.get_domain_capa(d0, c1).unwrap();
    let c2 = engine.create_domain(d1).unwrap();
    let d2 = engine.get_domain_capa(d1, c2).unwrap();
    drain(&mut engine);

    // The root claims every trap below 64.
    engine.handle_trap(d2, 3, 14, 0xdead).unwrap();
    assert_eq!(drain(&mut engine), vec![
        Update::Trap { manager: d0, trap: 14, info: 0xdead, core: 3 },
        Update::UpdateTraps { trap: u64::MAX, core: 3 }
    ]);
    // Nobody claims trap 64.
    assert_eq!(engine.handle_trap(d2, 3, 64, 0), Err(CapaError::CouldNotHandleTrap));
    // A domain that claims its own trap should never have exited.
    assert_eq!(engine.handle_trap(d0, 0, 1, 0), Err(CapaError::ValidTrapCausedExit));
    assert_eq!(engine.pop_update(), None);
}

#[test]
fn create_domain_queues_one_update() {
    let mut engine = CapaEngine::new();
    let m = engine.create_manager_domain(permission::ALL).unwrap();
    assert_eq!(engine.pop_update(), Some(Update::CreateDomain { domain: m }));
    assert_eq!(engine.pop_update(), None);
    let c = engine.create_domain(m).unwrap();
    let child = engine.get_domain_capa(m, c).unwrap();
    assert_eq!(engine.pop_update(), Some(Update::CreateDomain { domain: child }));
    assert_eq!(engine.pop_update(), None);
    assert_eq!(engine.pop_update(), None);
}

#[test]
fn create_domain_needs_spawn() {
    let mut engine = CapaEngine::new();
    let m = engine.create_manager_domain(permission::SEND).unwrap();
    assert_eq!(engine.create_domain(m), Err(CapaError::InsufficientPermissions));
    assert_eq!(engine.create_domain(Handle::new_invalid()), Err(CapaError::CapabilityDoesNotExist));
}

#[test]
fn duplicate_only_channels() {
    let mut engine = CapaEngine::new();
    let (m, root, child_capa, _child) = manager_and_child(&mut engine);
    assert_eq!(engine.duplicate(m, root), Err(CapaError::CannotDuplicate));
    assert_eq!(engine.duplicate(m, child_capa), Err(CapaError::CannotDuplicate));
    assert_eq!(engine.duplicate(m, LocalCapa::new(100)), Err(CapaError::CapabilityDoesNotExist));
}

#[test]
fn management_cannot_form_cycle() {
    let mut engine = CapaEngine::new();
    let (m, _root, child_capa, child) = manager_and_child(&mut engine);
    // Making the child its own manager would close a loop.
    assert_eq!(engine.send(m, child_capa, child_capa), Err(CapaError::InvalidOperation));
    // Handing it to a sibling is fine: the sibling becomes its manager.
    let sibling_capa = engine.create_domain(m).unwrap();
    let sibling = engine.get_domain_capa(m, sibling_capa).unwrap();
    assert_eq!(engine.send(m, child_capa, sibling_capa), Ok(()));
    assert_eq!(engine.get_domain_capa(m, child_capa), Err(CapaError::CapabilityDoesNotExist));
    let (info, _) = engine.enumerate(sibling, NextCapaToken::new()).unwrap();
    match info {
        CapaInfo::Management { sealed, .. } => assert!(!sealed),
        _ => panic!("expected the management capability"),
    }
    let _ = child;
}

#[test]
fn root_region_checks() {
    let mut engine = CapaEngine::new();
    let m = engine.create_manager_domain(permission::ALL).unwrap();
    assert_eq!(engine.create_root_region(m, rights(0x10, 0x10, MEMOPS_READ)), Err(CapaError::InvalidRegion));
    assert_eq!(engine.create_root_region(m, rights(0, 0x10, 0x10)), Err(CapaError::InvalidMemOps));
    let lc = engine.create_root_region(m, rights(0, 0x10, MEMOPS_READ)).unwrap();
    assert_eq!(lc, LocalCapa::new(0));
}

#[test]
fn enumerate_domains_in_slot_order() {
    let mut engine = CapaEngine::new();
    let a = engine.create_manager_domain(permission::ALL).unwrap();
    let b = engine.create_manager_domain(permission::ALL).unwrap();
    let c = engine.create_manager_domain(permission::ALL).unwrap();
    engine.revoke_domain(a).unwrap();
    // Tokens count live domains, not slots.
    let (first, next) = engine.enumerate_domains(NextCapaToken::new()).unwrap();
    assert_eq!(first, b);
    assert_eq!(next.as_usize(), 1);
    let (second, next) = engine.enumerate_domains(next).unwrap();
    assert_eq!(second, c);
    assert_eq!(next.as_usize(), 2);
    assert_eq!(engine.enumerate_domains(next), None);
}

#[test]
fn start_on_core_checks_range() {
    let mut engine = CapaEngine::new();
    let m = engine.create_manager_domain(permission::ALL).unwrap();
    assert_eq!(engine.start_domain_on_core(m, 32), Err(CapaError::InvalidCore));
    assert_eq!(engine.start_domain_on_core(m, 0), Ok(()));
    assert_eq!(engine.start_domain_on_core(m, 0), Err(CapaError::InvalidCore));
}

#[test]
fn capa_values() {
    assert_eq!(Capa::Empty, Capa::Empty);
}
