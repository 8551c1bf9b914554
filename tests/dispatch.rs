use capa_engine::capa::LocalCapa;
use capa_engine::dispatch::{route, CoreUpdate, Routed};
use capa_engine::engine::CapaEngine;
use capa_engine::gen_arena::Handle;
use capa_engine::permission;
use capa_engine::region::{memops_from_usize, AccessRights, MEMOPS_ALL, MEMOPS_READ, MEMOPS_WRITE};
use capa_engine::update::{Buffer, Update};
use capa_engine::CapaError;

#[test]
fn routes_per_core_updates() {
    let d = Handle { idx: 1, gen: 2 };
    assert_eq!(route(Update::CreateDomain { domain: d }), Routed::Global(Update::CreateDomain { domain: d }));
    assert_eq!(
        route(Update::Switch { domain: d, return_capa: LocalCapa::new(4), core: 3 }),
        Routed::Core { core: 3, update: CoreUpdate::Switch { domain: d, return_capa: LocalCapa::new(4) } }
    );
    assert_eq!(
        route(Update::UpdateTraps { trap: 0b1010, core: 0 }),
        Routed::Core { core: 0, update: CoreUpdate::UpdateTrap { bitmap: !0b1010u64 } }
    );
    assert_eq!(route(Update::TlbShootdown { core: 7 }), Routed::Core { core: 7, update: CoreUpdate::TlbShootdown });
}

#[test]
fn memops_parsing() {
    assert_eq!(memops_from_usize(3), Ok(MEMOPS_READ | MEMOPS_WRITE));
    assert_eq!(memops_from_usize(15), Ok(MEMOPS_ALL));
    assert_eq!(memops_from_usize(16), Err(CapaError::InvalidMemOps));
}

#[test]
fn bounded_buffer_refuses_when_full() {
    let mut b: Buffer<u8> = Buffer::new(2);
    assert_eq!(b.push(1), Ok(()));
    assert_eq!(b.push(2), Ok(()));
    assert_eq!(b.push(3), Err(3));
    assert_eq!(b.len(), 2);
    assert_eq!(b.pop(), Some(1));
    assert_eq!(b.pop(), Some(2));
    assert_eq!(b.pop(), None);
}

#[test]
fn root_regions_may_not_conflict() {
    let mut engine = CapaEngine::new();
    let m = engine.create_manager_domain(permission::ALL).unwrap();
    let rights = |start, end, ops| AccessRights { start, end, ops, alias: None };
    engine.create_root_region(m, rights(0, 0x1000, MEMOPS_READ)).unwrap();
    assert_eq!(engine.create_root_region(m, rights(0x800, 0x2000, MEMOPS_ALL)), Err(CapaError::InvalidRegion));
    assert!(engine.create_root_region(m, rights(0x800, 0x2000, MEMOPS_READ)).is_ok());
    assert!(engine.create_root_region(m, rights(0x2000, 0x3000, MEMOPS_ALL)).is_ok());
}

#[test]
fn full_update_queue_refuses_operations() {
    let mut engine = CapaEngine::new();
    let m = engine.create_manager_domain(permission::ALL).unwrap();
    // One update for the domain, one per root region: 128 fill the queue.
    for i in 0..127usize {
        let r = AccessRights { start: i * 0x1000, end: (i + 1) * 0x1000, ops: MEMOPS_READ, alias: None };
        engine.create_root_region(m, r).unwrap();
    }
    let r = AccessRights { start: 0x100_0000, end: 0x100_1000, ops: MEMOPS_READ, alias: None };
    assert_eq!(engine.create_root_region(m, r), Err(CapaError::OutOfMemory));
    assert_eq!(engine.create_domain(m), Err(CapaError::OutOfMemory));
    // Nothing queued was lost.
    assert_eq!(engine.pop_update(), Some(Update::CreateDomain { domain: m }));
    let mut n = 0;
    while let Some(u) = engine.pop_update() {
        assert_eq!(u, Update::PermissionUpdate { domain: m });
        n += 1;
    }
    assert_eq!(n, 127);
    assert!(engine.create_domain(m).is_ok());
}
