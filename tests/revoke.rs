use capa_engine::capa::{CapaInfo, LocalCapa, NextCapaToken};
use capa_engine::domain::Bitmaps;
use capa_engine::engine::CapaEngine;
use capa_engine::gen_arena::Handle;
use capa_engine::permission;
use capa_engine::region::{AccessRights, MEMOPS_ALL, MEMOPS_READ};
use capa_engine::update::Update;
use capa_engine::CapaError;

fn rights(start: usize, end: usize, ops: u32) -> AccessRights {
    AccessRights { start, end, ops, alias: None }
}

fn drain(engine: &mut CapaEngine) -> Vec<Update> {
    let mut out = Vec::new();
    while let Some(u) = engine.pop_update() {
        out.push(u);
    }
    out
}

fn infos(engine: &CapaEngine, d: Handle) -> Vec<CapaInfo> {
    let mut seen = Vec::new();
    let mut token = NextCapaToken::new();
    while let Some((info, next)) = engine.enumerate(d, token) {
        seen.push(info);
        token = next;
    }
    seen
}

fn setup(engine: &mut CapaEngine) -> (Handle, LocalCapa, LocalCapa, Handle) {
    let m = engine.create_manager_domain(permission::ALL).unwrap();
    let root = engine.create_root_region(m, rights(0, 0x1000, MEMOPS_ALL)).unwrap();
    let child_capa = engine.create_domain(m).unwrap();
    let child = engine.get_domain_capa(m, child_capa).unwrap();
    drain(engine);
    (m, root, child_capa, child)
}

#[test]
fn restore_takes_pieces_back() {
    let mut engine = CapaEngine::new();
    let (m, root, child_capa, child) = setup(&mut engine);
    let (left, right) =
        engine.segment_region(m, root, rights(0, 0x100, MEMOPS_READ), rights(0x100, 0x1000, MEMOPS_ALL)).unwrap();
    engine.send(m, left, child_capa).unwrap();
    drain(&mut engine);
    assert_eq!(engine.domain_regions(m), vec![rights(0x100, 0x1000, MEMOPS_ALL)]);
    assert_eq!(engine.domain_regions(child), vec![rights(0, 0x100, MEMOPS_READ)]);

    engine.revoke(m, root).unwrap();
    assert_eq!(drain(&mut engine), vec![
        Update::PermissionUpdate { domain: child },
        Update::PermissionUpdate { domain: m },
        Update::PermissionUpdate { domain: m },
    ]);
    assert_eq!(engine.domain_regions(m), vec![rights(0, 0x1000, MEMOPS_ALL)]);
    assert_eq!(engine.domain_regions(child), vec![]);
    assert_eq!(infos(&engine, child), vec![]);
    // The right piece is gone from the manager's table too.
    assert_eq!(engine.revoke(m, right), Err(CapaError::CapabilityDoesNotExist));
    assert_eq!(engine.restore_region(m, child_capa), Err(CapaError::WrongCapabilityType));
}

#[test]
fn revoke_domain_cascades() {
    let mut engine = CapaEngine::new();
    let (m, root, child_capa, child) = setup(&mut engine);
    engine.set_child_config(m, child_capa, Bitmaps::PERMISSION, permission::SPAWN).unwrap();
    let grand_capa = engine.create_domain(child).unwrap();
    let grand = engine.get_domain_capa(child, grand_capa).unwrap();
    engine.send(m, root, child_capa).unwrap();
    drain(&mut engine);

    engine.revoke(m, child_capa).unwrap();
    let updates = drain(&mut engine);
    assert_eq!(updates, vec![
        Update::RevokeDomain { domain: child },
        Update::RevokeDomain { domain: grand },
        Update::PermissionUpdate { domain: m },
    ]);
    assert_eq!(engine.revoke_domain(child), Err(CapaError::CapabilityDoesNotExist));
    assert_eq!(engine.create_domain(grand), Err(CapaError::CapabilityDoesNotExist));
    // The management capability left the manager's table, and the region the
    // child held came back to the manager, in the lowest free slot.
    assert_eq!(infos(&engine, m), vec![CapaInfo::Region {
        start: 0,
        end: 0x1000,
        active: true,
        confidential: true,
        ops: MEMOPS_ALL
    }]);
    assert_eq!(engine.domain_regions(m), vec![rights(0, 0x1000, MEMOPS_ALL)]);
    assert_eq!(engine.get_domain_capa(m, root), Err(CapaError::WrongCapabilityType));
}

#[test]
fn revoked_handle_never_resolves_again() {
    let mut engine = CapaEngine::new();
    let (m, _root, child_capa, child) = setup(&mut engine);
    engine.revoke(m, child_capa).unwrap();
    let again = engine.create_domain(m).unwrap();
    let reborn = engine.get_domain_capa(m, again).unwrap();
    assert_eq!(reborn.idx, child.idx);
    assert_ne!(reborn, child);
    assert_eq!(engine.set_domain_config(child, Bitmaps::CORE, 1), Err(CapaError::CapabilityDoesNotExist));
    assert_eq!(engine.set_domain_config(reborn, Bitmaps::CORE, 1), Ok(()));
}

#[test]
fn revoking_a_top_domain_drops_its_regions() {
    let mut engine = CapaEngine::new();
    let (m, _root, _child_capa, child) = setup(&mut engine);
    engine.revoke_domain(m).unwrap();
    assert_eq!(drain(&mut engine), vec![Update::RevokeDomain { domain: m }, Update::RevokeDomain { domain: child }]);
    assert_eq!(engine.enumerate_domains(NextCapaToken::new()), None);
}

#[test]
fn revoke_channel_like_capability() {
    let mut engine = CapaEngine::new();
    let (m, _root, _child_capa, _child) = setup(&mut engine);
    let switch = engine.create_switch(m, 0).unwrap();
    engine.revoke(m, switch).unwrap();
    assert_eq!(engine.revoke(m, switch), Err(CapaError::CapabilityDoesNotExist));
    assert_eq!(engine.pop_update(), None);
}
