use capa_engine::region::{AccessRights, MEMOPS_READ, MEMOPS_WRITE};
use capa_engine::bare_metal;
use capa_engine::platform::{self, InitVMCS, MonitorErrors};
use capa_engine::riscv::RegisterState;
use capa_engine::CapaError;

#[test]
fn init_vmcs_from_u64() {
    assert_eq!(InitVMCS::from_u64(1), Ok(InitVMCS::Shared));
    assert_eq!(InitVMCS::from_u64(2), Ok(InitVMCS::Copy));
    assert_eq!(InitVMCS::from_u64(3), Ok(InitVMCS::Fresh));
    assert_eq!(InitVMCS::from_u64(0), Err(CapaError::InvalidOperation));
    assert_eq!(InitVMCS::from_u64(4), Err(CapaError::InvalidOperation));
    assert_eq!(InitVMCS::Copy.as_u64(), 2);
}

#[test]
fn monitor_error_code() {
    assert_eq!(MonitorErrors::DomainRevoked.as_usize(), 66);
}

#[test]
fn identity_core_numbering() {
    assert_eq!(platform::remap_core(5), 5);
    assert_eq!(platform::remap_core_bitmap(0b1011), 0b1011);
}

#[test]
fn hyperthread_core_numbering() {
    assert_eq!(bare_metal::remap_core(0), 0);
    assert_eq!(bare_metal::remap_core(3), 6);
    assert_eq!(bare_metal::remap_core(8), 1);
    assert_eq!(bare_metal::remap_core(10), 5);
    // Cores 0, 1 and 8 become 0, 2 and 1.
    assert_eq!(bare_metal::remap_core_bitmap(0b1_0000_0011), 0b111);
    // Bits past the sixteenth core are dropped.
    assert_eq!(bare_metal::remap_core_bitmap(1 << 20), 0);
    assert_eq!(bare_metal::remap_core_bitmap(1 << 15), 1 << 15);
}

#[test]
fn register_state_cleared() {
    let r = RegisterState::const_default();
    assert_eq!(r.ra, 0);
    assert_eq!(r.a0, 0);
    assert_eq!(r.mstatus, 0);
    assert_eq!(r, RegisterState { mepc: 0, ..r });
}

#[test]
fn find_buffer_in_regions() {
    let regions = vec![
        AccessRights { start: 0x1000, end: 0x2000, ops: MEMOPS_READ, alias: None },
        AccessRights { start: 0x8000, end: 0x9000, ops: MEMOPS_READ | MEMOPS_WRITE, alias: Some(0x1000) },
        AccessRights { start: 0x3000, end: 0x4000, ops: MEMOPS_WRITE, alias: None },
    ];
    // Read-only at its own address: skipped; the aliased one translates.
    assert_eq!(platform::find_buff(&regions, 0x1100, 0x1200), Some(0x8100));
    assert_eq!(platform::find_buff(&regions, 0x3f00, 0x4000), Some(0x3f00));
    // Runs past the end of every region.
    assert_eq!(platform::find_buff(&regions, 0x3f00, 0x4001), None);
    assert_eq!(platform::find_buff(&vec![], 0, 1), None);
}
