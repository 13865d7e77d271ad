//! The protected write primitive and the instruction-byte helpers.

use sigpatch::memory::write_bytes;
use sigpatch::memory::write_call;
use sigpatch::memory::write_jump;
use sigpatch::memory::write_nops;
use sigpatch::region::MemorySpace;
use sigpatch::region::Protection;
use sigpatch::region::Region;

fn one_region_space(base: usize, protect: Protection, data: Vec<u8>) -> MemorySpace {
    MemorySpace { regions: vec![Region { base, protect, data }] }
}

#[test]
fn write_bytes_overwrites_target_and_nothing_else() {
    let mut space = one_region_space(0x1000, Protection::ExecuteRead, vec![0u8; 8]);
    assert!(write_bytes(&mut space, 0x1003, &vec![0xAA, 0xBB]));
    assert_eq!(space.regions[0].data, vec![0, 0, 0, 0xAA, 0xBB, 0, 0, 0]);
}

#[test]
fn write_bytes_restores_protection() {
    // The region's protection reads back exactly as it was before the
    // write began.
    for protect in [
        Protection::ExecuteRead,
        Protection::ExecuteReadWrite,
        Protection::ReadOnly,
        Protection::ReadWrite,
    ] {
        let mut space = one_region_space(0x1000, protect, vec![0u8; 4]);
        let before = space.regions[0].protect;
        assert!(write_bytes(&mut space, 0x1000, &vec![0x01]));
        assert_eq!(space.regions[0].protect, before);
    }
}

#[test]
fn write_bytes_empty_payload_is_trivial_success() {
    let mut space = one_region_space(0x1000, Protection::ReadOnly, vec![1, 2, 3]);
    assert!(write_bytes(&mut space, 0x1001, &vec![]));
    assert_eq!(space.regions[0].data, vec![1, 2, 3]);
}

#[test]
fn write_bytes_to_unmapped_address_fails_without_changes() {
    let mut space = one_region_space(0x1000, Protection::ReadWrite, vec![1, 2, 3]);
    assert!(!write_bytes(&mut space, 0x2000, &vec![0xAA]));
    assert_eq!(space.regions[0].data, vec![1, 2, 3]);
}

#[test]
fn write_bytes_straddling_region_end_fails_without_changes() {
    let mut space = MemorySpace {
        regions: vec![
            Region { base: 0x1000, protect: Protection::ReadWrite, data: vec![1, 2, 3, 4] },
            Region { base: 0x1004, protect: Protection::ReadWrite, data: vec![5, 6, 7, 8] },
        ],
    };
    // The range crosses from one region into the next: the protection
    // change is refused and no byte moves.
    assert!(!write_bytes(&mut space, 0x1003, &vec![0xAA, 0xBB]));
    assert_eq!(space.regions[0].data, vec![1, 2, 3, 4]);
    assert_eq!(space.regions[1].data, vec![5, 6, 7, 8]);
}

#[test]
fn write_bytes_filling_to_region_end_succeeds() {
    let mut space = one_region_space(0x1000, Protection::ReadWrite, vec![0u8; 4]);
    assert!(write_bytes(&mut space, 0x1002, &vec![0xAA, 0xBB]));
    assert_eq!(space.regions[0].data, vec![0, 0, 0xAA, 0xBB]);
}

#[test]
fn write_call_emits_relative_call_instruction() {
    let mut space = one_region_space(0x1000, Protection::ExecuteRead, vec![0x90u8; 16]);
    // Displacement: 0x2000 - 0x1000 - 5 = 0x0FFB.
    assert!(write_call(&mut space, 0x1000, 0x2000));
    assert_eq!(space.regions[0].data[..5], [0xE8, 0xFB, 0x0F, 0x00, 0x00]);
}

#[test]
fn write_call_backward_target_encodes_negative_displacement() {
    let mut space = one_region_space(0x2000, Protection::ExecuteRead, vec![0x90u8; 8]);
    // Displacement: 0x1000 - 0x2000 - 5 = -0x1005 = 0xFFFFEFFB.
    assert!(write_call(&mut space, 0x2000, 0x1000));
    assert_eq!(space.regions[0].data[..5], [0xE8, 0xFB, 0xEF, 0xFF, 0xFF]);
}

#[test]
fn write_jump_emits_relative_jump_instruction() {
    let mut space = one_region_space(0x1000, Protection::ExecuteRead, vec![0x90u8; 8]);
    assert!(write_jump(&mut space, 0x1001, 0x1000));
    // Displacement: 0x1000 - 0x1001 - 5 = -6 = 0xFFFFFFFA.
    assert_eq!(space.regions[0].data[1..6], [0xE9, 0xFA, 0xFF, 0xFF, 0xFF]);
}

#[test]
fn write_nops_fills_with_nop_bytes() {
    let mut space = one_region_space(0x1000, Protection::ExecuteRead, vec![0xCCu8; 6]);
    assert!(write_nops(&mut space, 0x1001, 3));
    assert_eq!(space.regions[0].data, vec![0xCC, 0x90, 0x90, 0x90, 0xCC, 0xCC]);
}

#[test]
fn write_nops_of_zero_changes_nothing() {
    let mut space = one_region_space(0x1000, Protection::ExecuteRead, vec![0xCC, 0xCC]);
    assert!(write_nops(&mut space, 0x1000, 0));
    assert_eq!(space.regions[0].data, vec![0xCC, 0xCC]);
}

#[test]
fn write_nops_past_region_end_fails() {
    let mut space = one_region_space(0x1000, Protection::ExecuteRead, vec![0xCC, 0xCC]);
    assert!(!write_nops(&mut space, 0x1001, 4));
    assert_eq!(space.regions[0].data, vec![0xCC, 0xCC]);
}
