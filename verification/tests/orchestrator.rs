//! The patch orchestrator: scan everything, then patch.

use sigpatch::patches::PatchOutcome;
use sigpatch::patches::PatchPayload;
use sigpatch::patches::PatchTarget;
use sigpatch::patches::apply_patches;
use sigpatch::region::MemorySpace;
use sigpatch::region::Protection;
use sigpatch::region::Region;

fn target(name: &str, signature: &str, offset: isize, payload: PatchPayload) -> PatchTarget {
    PatchTarget { name: name.to_string(), signature: signature.to_string(), offset, payload }
}

fn code_region(base: usize, data: Vec<u8>) -> MemorySpace {
    MemorySpace { regions: vec![Region { base, protect: Protection::ExecuteRead, data }] }
}

#[test]
fn absent_module_performs_zero_scans_and_zero_writes() {
    let mut space = code_region(0x1000, vec![0x80, 0x7E, 0x74, 0x00]);
    let before = space.regions[0].data.clone();
    let catalog = vec![target("anything", "80 7E", 0, PatchPayload::Fixed(vec![0xEB]))];
    let report = apply_patches(&mut space, None, &catalog);
    assert!(!report.module_found);
    assert!(report.results.is_empty());
    assert_eq!(space.regions[0].data, before);
}

#[test]
fn jackal_tapes_scenario_adjusts_jump_offset_in_place() {
    // The signature is found at address A; the patch writes at A + 5 the
    // value (byte at A + 5, plus 0x10) modulo 256; every other byte in the
    // region is unchanged.
    let base = 0x40_0000usize;
    let mut data = vec![0x90u8; 64];
    let sig = [0x80, 0x7E, 0x74, 0x00, 0x75, 0x2A, 0x3B, 0xCA, 0x75];
    data[20..29].copy_from_slice(&sig);
    let mut space = code_region(base, data.clone());

    let catalog = vec![target(
        "jackal tapes",
        "80 7E 74 00 75 ?? 3B CA 75",
        5,
        PatchPayload::AddToByte(0x10),
    )];
    let report = apply_patches(&mut space, Some(base), &catalog);

    assert!(report.module_found);
    assert_eq!(report.results.len(), 1);
    assert_eq!(report.results[0].address, Some(base + 20));
    assert_eq!(report.results[0].outcome, PatchOutcome::Applied);

    let mut expected = data;
    expected[25] = 0x2A_u8.wrapping_add(0x10);
    assert_eq!(space.regions[0].data, expected);

    let write = report.results[0].write.as_ref().expect("a write was planned");
    assert_eq!(write.addr, base + 25);
    assert_eq!(write.bytes, vec![0x3A]);
}

#[test]
fn addtobyte_wraps_modulo_256() {
    let base = 0x1000usize;
    let mut space = code_region(base, vec![0xAA, 0xF8]);
    let catalog = vec![target("wrap", "AA", 1, PatchPayload::AddToByte(0x10))];
    let report = apply_patches(&mut space, Some(base), &catalog);
    assert_eq!(report.results[0].outcome, PatchOutcome::Applied);
    assert_eq!(space.regions[0].data, vec![0xAA, 0x08]);
}

#[test]
fn all_signatures_resolve_before_any_write() {
    // Patch A's write destroys patch B's signature bytes.  Because the
    // orchestrator resolves everything before writing anything, B is still
    // found and applied at its pre-write address.
    let base = 0x1000usize;
    let mut data = vec![0x00u8; 32];
    data[4..6].copy_from_slice(&[0xAA, 0xBB]); // signature A
    data[16..18].copy_from_slice(&[0xCC, 0xDD]); // signature B
    let mut space = code_region(base, data);

    let catalog = vec![
        // A overwrites B's signature bytes before B's own write runs.
        target("a", "AA BB", 12, PatchPayload::Fixed(vec![0x11, 0x22])),
        target("b", "CC DD", 1, PatchPayload::Fixed(vec![0x33])),
    ];
    let report = apply_patches(&mut space, Some(base), &catalog);

    assert_eq!(report.results[0].address, Some(base + 4));
    assert_eq!(report.results[0].outcome, PatchOutcome::Applied);
    // B was resolved before A's write corrupted its signature.
    assert_eq!(report.results[1].address, Some(base + 16));
    assert_eq!(report.results[1].outcome, PatchOutcome::Applied);

    assert_eq!(space.regions[0].data[16..18], [0x11, 0x33]);
}

#[test]
fn malformed_signature_skips_only_its_own_patch() {
    let base = 0x1000usize;
    let mut space = code_region(base, vec![0xAA, 0xBB, 0x00, 0x00]);
    let catalog = vec![
        target("bad", "80 NOPE", 0, PatchPayload::Fixed(vec![0x11])),
        target("good", "AA BB", 2, PatchPayload::Fixed(vec![0x55])),
    ];
    let report = apply_patches(&mut space, Some(base), &catalog);
    assert_eq!(report.results[0].outcome, PatchOutcome::InvalidSignature);
    assert_eq!(report.results[0].address, None);
    assert!(report.results[0].write.is_none());
    assert_eq!(report.results[1].outcome, PatchOutcome::Applied);
    assert_eq!(space.regions[0].data, vec![0xAA, 0xBB, 0x55, 0x00]);
}

#[test]
fn absent_signature_skips_only_its_own_patch() {
    let base = 0x1000usize;
    let mut space = code_region(base, vec![0xAA, 0xBB, 0x00, 0x00]);
    let catalog = vec![
        target("missing", "DE AD BE EF", 0, PatchPayload::Fixed(vec![0x11])),
        target("good", "AA BB", 0, PatchPayload::Fixed(vec![0x55])),
    ];
    let report = apply_patches(&mut space, Some(base), &catalog);
    assert_eq!(report.results[0].outcome, PatchOutcome::PatternNotFound);
    assert_eq!(report.results[0].address, None);
    assert_eq!(report.results[1].outcome, PatchOutcome::Applied);
    assert_eq!(space.regions[0].data, vec![0x55, 0xBB, 0x00, 0x00]);
}

#[test]
fn refused_protection_change_leaves_memory_untouched() {
    let base = 0x1000usize;
    let mut space = code_region(base, vec![0xAA, 0xBB, 0x00, 0x00]);
    // The write range runs past the end of the mapped region.
    let catalog = vec![target("tail", "AA BB", 3, PatchPayload::Fixed(vec![0x11, 0x22]))];
    let report = apply_patches(&mut space, Some(base), &catalog);
    assert_eq!(report.results[0].outcome, PatchOutcome::ProtectionChangeFailed);
    assert_eq!(report.results[0].address, Some(base));
    assert_eq!(space.regions[0].data, vec![0xAA, 0xBB, 0x00, 0x00]);
}

#[test]
fn addtobyte_with_unmapped_source_is_a_refused_write() {
    let base = 0x1000usize;
    let mut space = code_region(base, vec![0xAA, 0xBB]);
    let catalog = vec![target("off the end", "AA BB", 7, PatchPayload::AddToByte(1))];
    let report = apply_patches(&mut space, Some(base), &catalog);
    assert_eq!(report.results[0].outcome, PatchOutcome::ProtectionChangeFailed);
    assert!(report.results[0].write.is_none());
    assert_eq!(space.regions[0].data, vec![0xAA, 0xBB]);
}

#[test]
fn devmode_style_fixed_patch_replaces_opcode() {
    // A conditional jump opcode at a fixed offset past the match is
    // replaced with an unconditional one.
    let base = 0x2000usize;
    let mut data = vec![0x00u8; 16];
    let sig = [0x80, 0x79, 0x30, 0x00, 0x8B, 0x54, 0x24, 0x04, 0x75];
    data[3..12].copy_from_slice(&sig);
    let mut space = code_region(base, data.clone());
    let catalog = vec![target(
        "devmode",
        "80 79 ?? 00 8B 54 24 ?? 75",
        8,
        PatchPayload::Fixed(vec![0xEB]),
    )];
    let report = apply_patches(&mut space, Some(base), &catalog);
    assert_eq!(report.results[0].outcome, PatchOutcome::Applied);
    let mut expected = data;
    expected[11] = 0xEB;
    assert_eq!(space.regions[0].data, expected);
}

#[test]
fn multi_byte_fixed_payload_is_written_verbatim() {
    let base = 0x3000usize;
    let mut space = code_region(base, vec![0x8B, 0x49, 0x0C, 0x85, 0xC9, 0x74, 0x33, 0x00]);
    let catalog = vec![target(
        "predecessor",
        "8B 49 0C 85 C9 74",
        5,
        PatchPayload::Fixed(vec![0xEB, 0x0E]),
    )];
    let report = apply_patches(&mut space, Some(base), &catalog);
    assert_eq!(report.results[0].outcome, PatchOutcome::Applied);
    assert_eq!(space.regions[0].data, vec![0x8B, 0x49, 0x0C, 0x85, 0xC9, 0xEB, 0x0E, 0x00]);
}

#[test]
fn report_has_one_entry_per_catalog_entry_in_order() {
    let base = 0x1000usize;
    let mut space = code_region(base, vec![0xAA, 0xBB, 0xCC, 0x00]);
    let catalog = vec![
        target("one", "AA", 0, PatchPayload::Fixed(vec![0x01])),
        target("two", "oops", 0, PatchPayload::Fixed(vec![0x02])),
        target("three", "CC", 0, PatchPayload::Fixed(vec![0x03])),
    ];
    let report = apply_patches(&mut space, Some(base), &catalog);
    assert_eq!(report.results.len(), 3);
    assert_eq!(report.results[0].outcome, PatchOutcome::Applied);
    assert_eq!(report.results[1].outcome, PatchOutcome::InvalidSignature);
    assert_eq!(report.results[2].outcome, PatchOutcome::Applied);
    assert_eq!(space.regions[0].data, vec![0x01, 0xBB, 0x03, 0x00]);
}
