use mempe::pe::exports::ExportIndex;
use mempe::pe::rebuild::{
    rebuild, RebuiltImage, IMAGE_SCN_CNT_CODE, IMAGE_SCN_CNT_INITIALIZED_DATA,
};
use mempe::pe::{
    EntryPointRva, PeKind, RegionEvidence, IMAGE_SCN_MEM_EXECUTE, IMAGE_SCN_MEM_READ,
    IMAGE_SCN_MEM_WRITE,
};
use pelite::PeFile;

fn run(
    memory: &[u8],
    regions: &[RegionEvidence],
    observed_base: u64,
    disk_headers: Option<&[u8]>,
    exports: &ExportIndex,
    entry_point: Option<EntryPointRva>,
    page_flags: &[u8],
) -> Result<RebuiltImage, String> {
    rebuild(
        memory,
        regions,
        observed_base,
        disk_headers,
        exports,
        entry_point,
        page_flags,
    )
    .map_err(|error| error.message())
}

#[test]
fn mod_rebuilds_a_memory_layout_pe32_plus() -> Result<(), String> {
    let memory = fixture_pe64();
    let rebuilt = run(
        &memory,
        &[],
        0x0000_7FF6_0000_0000,
        None,
        &ExportIndex::default(),
        None,
        &[],
    )?;

    assert!(!rebuilt.is_dll);
    assert_eq!(rebuilt.section_count, 1);
    assert!(PeFile::from_bytes(&rebuilt.bytes).is_ok());
    assert_eq!(&rebuilt.bytes[0x200..0x204], &[0x90, 0x90, 0xC3, 0]);
    Ok(())
}

#[test]
fn mod_rebuilds_a_memory_layout_pe32_dll() -> Result<(), String> {
    let memory = fixture_pe32();
    let rebuilt = run(
        &memory,
        &[],
        0x0040_0000,
        None,
        &ExportIndex::default(),
        None,
        &[],
    )?;

    assert!(rebuilt.is_dll);
    assert_eq!(rebuilt.kind, PeKind::Pe32);
    assert!(PeFile::from_bytes(&rebuilt.bytes).is_ok());
    assert_eq!(&rebuilt.bytes[0x200..0x204], &[0x55, 0x8B, 0xEC, 0xC3]);
    Ok(())
}

#[test]
fn mod_restores_damaged_headers_from_disk_structure() -> Result<(), String> {
    let mut disk = fixture_pe64();
    put_u32(&mut disk, 0x98 + 60, 0x000F_0000);
    let mut memory = disk.clone();
    memory[..0x200].fill(0);

    let rebuilt = run(
        &memory,
        &[],
        0x0000_7FF6_0000_0000,
        Some(&disk),
        &ExportIndex::default(),
        None,
        &[],
    )?;

    assert!(rebuilt.disk_headers_used);
    assert!(PeFile::from_bytes(&rebuilt.bytes).is_ok());
    assert_eq!(&rebuilt.bytes[0x200..0x204], &[0x90, 0x90, 0xC3, 0]);
    Ok(())
}

#[test]
fn mod_preserves_valid_memory_entry_point_during_disk_merge()
-> Result<(), String> {
    let disk = fixture_pe64();
    let mut memory = disk.clone();
    put_u32(&mut memory, 0x80, 0);
    put_u32(&mut memory, 0x98 + 16, 0x1001);

    let rebuilt = run(
        &memory,
        &[],
        0x0000_7FF6_0000_0000,
        Some(&disk),
        &ExportIndex::default(),
        None,
        &[],
    )?;

    assert!(rebuilt.disk_headers_used);
    assert_eq!(get_u32(&rebuilt.bytes, 0x98 + 16), 0x1001);
    Ok(())
}

#[test]
fn mod_rejects_disk_headers_that_conflict_with_memory_architecture() {
    let disk = fixture_pe64();
    let mut memory = disk.clone();
    put_u32(&mut memory, 0x80, 0);
    put_u16(&mut memory, 0x84, 0x014C);

    let result = run(
        &memory,
        &[],
        0x0000_7FF6_0000_0000,
        Some(&disk),
        &ExportIndex::default(),
        None,
        &[],
    );

    assert!(result.is_err());
}

#[test]
fn mod_applies_only_valid_manual_entry_points() -> Result<(), String> {
    let memory = fixture_pe64();
    let valid = EntryPointRva::new(0x1002).ok_or("valid entry point is missing")?;
    let invalid = EntryPointRva::new(0x180).ok_or("invalid test entry point is missing")?;

    let rebuilt = run(
        &memory,
        &[],
        0x0000_7FF6_0000_0000,
        None,
        &ExportIndex::default(),
        Some(valid),
        &[],
    )?;
    let invalid_result = run(
        &memory,
        &[],
        0x0000_7FF6_0000_0000,
        None,
        &ExportIndex::default(),
        Some(invalid),
        &[],
    );

    assert_eq!(get_u32(&rebuilt.bytes, 0x98 + 16), 0x1002);
    assert!(invalid_result.is_err());
    Ok(())
}

#[test]
fn mod_recalculates_derived_optional_header_fields() -> Result<(), String> {
    let mut memory = fixture_pe64();
    let section = 0x98 + 0xF0;
    put_u32(&mut memory, 0x98 + 4, 1);
    put_u32(&mut memory, 0x98 + 8, 2);
    put_u32(&mut memory, 0x98 + 12, 3);
    put_u32(&mut memory, 0x98 + 20, 4);
    put_u32(&mut memory, section + 36, 0xE000_00E0);

    let rebuilt = run(
        &memory,
        &[],
        0x0000_7FF6_0000_0000,
        None,
        &ExportIndex::default(),
        None,
        &[],
    )?;

    assert_eq!(get_u32(&rebuilt.bytes, 0x98 + 4), 0x1000);
    assert_eq!(get_u32(&rebuilt.bytes, 0x98 + 8), 0x1000);
    assert_eq!(get_u32(&rebuilt.bytes, 0x98 + 12), 0x1000);
    assert_eq!(get_u32(&rebuilt.bytes, 0x98 + 20), 0x1000);
    Ok(())
}

#[test]
fn mod_removes_invalid_x64_unwind_entries() -> Result<(), String> {
    let mut memory = fixture_pe64();
    let optional = 0x98;
    put_u32(&mut memory, optional + 112 + 3 * 8, 0x1100);
    put_u32(&mut memory, optional + 112 + 3 * 8 + 4, 12);
    put_u32(&mut memory, 0x1100, 0x1000);
    put_u32(&mut memory, 0x1104, 0x1010);
    put_u32(&mut memory, 0x1108, 0x1200);

    let rebuilt = run(
        &memory,
        &[],
        0x0000_7FF6_0000_0000,
        None,
        &ExportIndex::default(),
        None,
        &[],
    )?;

    assert_eq!(rebuilt.invalid_unwind_entries, 1);
    assert!(PeFile::from_bytes(&rebuilt.bytes).is_ok());
    Ok(())
}

#[test]
fn mod_recovers_section_access_from_committed_memory() -> Result<(), String> {
    let mut memory = fixture_pe64();
    let section = 0x98 + 0xF0;
    put_u32(&mut memory, section + 36, IMAGE_SCN_CNT_INITIALIZED_DATA);
    let regions = [RegionEvidence {
        offset: 0x1000,
        size: 0x1000,
        readable: true,
        writable: false,
        executable: true,
    }];

    let rebuilt = run(
        &memory,
        &regions,
        0x0000_7FF6_0000_0000,
        None,
        &ExportIndex::default(),
        None,
        &[],
    )?;
    let characteristics = get_u32(&rebuilt.bytes, section + 36);

    assert_ne!(characteristics & IMAGE_SCN_MEM_EXECUTE, 0);
    assert_ne!(characteristics & IMAGE_SCN_MEM_READ, 0);
    assert_ne!(characteristics & IMAGE_SCN_CNT_CODE, 0);
    assert_eq!(characteristics & IMAGE_SCN_MEM_WRITE, 0);
    Ok(())
}

#[test]
fn mod_repoints_debug_entries_at_the_rebuilt_layout() -> Result<(), String> {
    let mut memory = fixture_pe64();
    let optional = 0x98;
    put_u32(&mut memory, optional + 112 + 6 * 8, 0x1100);
    put_u32(&mut memory, optional + 112 + 6 * 8 + 4, 28);
    put_u32(&mut memory, 0x1100 + 20, 0x1200);
    put_u32(&mut memory, 0x1100 + 24, 0xDEAD);

    let rebuilt = run(
        &memory,
        &[],
        0x0000_7FF6_0000_0000,
        None,
        &ExportIndex::default(),
        None,
        &[],
    )?;

    assert_eq!(rebuilt.repaired_debug_entries, 1);
    assert_eq!(get_u32(&rebuilt.bytes, 0x300 + 24), 0x400);
    assert_ne!(get_u32(&rebuilt.bytes, 0x98 + 112 + 6 * 8), 0);
    Ok(())
}

#[test]
fn recovers_runtime_data_up_to_the_declared_image_but_no_further()
-> Result<(), String> {
    let mut memory = fixture_pe64();
    let section = 0x98 + 0xF0;
    put_u32(&mut memory, section + 8, 0x100);
    memory.resize(0x3000, 0);
    memory[0x1900] = 0xC3;
    memory[0x2500] = 0xC3;
    let regions = [RegionEvidence {
        offset: 0x1000,
        size: 0x2000,
        readable: true,
        writable: false,
        executable: true,
    }];

    let rebuilt = run(
        &memory,
        &regions,
        0x0000_7FF6_0000_0000,
        None,
        &ExportIndex::default(),
        None,
        &[],
    )?;

    assert_eq!(get_u32(&rebuilt.bytes, section + 8), 0x901);
    assert_eq!(get_u32(&rebuilt.bytes, 0x98 + 56), 0x2000);
    assert_eq!(rebuilt.bytes[0xB00], 0xC3);
    assert!(rebuilt.bytes.len() < 0x1700);
    Ok(())
}

#[test]
fn mod_checksum_ignores_whatever_sat_in_the_field_before() -> Result<(), String>
{
    let mut image = fixture_pe64();
    let index = ExportIndex::build(&[]);
    let first = run(&image, &[], 0x0000_7FF6_0000_0000, None, &index, None, &[])?;

    put_u32(&mut image, 0x98 + 64, 0xDEAD_BEEF);
    let second = run(&image, &[], 0x0000_7FF6_0000_0000, None, &index, None, &[])?;

    assert_eq!(first.bytes, second.bytes);
    Ok(())
}

#[test]
fn gives_an_all_zero_section_no_raw_data() -> Result<(), String> {
    let mut memory = fixture_pe64();
    let section = 0x98 + 0xF0;
    for byte in memory.iter_mut().skip(0x1000) {
        *byte = 0;
    }

    let rebuilt = run(
        &memory,
        &[],
        0x0000_7FF6_0000_0000,
        None,
        &ExportIndex::default(),
        None,
        &[],
    )?;

    assert_eq!(get_u32(&rebuilt.bytes, section + 16), 0);
    assert_eq!(get_u32(&rebuilt.bytes, section + 20), 0);
    assert_eq!(get_u32(&rebuilt.bytes, section + 12), 0x1000);
    Ok(())
}

#[test]
fn reports_a_pdata_section_holding_no_runtime_functions()
-> Result<(), String> {
    let mut memory = fixture_pe64();
    let section = 0x98 + 0xF0;
    memory[section..section + 8].copy_from_slice(b".pdata\0\0");
    for byte in memory.iter_mut().take(0x1100).skip(0x1000) {
        *byte = 0xEE;
    }

    let rebuilt = run(
        &memory,
        &[],
        0x0000_7FF6_0000_0000,
        None,
        &ExportIndex::default(),
        None,
        &[],
    )?;

    assert_eq!(rebuilt.invalid_pdata_sections, 1);
    Ok(())
}

#[test]
fn leaves_a_section_alone_when_it_is_not_named_pdata() -> Result<(), String>
{
    let mut memory = fixture_pe64();
    for byte in memory.iter_mut().take(0x1100).skip(0x1000) {
        *byte = 0xEE;
    }

    let rebuilt = run(
        &memory,
        &[],
        0x0000_7FF6_0000_0000,
        None,
        &ExportIndex::default(),
        None,
        &[],
    )?;

    assert_eq!(rebuilt.invalid_pdata_sections, 0);
    Ok(())
}

fn fixture_pe64() -> Vec<u8> {
    let mut image = vec![0u8; 0x2000];
    put_u16(&mut image, 0, 0x5A4D);
    put_u32(&mut image, 0x3c, 0x80);
    put_u32(&mut image, 0x80, 0x0000_4550);
    put_u16(&mut image, 0x84, 0x8664);
    put_u16(&mut image, 0x86, 1);
    put_u16(&mut image, 0x94, 0xF0);
    put_u16(&mut image, 0x96, 0x22);
    let optional = 0x98;
    put_u16(&mut image, optional, 0x20B);
    put_u32(&mut image, optional + 16, 0x1000);
    put_u64(&mut image, optional + 24, 0x0001_4000_0000);
    put_u32(&mut image, optional + 32, 0x1000);
    put_u32(&mut image, optional + 36, 0x200);
    put_u32(&mut image, optional + 56, 0x2000);
    put_u32(&mut image, optional + 60, 0x200);
    put_u32(&mut image, optional + 108, 16);
    let section = optional + 0xF0;
    image[section..section + 5].copy_from_slice(b".text");
    put_u32(&mut image, section + 8, 0x1000);
    put_u32(&mut image, section + 12, 0x1000);
    put_u32(&mut image, section + 16, 0x200);
    put_u32(&mut image, section + 36, 0x6000_0020);
    image[0x1000..0x1004].copy_from_slice(&[0x90, 0x90, 0xC3, 0]);
    image
}

fn fixture_pe32() -> Vec<u8> {
    let mut image = vec![0u8; 0x2000];
    put_u16(&mut image, 0, 0x5A4D);
    put_u32(&mut image, 0x3c, 0x80);
    put_u32(&mut image, 0x80, 0x0000_4550);
    put_u16(&mut image, 0x84, 0x014C);
    put_u16(&mut image, 0x86, 1);
    put_u16(&mut image, 0x94, 0xE0);
    put_u16(&mut image, 0x96, 0x2102);
    let optional = 0x98;
    put_u16(&mut image, optional, 0x10B);
    put_u32(&mut image, optional + 16, 0x1000);
    put_u32(&mut image, optional + 28, 0x0040_0000);
    put_u32(&mut image, optional + 32, 0x1000);
    put_u32(&mut image, optional + 36, 0x200);
    put_u32(&mut image, optional + 56, 0x2000);
    put_u32(&mut image, optional + 60, 0x200);
    put_u32(&mut image, optional + 92, 16);
    let section = optional + 0xE0;
    image[section..section + 5].copy_from_slice(b".text");
    put_u32(&mut image, section + 8, 0x1000);
    put_u32(&mut image, section + 12, 0x1000);
    put_u32(&mut image, section + 16, 0x200);
    put_u32(&mut image, section + 36, 0x6000_0020);
    image[0x1000..0x1004].copy_from_slice(&[0x55, 0x8B, 0xEC, 0xC3]);
    image
}

fn put_u16(bytes: &mut [u8], offset: usize, value: u16) {
    bytes[offset..offset + 2].copy_from_slice(&value.to_le_bytes());
}

fn put_u32(bytes: &mut [u8], offset: usize, value: u32) {
    bytes[offset..offset + 4].copy_from_slice(&value.to_le_bytes());
}

fn put_u64(bytes: &mut [u8], offset: usize, value: u64) {
    bytes[offset..offset + 8].copy_from_slice(&value.to_le_bytes());
}

fn get_u32(bytes: &[u8], offset: usize) -> u32 {
    u32::from_le_bytes([
        bytes[offset],
        bytes[offset + 1],
        bytes[offset + 2],
        bytes[offset + 3],
    ])
}
