use mempe::pe::rebuild::directories::{directory_name, is_notable_directory};
use mempe::pe::rebuild::exception::entry_unwind_covered;
use mempe::pe::rebuild::headers::compute_checksum;
use mempe::pe::rebuild::sections::{
    readable_section_name, recovered_characteristics, section_is_zero,
};
use mempe::pe::{RegionEvidence, IMAGE_SCN_MEM_WRITE};

fn checksum_of(bytes: &[u8]) -> Result<u32, String> {
    compute_checksum(bytes).map_err(|error| error.message())
}

#[test]
fn directories_separates_routine_directories_from_notable_ones() {
    assert_eq!(directory_name(1), "Import");
    assert_eq!(directory_name(4), "Certificate");
    assert_eq!(directory_name(99), "Unknown");
    assert!(!is_notable_directory(4));
    assert!(!is_notable_directory(11));
    assert!(is_notable_directory(1));
    assert!(is_notable_directory(2));
}

#[test]
fn exception_reports_unwind_coverage_only_when_the_directory_survived() {
    let ranges = Some(vec![(0x1000u32, 0x1100u32), (0x2000, 0x2010)]);

    assert_eq!(entry_unwind_covered(&None, 0x1000), None);
    assert_eq!(entry_unwind_covered(&ranges, 0x1000), Some(true));
    assert_eq!(entry_unwind_covered(&ranges, 0x10FF), Some(true));
    assert_eq!(entry_unwind_covered(&ranges, 0x1100), Some(false));
    assert_eq!(entry_unwind_covered(&ranges, 0x0FFF), Some(false));
}

#[test]
fn headers_folds_the_checksum_like_the_loader_does() -> Result<(), String> {
    assert_eq!(checksum_of(&[0x01, 0x00, 0x02, 0x00])?, 7);
    assert_eq!(checksum_of(&[0xFF, 0xFF, 0x05])?, 8);
    assert_eq!(checksum_of(&[0xFF, 0xFF, 0xFF, 0xFF])?, 0x0001_0003);
    assert_eq!(checksum_of(&[])?, 0);
    Ok(())
}

#[test]
fn treats_only_an_all_zero_range_as_empty() {
    let memory = [0u8, 0, 0, 0, 7, 0, 0, 0];

    assert!(section_is_zero(&memory, 0, 4));
    assert!(!section_is_zero(&memory, 0, 8));
    assert!(!section_is_zero(&memory, 4, 1));
    assert!(section_is_zero(&memory, 5, 3));
    assert!(!section_is_zero(&memory, 4, 99));
    assert!(section_is_zero(&memory, 0, 0));
}

#[test]
fn sections_replaces_only_unreadable_section_names() {
    let printable = readable_section_name(b".text\0\0\0", 1);
    let empty = readable_section_name(b"\0\0\0\0\0\0\0\0", 3);
    let binary = readable_section_name(&[0xE7, 0x91, 0x2A, 0, 0, 0, 0, 0], 7);
    let blank = readable_section_name(b"        ", 2);

    assert_eq!(printable, None);
    assert_eq!(empty, Some(*b".sec03\0\0"));
    assert_eq!(binary, Some(*b".sec07\0\0"));
    assert_eq!(blank, Some(*b".sec02\0\0"));
}

#[test]
fn sections_requires_substantial_write_coverage() {
    let mut regions = [
        RegionEvidence {
            offset: 0x1000,
            size: 0x1000,
            readable: true,
            writable: true,
            executable: false,
        },
        RegionEvidence {
            offset: 0x2000,
            size: 0x3000,
            readable: true,
            writable: false,
            executable: false,
        },
    ];

    let sparse = recovered_characteristics(0, &regions, 0x1000, 0x5000);
    let retained = recovered_characteristics(IMAGE_SCN_MEM_WRITE, &regions, 0x1000, 0x5000);
    regions[0].size = 0x2000;
    regions[1].offset = 0x3000;
    regions[1].size = 0x2000;
    let substantial = recovered_characteristics(0, &regions, 0x1000, 0x5000);

    assert_eq!(sparse & IMAGE_SCN_MEM_WRITE, 0);
    assert_ne!(retained & IMAGE_SCN_MEM_WRITE, 0);
    assert_ne!(substantial & IMAGE_SCN_MEM_WRITE, 0);
}
