use std::collections::BTreeSet;

use mempe::memory::images::group_images;
use mempe::memory::names::{basename_mismatch, to_dos_path};
use mempe::memory::regions::{
    allocation_extents, claim_image_budget, executable_non_image_allocations, regions_in_range,
};
use mempe::memory::stability::{stability_pages, MAX_STABILITY_READS};
use mempe::memory::{
    is_executable, main_image_is_missing, CapturedImage, MemoryRegion, MAX_IMAGES,
    MAX_TOTAL_IMAGE_BYTES, MEM_COMMIT, MEM_IMAGE, MEM_MAPPED, MEM_PRIVATE, PAGE_EXECUTE_READ,
    PAGE_GUARD, PAGE_READONLY, PAGE_READWRITE, PAGE_SIZE,
};

fn captured_image(is_main: bool) -> CapturedImage {
    CapturedImage {
        base: 0,
        bytes: Vec::new(),
        regions: Vec::new(),
        unreadable_pages: 0,
        name: None,
        path: None,
        is_main,
        hidden: false,
        linked: true,
        image_backed: true,
        path_mismatch: false,
        resident_pages: 0,
        private_pages: 0,
        page_flags: Vec::new(),
    }
}

#[test]
fn main_image_missing_is_false_when_the_main_image_was_captured() {
    let images = vec![captured_image(false), captured_image(true)];

    assert!(!main_image_is_missing(&images));
}

#[test]
fn main_image_missing_is_true_when_only_other_images_were_captured() {
    let images = vec![captured_image(false), captured_image(false)];

    assert!(main_image_is_missing(&images));
}

#[test]
fn main_image_missing_is_true_for_an_empty_capture() {
    assert!(main_image_is_missing(&[]));
}

#[test]
fn executability_is_a_property_of_one_protection_value_not_of_a_mask() {
    let mixed = PAGE_READONLY | PAGE_EXECUTE_READ;

    assert!(is_executable(PAGE_EXECUTE_READ));
    assert!(!is_executable(mixed));
    assert!(!is_executable(PAGE_EXECUTE_READ | PAGE_GUARD));
}

#[test]
fn a_device_name_is_not_confused_with_a_longer_one_sharing_its_prefix() {
    let map = [
        ("\\Device\\HarddiskVolume1".to_string(), "C:".to_string()),
        ("\\Device\\HarddiskVolume11".to_string(), "D:".to_string()),
    ];

    assert_eq!(
        to_dos_path("\\Device\\HarddiskVolume11\\app\\a.dll", &map).as_deref(),
        Some("D:\\app\\a.dll")
    );
    assert_eq!(
        to_dos_path("\\Device\\HarddiskVolume1\\app\\a.dll", &map).as_deref(),
        Some("C:\\app\\a.dll")
    );
    assert_eq!(to_dos_path("\\Device\\Mup\\share\\a.dll", &map), None);
}

#[test]
fn the_main_image_is_captured_even_when_the_byte_budget_is_spent() {
    let mut total = MAX_TOTAL_IMAGE_BYTES;

    assert!(!claim_image_budget(&mut total, PAGE_SIZE, false));
    assert!(claim_image_budget(&mut total, PAGE_SIZE, true));
}

#[test]
fn truncating_the_image_count_keeps_the_main_image_and_counts_the_rest()
-> Result<(), String> {
    let regions = (0..MAX_IMAGES + 3)
        .map(|index| region(PAGE_SIZE.saturating_mul(index as u64 + 1), PAGE_SIZE))
        .collect::<Vec<_>>();
    let bases = regions
        .iter()
        .map(|region| region.base)
        .collect::<BTreeSet<_>>();
    let last = PAGE_SIZE.saturating_mul(MAX_IMAGES as u64 + 3);

    let (groups, skipped) =
        group_images(&regions, &bases, Some(last)).map_err(|error| error.message())?;

    assert_eq!(skipped, 2);
    assert!(groups.contains_key(&last));
    assert_eq!(groups.len(), MAX_IMAGES + 1);
    Ok(())
}

fn region(base: u64, size: u64) -> MemoryRegion {
    MemoryRegion {
        base,
        allocation_base: base,
        size,
        state: 0,
        protect: 0,
        kind: 0,
    }
}

#[test]
fn selects_only_regions_overlapping_an_image() -> Result<(), String> {
    let regions = [
        region(0x1000, 0x1000),
        region(0x2000, 0x1000),
        region(0x3000, 0x1000),
    ];

    let selected = regions_in_range(&regions, 0x1800, 0x1000).map_err(|error| error.message())?;

    assert_eq!(selected.len(), 2);
    assert_eq!(selected[0].base, 0x1000);
    assert_eq!(selected[1].base, 0x2000);
    Ok(())
}

#[test]
fn rejects_an_overflowing_image_range() {
    let result = regions_in_range(&[], u64::MAX, 2);

    assert!(result.is_err());
}

#[test]
fn samples_content_across_large_relevant_regions() {
    let regions = [
        MemoryRegion {
            base: 0x1000,
            allocation_base: 0x1000,
            size: PAGE_SIZE * 512,
            state: MEM_COMMIT,
            protect: PAGE_EXECUTE_READ,
            kind: MEM_IMAGE,
        },
        MemoryRegion {
            base: 0x400000,
            allocation_base: 0x400000,
            size: PAGE_SIZE,
            state: MEM_COMMIT,
            protect: PAGE_READWRITE,
            kind: MEM_PRIVATE,
        },
    ];

    let pages = stability_pages(&regions);

    assert_eq!(pages.len() as u64, MAX_STABILITY_READS);
    assert_eq!(pages.first(), Some(&(0x1000, PAGE_SIZE)));
    assert_eq!(pages.last(), Some(&(0x1000 + PAGE_SIZE * 511, PAGE_SIZE)));
}

#[test]
fn includes_executable_mapped_and_private_allocations() {
    let regions = [
        MemoryRegion {
            base: 0x1000,
            allocation_base: 0x1000,
            size: PAGE_SIZE,
            state: MEM_COMMIT,
            protect: PAGE_EXECUTE_READ,
            kind: MEM_PRIVATE,
        },
        MemoryRegion {
            base: 0x2000,
            allocation_base: 0x2000,
            size: PAGE_SIZE,
            state: MEM_COMMIT,
            protect: PAGE_EXECUTE_READ,
            kind: MEM_MAPPED,
        },
        MemoryRegion {
            base: 0x3000,
            allocation_base: 0x3000,
            size: PAGE_SIZE,
            state: MEM_COMMIT,
            protect: PAGE_EXECUTE_READ,
            kind: MEM_IMAGE,
        },
    ];

    let allocations = executable_non_image_allocations(&regions);

    assert_eq!(allocations.len(), 2);
    assert!(allocations.contains(&0x1000));
    assert!(allocations.contains(&0x2000));
}

#[test]
fn only_flags_a_mismatch_when_both_names_are_known() {
    assert!(!basename_mismatch(Some("ntdll.dll"), Some("ntdll.dll")));
    assert!(!basename_mismatch(Some("NTDLL.DLL"), Some("ntdll.dll")));
    assert!(basename_mismatch(Some("kernel32.dll"), Some("notepad.exe")));
    assert!(!basename_mismatch(None, Some("ntdll.dll")));
    assert!(!basename_mismatch(Some("ntdll.dll"), None));
    assert!(!basename_mismatch(None, None));
}

#[test]
fn allocation_extents_take_the_furthest_end_per_allocation()
-> Result<(), String> {
    let mut first = region(0x1000, PAGE_SIZE);
    first.allocation_base = 0x1000;
    let mut second = region(0x1000 + PAGE_SIZE, PAGE_SIZE * 3);
    second.allocation_base = 0x1000;
    let mut other = region(0x9000, PAGE_SIZE);
    other.allocation_base = 0x9000;
    let executable = [0x1000u64, 0x9000].into_iter().collect();

    let extents = allocation_extents(&[first, second, other], &executable)
        .map_err(|error| error.message())?;

    assert_eq!(extents.get(&0x1000).copied(), Some(0x1000 + PAGE_SIZE * 4));
    assert_eq!(extents.get(&0x9000).copied(), Some(0x9000 + PAGE_SIZE));
    Ok(())
}
