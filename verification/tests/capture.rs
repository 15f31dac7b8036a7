use std::collections::BTreeSet;

use mempe::memory::allocations::{chunk_ranges, AllocationScan};
use mempe::memory::hidden::{hidden_header_length, hidden_image_at, HiddenScan, Probe};
use mempe::memory::images::{
    check_captured, disk_headers_allowed, group_images, read_image, read_image_regions, select_images, ImageRequest,
    ModuleInfo, RegionScan,
};
use mempe::memory::names::{
    annotate_image, basename, drive_letters, resolve_main_base, to_dos_path,
};
use mempe::memory::pages::{
    attach_pages, measure_image_pages, working_set_addresses, PageCoverage,
};
use mempe::memory::regions::{
    claim_image_budget, image_bases, readable_candidates, readable_non_image_allocations,
    unclaimed_executable_allocations,
};
use mempe::memory::stability::{sample_page, stability_pages, Stability, StabilityWatch};
use mempe::memory::{
    is_executable, is_readable, is_writable, CapturedImage, MemoryRegion, MAX_TOTAL_IMAGE_BYTES,
    MEM_COMMIT, MEM_IMAGE, MEM_PRIVATE, PAGE_EXECUTE, PAGE_EXECUTE_READ, PAGE_GUARD,
    PAGE_NOACCESS, PAGE_READONLY, PAGE_READWRITE, PAGE_SIZE, PAGE_WRITECOPY,
};

fn region(allocation: u64, base: u64, size: u64, protect: u32, kind: u32) -> MemoryRegion {
    MemoryRegion {
        base,
        allocation_base: allocation,
        size,
        state: MEM_COMMIT,
        protect,
        kind,
    }
}

fn set(values: &[u64]) -> BTreeSet<u64> {
    values.iter().copied().collect()
}

fn empty_scan() -> RegionScan {
    RegionScan {
        evidence: Vec::new(),
        reads: Vec::new(),
        unreadable_pages: 2,
        image_backed: true,
    }
}

fn captured(name: Option<&str>, path: Option<&str>) -> CapturedImage {
    let request = ImageRequest {
        base: 0x1000,
        size: 0x1000,
        hidden: false,
    };
    let mut image = read_image(request, vec![1], empty_scan(), 3, &[], None);
    image.name = name.map(str::to_string);
    image.path = path.map(str::to_string);
    image
}

#[test]
fn protections_give_what_they_say() {
    assert!(is_readable(PAGE_READONLY));
    assert!(!is_readable(PAGE_EXECUTE));
    assert!(!is_readable(PAGE_READONLY | PAGE_NOACCESS));
    assert!(is_writable(PAGE_WRITECOPY));
    assert!(!is_writable(PAGE_READONLY));
    assert!(!is_writable(PAGE_READWRITE | PAGE_GUARD));
    assert!(is_executable(PAGE_EXECUTE));
    assert!(!is_executable(PAGE_READWRITE));
}

#[test]
fn image_addresses_come_from_mappings_and_modules() {
    let regions = [
        region(0x1000, 0x1000, 0x1000, PAGE_READONLY, MEM_IMAGE),
        region(0, 0x8000, 0x1000, PAGE_READONLY, MEM_IMAGE),
        region(0x9000, 0x9000, 0x1000, PAGE_READONLY, MEM_PRIVATE),
    ];

    assert_eq!(image_bases(&regions, &[0x4000, 0]), set(&[0x1000, 0x4000]));
}

#[test]
fn loose_data_is_scanned_where_no_file_is_mapped() {
    let regions = [
        region(0x1000, 0x1000, 0x1000, PAGE_READWRITE, MEM_PRIVATE),
        region(0x3000, 0x3000, 0x1000, PAGE_READWRITE, MEM_PRIVATE),
        region(0x5000, 0x5000, 0x1000, PAGE_READWRITE, MEM_PRIVATE),
        region(0x7000, 0x7000, 0x1000, PAGE_READWRITE, MEM_IMAGE),
    ];
    let candidates = readable_candidates(&regions, &set(&[0x5000]));

    assert_eq!(candidates, set(&[0x1000, 0x3000]));
    assert_eq!(
        readable_non_image_allocations(&candidates, &[true, false]),
        set(&[0x3000])
    );
}

#[test]
fn allocations_with_hidden_images_are_claimed() {
    let regions = [
        region(0x1000, 0x1000, 0x1000, PAGE_EXECUTE_READ, MEM_PRIVATE),
        region(0x1000, 0x2000, 0x1000, PAGE_EXECUTE_READ, MEM_PRIVATE),
        region(0x5000, 0x5000, 0x1000, PAGE_EXECUTE_READ, MEM_PRIVATE),
    ];

    assert_eq!(
        unclaimed_executable_allocations(&regions, &set(&[0x1000, 0x5000]), &[(0x2000, 0x1000)]),
        set(&[0x5000])
    );
    assert_eq!(
        unclaimed_executable_allocations(&regions, &set(&[0x1000, 0x5000]), &[(0x9000, 0x1000)]),
        set(&[0x1000, 0x5000])
    );
}

#[test]
fn the_program_itself_is_selected_however_little_budget_is_left() {
    let large = 0x4000_0000;
    let bases: Vec<u64> = (1..=6).map(|index| index * 0x1_0000_0000).collect();
    let regions: Vec<MemoryRegion> = bases
        .iter()
        .map(|base| region(*base, *base, large, PAGE_READONLY, MEM_IMAGE))
        .collect();
    let main = bases[5];
    let (groups, skipped) = match group_images(&regions, &set(&bases), Some(main)) {
        Ok(found) => found,
        Err(error) => panic!("{}", error.message()),
    };
    let selection = select_images(&groups, &[(0x9_0000_0000, 0x1000)], Some(main));
    let selected: Vec<u64> = selection
        .requests
        .iter()
        .map(|request| request.base)
        .collect();

    assert_eq!(skipped, 0);
    assert_eq!(groups[&main].end, main + large);
    assert_eq!(groups[&main].regions.len(), 1);
    assert_eq!(selected, [bases[0], bases[1], bases[2], bases[3], main]);
    assert_eq!(selection.skipped, 2);
    let mut total = 0;
    assert!(claim_image_budget(&mut total, MAX_TOTAL_IMAGE_BYTES, false));
    assert_eq!(total, MAX_TOTAL_IMAGE_BYTES);
}

#[test]
fn reads_stay_inside_the_image_and_unreadable_pages_are_counted() {
    let regions = [
        region(0x1000, 0x0800, 0x1000, PAGE_READONLY, MEM_IMAGE),
        region(0x1000, 0x1800, 0x1801, PAGE_NOACCESS, MEM_IMAGE),
        region(0x1000, 0x9000, 0x1000, PAGE_READONLY, MEM_IMAGE),
    ];
    let scan = match read_image_regions(0x3000, 0x1000, 0x4000, &regions) {
        Ok(scan) => scan,
        Err(error) => panic!("{}", error.message()),
    };

    assert_eq!(scan.reads.len(), 1);
    assert_eq!(scan.reads[0].address, 0x1000);
    assert_eq!(scan.reads[0].offset, 0);
    assert_eq!(scan.reads[0].length, 0x800);
    assert_eq!(scan.evidence.len(), 2);
    assert_eq!(scan.evidence[1].offset, 0x800);
    assert_eq!(scan.evidence[1].size, 0x1801);
    assert!(!scan.evidence[1].readable);
    assert_eq!(scan.unreadable_pages, 2);
    assert!(scan.image_backed);
}

#[test]
fn images_take_the_name_of_their_module() {
    let modules = [ModuleInfo {
        base: 0x1000,
        name: "a.dll".to_string(),
        path: "C:\\a.dll".to_string(),
    }];
    let request = ImageRequest {
        base: 0x1000,
        size: 0x1000,
        hidden: true,
    };
    let linked = read_image(request, vec![7, 8], empty_scan(), 3, &modules, Some(0x1000));
    let loose = read_image(request, Vec::new(), empty_scan(), 0, &[], Some(0x2000));

    assert_eq!(linked.name.as_deref(), Some("a.dll"));
    assert_eq!(linked.path.as_deref(), Some("C:\\a.dll"));
    assert!(linked.linked && linked.is_main && linked.hidden);
    assert_eq!(linked.unreadable_pages, 5);
    assert_eq!(linked.bytes, [7, 8]);
    assert!(!loose.linked && !loose.is_main);
    assert_eq!(loose.name, None);
    assert!(disk_headers_allowed(&linked));
    assert!(!disk_headers_allowed(&loose));
    assert_eq!(check_captured(&[linked]), Ok(false));
    assert_eq!(check_captured(&[loose]), Ok(true));
}

#[test]
fn allocations_are_read_as_far_as_the_budget_goes() {
    let regions = [
        region(0x1000, 0x1000, 0x1000, PAGE_READONLY, MEM_PRIVATE),
        region(0x1000, 0x3000, 0x1000, PAGE_EXECUTE_READ, MEM_PRIVATE),
        region(0x8000, 0x8000, 0x2000, PAGE_READWRITE, MEM_PRIVATE),
        region(0xA000, 0xA000, 0x1000, PAGE_READWRITE, MEM_PRIVATE),
        region(0xC000, 0xC000, 0x1000, PAGE_READWRITE, MEM_PRIVATE),
    ];
    let allocations = set(&[0x1000, 0x8000, 0xA000]);
    let mut scan = AllocationScan::new(&regions, &allocations, 0x4000);
    let first = scan.request().expect("first");

    assert_eq!((first.base, first.size), (0x1000, 0x3000));
    assert_eq!(first.extent.committed, 0x2000);
    assert!(first.extent.executable);
    assert_eq!(first.extent.protections, PAGE_READONLY | PAGE_EXECUTE_READ);
    scan.record(true);
    assert_eq!(scan.remaining, 0x1000);
    let second = scan.request().expect("second");
    assert_eq!((second.base, second.size), (0x8000, 0x1000));
    scan.record(true);
    assert_eq!(scan.skipped, 0x1000);
    assert_eq!(scan.request().expect("third").size, 0);
    scan.record(true);
    assert_eq!(scan.skipped, 0x2000);
    assert_eq!(scan.remaining, 0);
    assert!(scan.request().is_none());
}

#[test]
fn buffers_are_divided_without_gaps() {
    assert_eq!(
        chunk_ranges(0x2001, 0x1000),
        [(0, 0x1000), (0x1000, 0x1000), (0x2000, 1)]
    );
    assert_eq!(chunk_ranges(0x1000, 0x1000), [(0, 0x1000)]);
    assert!(chunk_ranges(0, 0x1000).is_empty());
}

#[test]
fn hidden_images_are_looked_for_page_by_page_once_per_allocation() {
    let regions = [
        region(0x1000, 0x1000, 0x2000, PAGE_EXECUTE_READ, MEM_PRIVATE),
        region(0x1000, 0x3000, 0x1000, PAGE_READONLY, MEM_PRIVATE),
        region(0x9000, 0x9000, 0x1000, PAGE_EXECUTE_READ, MEM_PRIVATE),
    ];
    let mut scan = match HiddenScan::new(&regions, &set(&[0x1000, 0x9000])) {
        Ok(scan) => scan,
        Err(error) => panic!("{}", error.message()),
    };
    let probe = |base, allocation_end| {
        Some(Probe {
            base,
            allocation_end,
        })
    };

    assert_eq!(scan.next_probe(), Ok(probe(0x1000, 0x4000)));
    assert_eq!(scan.answer(None), Ok(()));
    assert_eq!(scan.next_probe(), Ok(probe(0x2000, 0x4000)));
    assert_eq!(scan.answer(Some(0x2000)), Ok(()));
    assert_eq!(scan.next_probe(), Ok(probe(0x9000, 0xA000)));
    assert_eq!(scan.answer(None), Ok(()));
    assert_eq!(scan.next_probe(), Ok(None));
    assert_eq!(scan.found, [(0x2000, 0x2000)]);
}

#[test]
fn hidden_headers_are_read_only_behind_the_dos_magic() {
    let near = Probe {
        base: 0x1000,
        allocation_end: 0x3000,
    };
    let far = Probe {
        base: 0x1000,
        allocation_end: 0x9_0000_0000,
    };

    assert_eq!(hidden_header_length(near, b"MZ"), Some(0x2000));
    assert_eq!(hidden_header_length(near, b"ZM"), None);
    assert_eq!(hidden_header_length(far, b"MZ"), None);
    assert_eq!(
        hidden_header_length(
            Probe {
                base: 0,
                allocation_end: 0x20_0000
            },
            b"MZ"
        ),
        Some(0x1_0000)
    );
    assert_eq!(hidden_image_at(near, &[0u8; 0x200]), None);
}

#[test]
fn samples_span_all_pages() {
    assert_eq!(sample_page(0, 1000, 256), 0);
    assert_eq!(sample_page(255, 1000, 256), 999);
    assert_eq!(sample_page(1, 1000, 256), 3);
    assert_eq!(sample_page(7, 1000, 1), 0);
    assert_eq!(sample_page(3, 0, 9), 0);
    let regions = [
        region(0x1000, 0x1000, 0x1800, PAGE_EXECUTE_READ, MEM_PRIVATE),
        region(0x9000, 0x9000, 0x1000, PAGE_READWRITE, MEM_PRIVATE),
        region(0xC000, 0xC000, 0x1000, PAGE_READWRITE, MEM_IMAGE),
    ];
    assert_eq!(
        stability_pages(&regions),
        [(0x1000, 0x1000), (0x2000, 0x800), (0xC000, 0x1000)]
    );
}

#[test]
fn memory_settles_after_enough_equal_looks() {
    let mut watch = StabilityWatch::new();
    let looks: Vec<Stability> = [1, 1, 2, 2, 2, 2]
        .into_iter()
        .map(|signature| watch.look(signature))
        .collect();

    assert_eq!(
        looks,
        [
            Stability::Waiting,
            Stability::Waiting,
            Stability::Waiting,
            Stability::Waiting,
            Stability::Waiting,
            Stability::Settled,
        ]
    );
    let mut restless = StabilityWatch::new();
    let mut last = Stability::Waiting;
    for signature in 0..30 {
        last = restless.look(signature);
    }
    assert_eq!(last, Stability::Unsettled);
}

#[test]
fn page_states_are_counted_and_flagged() {
    let mut coverage = PageCoverage::new(4);
    coverage.measure_pages(1, &[0x8001, 0x0001, 0x0000, 0x0001]);

    assert_eq!(coverage.flags, [0, 1, 3, 0]);
    assert_eq!(coverage.resident, 3);
    assert_eq!(coverage.private, 2);
    let mut image = captured(None, None);
    attach_pages(&mut image, coverage);
    assert_eq!(image.page_flags, [0, 1, 3, 0]);
    assert_eq!((image.resident_pages, image.private_pages), (3, 2));
    assert_eq!(working_set_addresses(0x1_0000, 2, 4), [0x1_2000, 0x1_3000]);
    assert_eq!(working_set_addresses(0, 0, 1_000).len(), 512);
    assert!(working_set_addresses(0, 4, 4).is_empty());
}

#[test]
fn mapped_images_are_measured_from_base_to_last_end() {
    let regions = [
        region(0x4000, 0x5000, 0x1000, PAGE_READONLY, MEM_IMAGE),
        region(0x4000, 0x4000, 0x1000, PAGE_READONLY, MEM_IMAGE),
        region(0x1000, 0x1000, 0x1000, PAGE_READONLY, MEM_IMAGE),
        region(0x8000, 0x8000, 0x1000, PAGE_READONLY, MEM_PRIVATE),
    ];

    assert_eq!(
        measure_image_pages(&regions),
        [(0x1000, 0x1000), (0x4000, 0x2000)]
    );
}

#[test]
fn base_names_follow_the_last_separator() {
    assert_eq!(basename("C:\\dir/prog.exe"), "prog.exe");
    assert_eq!(basename("prog.exe"), "prog.exe");
    assert_eq!(basename("dir\\"), "");
    assert_eq!(basename("ä\\ö.dll"), "ö.dll");
    assert_eq!(drive_letters(0b1000_0101), [b'A', b'C', b'H']);
}

#[test]
fn the_program_is_found_by_path_or_else_by_name() {
    let drives = [("\\Device\\One".to_string(), "C:".to_string())];
    let image = |base: u64, path: &str| (base, path.to_string());
    let by_path = [
        image(0x1000, "\\Device\\One\\other\\app.exe"),
        image(0x2000, "\\Device\\One\\dir\\APP.exe"),
    ];
    let find = |mapped: &[(u64, String)]| {
        resolve_main_base(None, mapped, &drives, "C:\\dir\\app.exe", "app.exe")
    };

    assert_eq!(find(&by_path), Some(0x2000));
    assert_eq!(find(&by_path[..1]), Some(0x1000));
    assert_eq!(
        find(&[
            image(1, "\\Device\\One\\dir\\app.exe"),
            image(2, "\\Device\\One\\dir\\app.exe"),
        ]),
        None
    );
    assert_eq!(find(&[image(1, "x\\app.exe"), image(2, "y\\app.exe")]), None);
    assert_eq!(
        resolve_main_base(Some(7), &by_path, &drives, "C:\\dir\\app.exe", "app.exe"),
        Some(7)
    );
    assert_eq!(
        to_dos_path("\\Device\\One\\dir", &drives).as_deref(),
        Some("C:\\dir")
    );
}

#[test]
fn images_are_held_against_the_files_that_are_mapped() {
    let drives = [("\\Device\\One".to_string(), "C:".to_string())];
    let mut same = captured(Some("a.dll"), Some("c:\\A.dll"));
    annotate_image(&mut same, Some("\\Device\\One\\a.dll"), &drives);
    assert!(!same.path_mismatch);
    assert_eq!(same.name.as_deref(), Some("a.dll"));

    let mut other = captured(Some("a.dll"), Some("C:\\a.dll"));
    annotate_image(&mut other, Some("\\Device\\One\\b.dll"), &drives);
    assert!(other.path_mismatch);
    assert_eq!(other.name.as_deref(), Some("b.dll"));

    let mut unnamed = captured(None, None);
    annotate_image(&mut unnamed, Some("\\Device\\Two\\c.dll"), &drives);
    assert!(!unnamed.path_mismatch);
    assert_eq!(unnamed.name.as_deref(), Some("c.dll"));
    assert_eq!(unnamed.bytes, [1]);

    let mut unmapped = captured(Some("a.dll"), None);
    annotate_image(&mut unmapped, None, &drives);
    assert_eq!(unmapped.name.as_deref(), Some("a.dll"));
    assert_eq!(PAGE_SIZE, 0x1000);
}
