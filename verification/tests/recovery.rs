use mempe::error::AppError;
use mempe::pe::carve::carve_embedded;
use mempe::pe::exports::ExportIndex;
use mempe::pe::imports::build_plan;
use mempe::pe::imports::plan::{ImportEntry, ImportGroup, ImportPlan};
use mempe::pe::imports::thunks::{decode_x64_thunk, decode_x86_thunk, resolve_value};
use mempe::pe::parse::parse_memory_image;
use mempe::pe::rebuild::directories::{clear_dynamic_base, relocations_are_walkable};
use mempe::pe::rebuild::exception::{
    collect_valid_runtime_functions, runtime_function_ranges, RuntimeFunction,
};
use mempe::pe::rebuild::headers::{apply_checksum, apply_entry_point, compute_checksum};
use mempe::pe::rebuild::import_section::{build_import_payload, ordinal_thunk};
use mempe::pe::rebuild::observe::{
    absent_sections, byte_counts, entry_section_label, entry_section_name,
    never_decrypted_sections, section_sample, trim_trailing_zeroes,
};
use mempe::pe::rebuild::sections::{
    build_output_buffer, expanded_section_length, sort_by_address, unique_replacement_name,
};
use mempe::pe::rebuild::{rebuild, rva_to_file, RebuiltImage, SectionLayout};
use mempe::pe::{EntryPointRva, PeImage, PeKind, RegionEvidence, Rva, SectionModel};

const BASE: u64 = 0x0000_7FF6_0000_0000;
const LIBRARY: u64 = 0x0000_7FFB_0000_0000;

fn put_u16(bytes: &mut [u8], offset: usize, value: u16) {
    bytes[offset..offset + 2].copy_from_slice(&value.to_le_bytes());
}

fn put_u32(bytes: &mut [u8], offset: usize, value: u32) {
    bytes[offset..offset + 4].copy_from_slice(&value.to_le_bytes());
}

fn put_u64(bytes: &mut [u8], offset: usize, value: u64) {
    bytes[offset..offset + 8].copy_from_slice(&value.to_le_bytes());
}

fn get_u32(bytes: &[u8], offset: usize) -> u32 {
    u32::from_le_bytes([
        bytes[offset],
        bytes[offset + 1],
        bytes[offset + 2],
        bytes[offset + 3],
    ])
}

fn get_u64(bytes: &[u8], offset: usize) -> u64 {
    u64::from(get_u32(bytes, offset)) | (u64::from(get_u32(bytes, offset + 4)) << 32)
}

fn program() -> Vec<u8> {
    let mut image = vec![0u8; 0x3000];
    put_u16(&mut image, 0, 0x5A4D);
    put_u32(&mut image, 0x3c, 0x80);
    put_u32(&mut image, 0x80, 0x0000_4550);
    put_u16(&mut image, 0x84, 0x8664);
    put_u16(&mut image, 0x86, 2);
    put_u16(&mut image, 0x94, 0xF0);
    put_u16(&mut image, 0x96, 0x22);
    let optional = 0x98;
    put_u16(&mut image, optional, 0x20B);
    put_u32(&mut image, optional + 16, 0x1000);
    put_u32(&mut image, optional + 32, 0x1000);
    put_u32(&mut image, optional + 36, 0x200);
    put_u32(&mut image, optional + 56, 0x3000);
    put_u32(&mut image, optional + 60, 0x400);
    put_u32(&mut image, optional + 108, 16);
    let text = optional + 0xF0;
    image[text..text + 5].copy_from_slice(b".text");
    put_u32(&mut image, text + 8, 0x1000);
    put_u32(&mut image, text + 12, 0x1000);
    put_u32(&mut image, text + 36, 0x6000_0020);
    let data = text + 40;
    image[data..data + 5].copy_from_slice(b".data");
    put_u32(&mut image, data + 8, 0x1000);
    put_u32(&mut image, data + 12, 0x2000);
    put_u32(&mut image, data + 36, 0xC000_0040);
    image[0x1000] = 0xC3;
    image
}

fn directory(image: &mut [u8], index: usize, rva: u32, size: u32) {
    put_u32(image, 0x98 + 112 + index * 8, rva);
    put_u32(image, 0x98 + 112 + index * 8 + 4, size);
}

fn library(name: &[u8]) -> Vec<u8> {
    let mut image = program();
    directory(&mut image, 0, 0x2000, 0x100);
    put_u32(&mut image, 0x2000 + 12, 0x2080);
    put_u32(&mut image, 0x2000 + 16, 5);
    put_u32(&mut image, 0x2000 + 20, 4);
    put_u32(&mut image, 0x2000 + 24, 1);
    put_u32(&mut image, 0x2000 + 28, 0x2040);
    put_u32(&mut image, 0x2000 + 32, 0x2054);
    put_u32(&mut image, 0x2000 + 36, 0x2058);
    put_u32(&mut image, 0x2040, 0x1000);
    put_u32(&mut image, 0x2044, 0x1010);
    put_u32(&mut image, 0x2048, 0);
    put_u32(&mut image, 0x204c, 0x20a0);
    put_u32(&mut image, 0x2054, 0x2090);
    put_u16(&mut image, 0x2058, 1);
    image[0x2080..0x2080 + name.len()].copy_from_slice(name);
    image[0x2090..0x2097].copy_from_slice(b"Second\0");
    image[0x20a0..0x20ac].copy_from_slice(b"other.Thing\0");
    image
}

fn parsed(bytes: &[u8]) -> PeImage<'_> {
    match parse_memory_image(bytes) {
        Ok(image) => image,
        Err(error) => panic!("{}", error.as_text()),
    }
}

fn rebuilt(memory: &[u8], regions: &[RegionEvidence], flags: &[u8]) -> RebuiltImage {
    match rebuild(
        memory,
        regions,
        BASE,
        None,
        &ExportIndex::default(),
        None,
        flags,
    ) {
        Ok(image) => image,
        Err(error) => panic!("{}", error.message()),
    }
}

fn section(name: &[u8; 8], address: u32, size: u32) -> SectionModel {
    SectionModel {
        name: *name,
        header_offset: 0x188,
        virtual_address: Rva(address),
        virtual_size: size,
        raw_size: 0,
        characteristics: 0x6000_0020,
    }
}

fn layout(model: SectionModel, source_length: usize, raw_offset: usize) -> SectionLayout {
    SectionLayout {
        model,
        source_length,
        raw_offset,
        raw_size: source_length,
    }
}

#[test]
fn exports_are_known_by_name_or_ordinal_and_not_where_they_lead_elsewhere() {
    let bytes = library(b"lib.dll\0");
    let index = ExportIndex::build(&[(LIBRARY, bytes.as_slice(), None)]);

    let (first, ambiguous) = index.resolve(LIBRARY + 0x1000).expect("first export");
    assert_eq!(first.module, "lib.dll");
    assert_eq!(first.name, None);
    assert_eq!(first.ordinal, 5);
    assert!(!ambiguous);
    let (second, _) = index.resolve(LIBRARY + 0x1010).expect("second export");
    assert_eq!(second.name.as_deref(), Some("Second"));
    assert_eq!(second.ordinal, 6);
    assert!(index.resolve(LIBRARY).is_none());
    assert!(index.resolve(LIBRARY + 0x20a0).is_none());
}

#[test]
fn an_address_that_two_modules_export_is_ambiguous_and_keeps_the_first() {
    let bytes = library(b"lib.dll\0");
    let index = ExportIndex::build(&[
        (LIBRARY, bytes.as_slice(), Some("one.dll")),
        (LIBRARY, bytes.as_slice(), Some("two.dll")),
        (LIBRARY, bytes.as_slice(), Some("ONE.DLL")),
    ]);
    let same = ExportIndex::build(&[
        (LIBRARY, bytes.as_slice(), Some("one.dll")),
        (LIBRARY, bytes.as_slice(), Some("ONE.DLL")),
    ]);

    let (export, ambiguous) = index.resolve(LIBRARY + 0x1000).expect("export");
    assert_eq!(export.module, "one.dll");
    assert!(ambiguous);
    let (export, ambiguous) = same.resolve(LIBRARY + 0x1000).expect("export");
    assert_eq!(export.module, "one.dll");
    assert!(!ambiguous);
}

#[test]
fn pointers_resolve_through_jump_stubs_but_not_in_circles() {
    let bytes = library(b"lib.dll\0");
    let index = ExportIndex::build(&[(LIBRARY, bytes.as_slice(), None)]);
    let mut memory = program();
    memory[0x1100..0x1102].copy_from_slice(&[0xFF, 0x25]);
    put_u32(&mut memory, 0x1102, 0x2100 - 0x1106);
    put_u64(&mut memory, 0x2100, LIBRARY + 0x1010);
    memory[0x1200..0x1202].copy_from_slice(&[0x48, 0xB8]);
    put_u64(&mut memory, 0x1202, BASE + 0x1100);
    memory[0x120a..0x120c].copy_from_slice(&[0xFF, 0xE0]);
    memory[0x1300..0x1302].copy_from_slice(&[0x48, 0xB8]);
    put_u64(&mut memory, 0x1302, BASE + 0x1300);
    memory[0x130a..0x130c].copy_from_slice(&[0xFF, 0xE0]);

    assert_eq!(
        decode_x64_thunk(&memory, BASE, 0x1100),
        Some(LIBRARY + 0x1010)
    );
    let found = resolve_value(&memory, BASE, PeKind::Pe32Plus, BASE + 0x1200, &index);
    assert_eq!(
        found.and_then(|(export, _)| export.name),
        Some("Second".to_string())
    );
    assert!(resolve_value(&memory, BASE, PeKind::Pe32Plus, BASE + 0x1300, &index).is_none());
    assert!(resolve_value(&memory, BASE, PeKind::Pe32Plus, 0, &index).is_none());
}

#[test]
fn stubs_of_32_bit_code_are_followed() {
    let mut memory = vec![0u8; 0x40];
    memory[0..2].copy_from_slice(&[0xFF, 0x25]);
    put_u32(&mut memory, 2, 0x0040_0020);
    put_u32(&mut memory, 0x20, 0x7700_1234);
    memory[0x10] = 0xB8;
    put_u32(&mut memory, 0x11, 0x7700_5678);
    memory[0x15..0x17].copy_from_slice(&[0xFF, 0xE0]);

    assert_eq!(
        decode_x86_thunk(&memory, 0x0040_0000, 0),
        Some(0x7700_1234)
    );
    assert_eq!(
        decode_x86_thunk(&memory, 0x0040_0000, 0x10),
        Some(0x7700_5678)
    );
    assert_eq!(decode_x86_thunk(&memory, 0x0050_0000, 0), None);
    assert_eq!(decode_x86_thunk(&memory, 0x0040_0000, 0x3a), None);
}

#[test]
fn a_pointer_that_is_only_loaded_needs_a_neighbour_in_the_same_module() {
    let bytes = library(b"lib.dll\0");
    let index = ExportIndex::build(&[(LIBRARY, bytes.as_slice(), None)]);
    let mut memory = program();
    memory[0x1000..0x1003].copy_from_slice(&[0x48, 0x8B, 0x05]);
    put_u32(&mut memory, 0x1003, 0x2100 - 0x1007);
    put_u64(&mut memory, 0x2100, LIBRARY + 0x1000);

    let lone = build_plan(&parsed(&memory), BASE, &index);
    assert_eq!(lone.recovered, 0);

    put_u64(&mut memory, 0x2108, LIBRARY + 0x1010);
    let attested = build_plan(&parsed(&memory), BASE, &index);
    assert_eq!(attested.recovered, 1);
    assert_eq!(attested.groups[0].first_thunk, 0x2100);
    assert_eq!(attested.groups[0].entries[0].ordinal, 5);

    put_u64(&mut memory, 0x2108, 0);
    memory[0x1000..0x1002].copy_from_slice(&[0xFF, 0x15]);
    put_u32(&mut memory, 0x1002, 0x2100 - 0x1006);
    let called = build_plan(&parsed(&memory), BASE, &index);
    assert_eq!(called.recovered, 1);
}

#[test]
fn delay_loads_are_recovered_and_unbound_slots_counted() {
    let bytes = library(b"lib.dll\0");
    let index = ExportIndex::build(&[(LIBRARY, bytes.as_slice(), None)]);
    let mut memory = program();
    directory(&mut memory, 13, 0x2200, 0x40);
    put_u32(&mut memory, 0x2200, 1);
    put_u32(&mut memory, 0x2204, 0x2300);
    put_u32(&mut memory, 0x220c, 0x2400);
    put_u32(&mut memory, 0x2210, 0x2480);
    memory[0x2300..0x2308].copy_from_slice(b"lib.dll\0");
    put_u64(&mut memory, 0x2400, LIBRARY + 0x1010);
    put_u64(&mut memory, 0x2408, 0);
    put_u64(&mut memory, 0x2480, 0x2500);

    let plan = build_plan(&parsed(&memory), BASE, &index);
    assert_eq!(plan.recovered, 1);
    assert_eq!(plan.unresolved_delay, 0);

    put_u64(&mut memory, 0x2400, BASE + 0x1000);
    let unbound = build_plan(&parsed(&memory), BASE, &index);
    assert_eq!(unbound.recovered, 0);
    assert_eq!(unbound.unresolved_delay, 1);
}

#[test]
fn written_imports_read_back() {
    let plan = ImportPlan {
        groups: vec![ImportGroup {
            module: "a.dll".to_string(),
            first_thunk: 0x2100,
            entries: vec![
                ImportEntry {
                    name: Some("Run".to_string()),
                    ordinal: 3,
                },
                ImportEntry {
                    name: None,
                    ordinal: 0x1_0007,
                },
            ],
        }],
        recovered: 2,
        ambiguous: 0,
        unresolved_delay: 0,
        existing: vec![0xAA; 20],
    };
    let payload = match build_import_payload(&plan, PeKind::Pe32Plus, 0x5000) {
        Ok(payload) => payload,
        Err(error) => panic!("{}", error.message()),
    };

    assert_eq!(&payload[..20], &[0xAA; 20]);
    assert_eq!(&payload[40..60], &[0u8; 20]);
    let lookup = (get_u32(&payload, 20) - 0x5000) as usize;
    let module = (get_u32(&payload, 32) - 0x5000) as usize;
    assert_eq!(lookup, 64);
    assert_eq!(get_u32(&payload, 36), 0x2100);
    assert_eq!(&payload[module..module + 6], b"a.dll\0");
    let named = (get_u64(&payload, lookup) - 0x5000) as usize;
    assert_eq!(&payload[named..named + 6], b"\0\0Run\0");
    assert_eq!(get_u64(&payload, lookup + 8), 0x8000_0000_0000_0007);
    assert_eq!(get_u64(&payload, lookup + 16), 0);
    assert_eq!(ordinal_thunk(PeKind::Pe32, 9), 0x8000_0009);
}

#[test]
fn the_checksum_is_that_of_the_file_without_it() {
    let image = rebuilt(&program(), &[], &[]);
    let stored = get_u32(&image.bytes, 0x98 + 64);
    let mut cleared = image.bytes.clone();
    put_u32(&mut cleared, 0x98 + 64, 0);

    assert_eq!(compute_checksum(&cleared), Ok(stored));
    let model = parsed(&image.bytes).model;
    let mut again = image.bytes.clone();
    assert_eq!(apply_checksum(&mut again, &model), Ok(()));
    assert_eq!(again, image.bytes);
}

#[test]
fn only_an_accepted_entry_point_changes_the_file() {
    let memory = program();
    let model = parsed(&memory).model;

    let mut given = memory.clone();
    assert_eq!(
        apply_entry_point(&mut given, &model, EntryPointRva::new(0x1002)),
        Ok(())
    );
    let mut expected = memory.clone();
    put_u32(&mut expected, 0xA8, 0x1002);
    assert_eq!(given, expected);

    let mut refused = memory.clone();
    assert_eq!(
        apply_entry_point(&mut refused, &model, EntryPointRva::new(0x180)),
        Err(AppError::EntryPointNotExecutable(0x180))
    );
    assert_eq!(refused, memory);

    let mut kept = memory.clone();
    assert_eq!(apply_entry_point(&mut kept, &model, None), Ok(()));
    assert_eq!(kept, memory);
}

#[test]
fn captured_bytes_stand_where_addresses_lead() {
    let mut memory = program();
    memory[0x1234] = 0x77;
    memory[0x2345] = 0x88;
    let image = rebuilt(&memory, &[], &[]);
    let planned = match build_output_buffer(&parsed(&memory).model, &memory) {
        Ok(planned) => planned,
        Err(error) => panic!("{}", error.message()),
    };
    let (bytes, layouts, header_size) = planned;

    assert_eq!(header_size, 0x200);
    assert_eq!(bytes.len(), image.bytes.len());
    assert_eq!(layouts.len(), 2);
    assert!(layouts[0].raw_offset + layouts[0].raw_size <= layouts[1].raw_offset);
    assert_eq!(bytes[0x3c], 0x80);
    assert_eq!(bytes[0x200], 0);
    let first = rva_to_file(0x1234, &layouts, header_size).expect("code");
    let second = rva_to_file(0x2345, &layouts, header_size).expect("data");
    assert_eq!(image.bytes[first], 0x77);
    assert_eq!(image.bytes[second], 0x88);
    assert_eq!(rva_to_file(0x40, &layouts, header_size), Some(0x40));
    assert_eq!(rva_to_file(0x3000, &layouts, header_size), None);
}

#[test]
fn sections_are_ordered_by_address_and_equal_ones_keep_their_order() {
    let mut first = section(b"first\0\0\0", 0x2000, 1);
    first.raw_size = 1;
    let mut second = section(b"second\0\0", 0x2000, 1);
    second.raw_size = 2;
    let third = section(b"third\0\0\0", 0x1000, 1);
    let sorted = sort_by_address(&[first, second, third]);
    let names: Vec<[u8; 8]> = sorted.iter().map(|section| section.name).collect();

    assert_eq!(names, [*b"third\0\0\0", *b"first\0\0\0", *b"second\0\0"]);
}

#[test]
fn a_new_name_is_readable_and_free() {
    let layouts = [
        layout(section(&[0xFF; 8], 0x1000, 0x10), 0x10, 0x200),
        layout(section(b".sec01\0\0", 0x2000, 0x10), 0x10, 0x400),
    ];

    assert_eq!(unique_replacement_name(&layouts, 0), Some(*b".sec03\0\0"));
    assert_eq!(unique_replacement_name(&layouts, 1), None);
    assert_eq!(unique_replacement_name(&layouts, 2), None);
}

#[test]
fn sections_grow_to_the_last_used_byte_and_never_shrink() {
    let mut memory = vec![0u8; 0x3000];
    memory[0x1480] = 1;
    memory[0x2480] = 1;
    let regions = [RegionEvidence {
        offset: 0x1000,
        size: 0x1000,
        readable: true,
        writable: false,
        executable: false,
    }];

    assert_eq!(
        expanded_section_length(&memory, &regions, 0x1000, 0x3000, 0x100),
        0x481
    );
    assert_eq!(
        expanded_section_length(&memory, &regions, 0x1000, 0x1400, 0x100),
        0x100
    );
    assert_eq!(
        expanded_section_length(&memory, &[], 0x1000, 0x3000, 0x800),
        0x800
    );
}

#[test]
fn directories_that_lead_nowhere_go_and_notable_ones_are_named() {
    let mut memory = program();
    directory(&mut memory, 2, 0x9000, 0x10);
    directory(&mut memory, 4, 0x1000, 0x10);
    directory(&mut memory, 10, 0x2000, 0x10);
    memory[0x2000] = 1;
    let image = rebuilt(&memory, &[], &[]);

    assert_eq!(image.cleared_directories, 2);
    assert_eq!(image.notable_cleared_directories, ["Resource"]);
    assert_eq!(get_u32(&image.bytes, 0x98 + 112 + 2 * 8), 0);
    assert_eq!(get_u32(&image.bytes, 0x98 + 112 + 4 * 8), 0);
    assert_eq!(get_u32(&image.bytes, 0x98 + 112 + 10 * 8), 0x2000);
}

#[test]
fn images_without_relocations_lose_the_dynamic_base() {
    let mut memory = program();
    put_u16(&mut memory, 0x98 + 70, 0x8160);
    let fixed = rebuilt(&memory, &[], &[]);
    assert!(fixed.fixed_image_base);
    assert_eq!(get_u32(&fixed.bytes, 0x98 + 68) >> 16, 0x8120);

    directory(&mut memory, 5, 0x2000, 12);
    put_u32(&mut memory, 0x2000, 0x1000);
    put_u32(&mut memory, 0x2004, 12);
    put_u16(&mut memory, 0x2008, 0xA010);
    let movable = rebuilt(&memory, &[], &[]);
    assert!(!movable.fixed_image_base);
    assert_eq!(get_u32(&movable.bytes, 0x98 + 68) >> 16, 0x8160);

    let model = parsed(&movable.bytes).model;
    let mut bytes = movable.bytes.clone();
    assert_eq!(clear_dynamic_base(&mut bytes, &model), Ok(false));
}

#[test]
fn relocations_have_to_be_pointers_of_the_format() {
    let memory = program();
    let model = parsed(&memory).model;
    let layouts = [layout(section(b".text\0\0\0", 0x1000, 0x1000), 0x1000, 0)];
    let mut output = vec![0u8; 0x1000];
    put_u32(&mut output, 0, 0x1000);
    put_u32(&mut output, 4, 12);
    put_u16(&mut output, 8, 0xA010);
    let walks = |output: &[u8], size: u32| {
        relocations_are_walkable(output, &model, &layouts, 0, 0x1000, size)
    };

    assert!(walks(&output, 12));
    assert!(!walks(&output, 16));
    put_u16(&mut output, 10, 0x3010);
    assert!(!walks(&output, 12));
    put_u16(&mut output, 8, 0);
    put_u16(&mut output, 10, 0);
    assert!(!walks(&output, 12));
}

#[test]
fn invalid_runtime_functions_go_and_the_others_move_up() {
    let mut memory = program();
    directory(&mut memory, 3, 0x2100, 36);
    memory[0x2200] = 1;
    for (index, (begin, end)) in [(0x1000, 0x1010), (0x1020, 0x1020), (0x1030, 0x1040)]
        .into_iter()
        .enumerate()
    {
        put_u32(&mut memory, 0x2100 + index * 12, begin);
        put_u32(&mut memory, 0x2104 + index * 12, end);
        put_u32(&mut memory, 0x2108 + index * 12, 0x2200);
    }
    let image = rebuilt(&memory, &[], &[]);
    let table = 0x200 + 0x1000 + 0x100;

    assert_eq!(image.invalid_unwind_entries, 1);
    assert_eq!(image.entry_unwind_covered, Some(true));
    assert_eq!(get_u32(&image.bytes, 0x98 + 112 + 3 * 8 + 4), 24);
    assert_eq!(get_u32(&image.bytes, table), 0x1000);
    assert_eq!(get_u32(&image.bytes, table + 12), 0x1030);
    assert_eq!(get_u32(&image.bytes, table + 24), 0);

    let functions = [RuntimeFunction {
        begin: 1,
        end: 2,
        unwind: 3,
    }];
    assert_eq!(runtime_function_ranges(&functions), [(1, 2)]);
    let model = parsed(&memory).model;
    let scan = collect_valid_runtime_functions(&memory, &model, &[], 0x3000, 0x2100, 40);
    assert_eq!(scan.valid.len(), 2);
    assert_eq!(scan.invalid, 2);
}

#[test]
fn observations_are_counted() {
    let mut memory = program();
    directory(&mut memory, 9, 0x2100, 0x28);
    put_u64(&mut memory, 0x2118, BASE + 0x2200);
    put_u64(&mut memory, 0x2200, BASE + 0x1000);
    put_u64(&mut memory, 0x2208, BASE + 0x1010);
    directory(&mut memory, 12, 0x2300, 0x20);
    let regions = [RegionEvidence {
        offset: 0x1000,
        size: 0x1000,
        readable: true,
        writable: true,
        executable: true,
    }];
    let image = rebuilt(&memory, &regions, &[]);

    assert_eq!(image.tls_callbacks, 2);
    assert_eq!(image.declared_iat_slots, 4);
    assert_eq!(image.write_execute_sections, 1);
    assert_eq!(image.absent_sections, 0);
    assert_eq!(image.entry_section.as_deref(), Some(".text"));
    assert_eq!(image.entry_point, 0x1000);
    assert_eq!(image.section_count, 2);
    assert!(!image.executable_flag_added);
}

#[test]
fn the_entry_section_has_its_readable_name() {
    let layouts = [
        layout(section(b".text\0\0\0", 0x1000, 0x10), 0x10, 0x200),
        layout(section(&[0; 8], 0x2000, 0x10), 0x10, 0x400),
    ];

    assert_eq!(
        entry_section_label(&layouts, 0x1008).as_deref(),
        Some(&b".text"[..])
    );
    assert_eq!(entry_section_name(&layouts, 0x1008).as_deref(), Some(".text"));
    assert_eq!(entry_section_name(&layouts, 0x2008).as_deref(), Some(".sec02"));
    assert_eq!(entry_section_name(&layouts, 0x3000), None);
}

#[test]
fn only_untouched_resident_sections_are_sampled() {
    let mut memory = vec![0u8; 0x2000];
    for (index, byte) in memory.iter_mut().enumerate().take(0x1800).skip(0x1000) {
        *byte = (index % 7) as u8 + 1;
    }
    let model = layout(section(b".text\0\0\0", 0x1000, 0x1000), 0x1000, 0x200);

    let sample = section_sample(&memory, &model, &[0, 1]).expect("sample");
    assert_eq!(sample.total, 0x800);
    assert_eq!(sample.counts.len(), 256);
    assert_eq!(sample.counts[0], 0);
    assert_eq!(sample.counts.iter().sum::<u32>(), 0x800);
    assert!(section_sample(&memory, &model, &[0, 3]).is_none());
    assert!(section_sample(&memory, &model, &[0, 0]).is_none());
    assert!(section_sample(&memory, &model, &[1]).is_none());
    assert_eq!(never_decrypted_sections(&[true, false, true]), 2);
    assert_eq!(byte_counts(&[5, 5, 9])[5], 2);
    assert_eq!(trim_trailing_zeroes(&[0, 1, 0, 0]), &[0, 1]);
}

#[test]
fn code_of_which_only_zeros_were_captured_is_absent() {
    let memory = vec![0u8; 0x2000];
    let code = layout(section(b".text\0\0\0", 0x1000, 0x1000), 0x1000, 0);
    let mut data = code;
    data.model.characteristics = 0xC000_0040;
    let short = layout(section(b".text\0\0\0", 0x1000, 0x1000), 0x3ff, 0);

    assert_eq!(absent_sections(&memory, &[code, data, short]), 1);
}

#[test]
fn signed_payloads_come_out_whole_and_apart() {
    let mut host = vec![0u8; 0x8000];
    let mut inner = program();
    inner.truncate(0x1000);
    put_u32(&mut inner, 0x98 + 0xF0 + 16, 0x200);
    put_u32(&mut inner, 0x98 + 0xF0 + 20, 0x400);
    directory(&mut inner, 4, 0x600, 0x80);
    host[0x1000..0x2000].copy_from_slice(&inner);
    put_u16(&mut inner, 0x98 + 68, 1);
    host[0x3000..0x4000].copy_from_slice(&inner);
    put_u16(&mut inner, 0x98 + 68, 2);
    put_u16(&mut inner, 0x96, 0x2022);
    host[0x5000..0x6000].copy_from_slice(&inner);

    let found = carve_embedded(&host);
    let places: Vec<(usize, usize)> = found
        .iter()
        .map(|embedded| (embedded.offset, embedded.length))
        .collect();
    let extensions: Vec<&str> = found.iter().map(|embedded| embedded.extension).collect();

    assert_eq!(places, [(0x1000, 0x680), (0x3000, 0x680), (0x5000, 0x680)]);
    assert_eq!(extensions, ["exe", "sys", "dll"]);
}
