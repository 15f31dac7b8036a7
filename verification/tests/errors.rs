use std::collections::BTreeSet;

use mempe::error::{AppError, ParseError, PayloadPart, ReparseError};
use mempe::memory::hidden::HiddenScan;
use mempe::memory::images::{check_captured, group_images, image_end, read_image_regions};
use mempe::memory::regions::{allocation_extents, regions_in_range, RegionList};
use mempe::memory::{
    MemoryRegion, MAX_MEMORY_REGIONS, MEM_COMMIT, MEM_IMAGE, PAGE_EXECUTE_READ, PAGE_READONLY,
};
use mempe::pe::align::{align_up, align_up_u64};
use mempe::pe::exports::ExportIndex;
use mempe::pe::image::{read_u32, write_u32};
use mempe::pe::imports::plan::{ImportEntry, ImportGroup, ImportPlan};
use mempe::pe::parse::{memory_image_size, parse_disk_image, parse_memory_image};
use mempe::pe::rebuild::directories::write_directory;
use mempe::pe::rebuild::exception::write_valid_runtime_functions;
use mempe::pe::rebuild::headers::{
    accept_reparse, finalize_output, rebuilt_image_size, write_core_header_fields, write_derived_header_fields,
    write_image_base, DerivedSizes,
};
use mempe::pe::rebuild::import_section::{
    append_ascii, append_import_section, commit_import_section, payload_rva, write_lookup_thunks,
    write_mempe_section_header, write_thunk,
};
use mempe::pe::rebuild::sections::{
    build_output_buffer, fill_output, layout_sections, write_sections,
};
use mempe::pe::rebuild::source::{
    disk_header_size, merge_header_evidence, validate_header_evidence,
};
use mempe::pe::rebuild::{rebuild, SectionLayout};
use mempe::pe::{EntryPointRva, PeImage, PeKind, PeModel, Rva, SectionModel};

fn put_u16(bytes: &mut [u8], offset: usize, value: u16) {
    bytes[offset..offset + 2].copy_from_slice(&value.to_le_bytes());
}

fn put_u32(bytes: &mut [u8], offset: usize, value: u32) {
    bytes[offset..offset + 4].copy_from_slice(&value.to_le_bytes());
}

fn image_at(lfanew: usize) -> Vec<u8> {
    let mut image = vec![0u8; 0x2000];
    put_u16(&mut image, 0, 0x5A4D);
    put_u32(&mut image, 0x3c, lfanew as u32);
    put_u32(&mut image, lfanew, 0x0000_4550);
    put_u16(&mut image, lfanew + 4, 0x8664);
    put_u16(&mut image, lfanew + 6, 1);
    put_u16(&mut image, lfanew + 20, 0xF0);
    put_u16(&mut image, lfanew + 22, 0x22);
    let optional = lfanew + 24;
    put_u16(&mut image, optional, 0x20B);
    put_u32(&mut image, optional + 16, 0x1000);
    put_u32(&mut image, optional + 32, 0x1000);
    put_u32(&mut image, optional + 36, 0x200);
    put_u32(&mut image, optional + 56, 0x2000);
    put_u32(&mut image, optional + 60, 0x200);
    put_u32(&mut image, optional + 108, 16);
    let section = optional + 0xF0;
    image[section..section + 5].copy_from_slice(b".text");
    put_u32(&mut image, section + 8, 0x1000);
    put_u32(&mut image, section + 12, 0x1000);
    put_u32(&mut image, section + 16, 0x200);
    put_u32(&mut image, section + 36, 0x6000_0020);
    image[0x1000] = 0xC3;
    image
}

fn image() -> Vec<u8> {
    image_at(0x80)
}

fn model_of(bytes: &[u8]) -> PeModel {
    match parse_memory_image(bytes) {
        Ok(found) => found.model,
        Err(error) => panic!("{}", error.as_text()),
    }
}

fn memory_error(bytes: &[u8]) -> Option<ParseError> {
    parse_memory_image(bytes).err()
}

fn rebuild_error(
    memory: &[u8],
    disk: Option<&[u8]>,
    base: u64,
    entry: Option<EntryPointRva>,
) -> Option<AppError> {
    rebuild(memory, &[], base, disk, &ExportIndex::default(), entry, &[]).err()
}

fn layout(section: SectionModel) -> SectionLayout {
    SectionLayout {
        model: section,
        source_length: 0x10,
        raw_offset: 0x200,
        raw_size: 0x200,
    }
}

fn plan_with(entries: Vec<ImportEntry>) -> ImportPlan {
    ImportPlan {
        groups: vec![ImportGroup {
            module: "a.dll".to_string(),
            first_thunk: 0x1000,
            entries,
        }],
        recovered: 1,
        ambiguous: 0,
        unresolved_delay: 0,
        existing: Vec::new(),
    }
}

fn region(base: u64, size: u64) -> MemoryRegion {
    MemoryRegion {
        base,
        allocation_base: base,
        size,
        state: MEM_COMMIT,
        protect: PAGE_EXECUTE_READ,
        kind: 0,
    }
}

#[test]
fn every_way_in_which_headers_are_refused() {
    assert_eq!(memory_error(&[]), Some(ParseError::MissingDosHeader));

    let mut outside = image();
    put_u32(&mut outside, 0x3c, 0x1ff0);
    put_u32(&mut outside, 0x80, 0);
    assert_eq!(memory_error(&outside), Some(ParseError::Truncated));

    let mut unsigned = image();
    put_u32(&mut unsigned, 0x80, 0);
    assert_eq!(memory_error(&unsigned), Some(ParseError::MissingSignature));

    let mut mixed = image();
    put_u16(&mut mixed, 0x84, 0x014C);
    assert_eq!(memory_error(&mixed), Some(ParseError::UnsupportedFormat));

    let mut small = image();
    put_u16(&mut small, 0x94, 111);
    assert_eq!(
        memory_error(&small),
        Some(ParseError::OptionalHeaderTooSmall)
    );

    let mut none = image();
    put_u16(&mut none, 0x86, 0);
    assert_eq!(memory_error(&none), Some(ParseError::BadSectionCount));
    put_u16(&mut none, 0x86, 97);
    assert_eq!(memory_error(&none), Some(ParseError::BadSectionCount));

    let mut odd = image();
    put_u32(&mut odd, 0x98 + 36, 0x180);
    assert_eq!(memory_error(&odd), Some(ParseError::BadAlignment));

    let mut empty = image();
    put_u32(&mut empty, 0x98 + 56, 0);
    assert_eq!(memory_error(&empty), Some(ParseError::EmptyImage));

    let mut long = image();
    put_u32(&mut long, 0x98 + 0xF0 + 8, 0x9000);
    assert_eq!(memory_error(&long), None);
    assert_eq!(
        parse_disk_image(&long).err(),
        Some(ParseError::SectionOutsideImage)
    );
}

#[test]
fn sizes_are_declared_or_refused_with_the_headers() {
    assert_eq!(memory_image_size(&image()), Ok(0x2000));
    assert_eq!(
        memory_image_size(&[0x4d, 0x5a]),
        Err(ParseError::MissingDosHeader)
    );
}

#[test]
fn fields_outside_a_buffer_are_neither_read_nor_written() {
    let mut bytes = [1u8, 2, 3, 4, 5];

    assert_eq!(read_u32(&bytes, 1), Ok(0x0504_0302));
    assert_eq!(read_u32(&bytes, 2), Err(AppError::FieldOutOfRange));
    assert_eq!(
        read_u32(&bytes, usize::MAX),
        Err(AppError::FieldOutOfRange)
    );
    assert_eq!(write_u32(&mut bytes, 2, 9), Err(AppError::FieldOutOfRange));
    assert_eq!(bytes, [1, 2, 3, 4, 5]);
    assert_eq!(write_u32(&mut bytes, 1, 0x0A0B_0C0D), Ok(()));
    assert_eq!(bytes, [1, 0x0D, 0x0C, 0x0B, 0x0A]);
}

#[test]
fn rounding_up_refuses_what_is_no_power_of_two_or_does_not_fit() {
    assert_eq!(align_up(0x201, 0x200), Ok(0x400));
    assert_eq!(align_up(0x400, 0x200), Ok(0x400));
    assert_eq!(align_up(0, 1), Ok(0));
    assert_eq!(align_up(5, 0), Err(AppError::InvalidAlignment));
    assert_eq!(align_up(5, 3), Err(AppError::InvalidAlignment));
    assert_eq!(align_up(usize::MAX, 2), Err(AppError::AlignmentOverflow));
    assert_eq!(align_up_u64(0x1001, 0x1000), Ok(0x2000));
    assert_eq!(align_up_u64(u64::MAX, 0x1000), Err(AppError::AlignmentOverflow));
    assert_eq!(align_up_u64(1, 6), Err(AppError::InvalidAlignment));
}

#[test]
fn directory_slots_that_cannot_be_addressed_are_refused() {
    let mut model = model_of(&image());
    let mut output = image();

    assert_eq!(
        write_directory(&mut output, &model, 16, 1, 1),
        Err(AppError::NoDirectorySlot)
    );
    model.headers.directories_offset = usize::MAX;
    assert_eq!(
        write_directory(&mut output, &model, 1, 1, 1),
        Err(AppError::DirectoryOffsetOverflow)
    );
    assert_eq!(
        write_directory(&mut output, &model, 0, 1, 1),
        Err(AppError::FieldOutOfRange)
    );
}

#[test]
fn files_that_cannot_be_laid_out_are_refused() {
    let memory = image();
    let mut model = model_of(&memory);

    assert_eq!(
        layout_sections(&model, &memory, usize::MAX).err(),
        Some(AppError::LayoutOverflow)
    );
    model.sections[0].header_offset = 0x5000_0000;
    assert_eq!(
        build_output_buffer(&model, &memory).err(),
        Some(AppError::OutputTooLarge)
    );
    model.sections.clear();
    assert_eq!(
        build_output_buffer(&model, &memory).err(),
        Some(AppError::NoSectionHeaders)
    );
    let mut output = Vec::new();
    assert_eq!(
        fill_output(&memory, 0x200, 0x400, &mut output, false),
        Err(AppError::OutOfMemory)
    );
    assert!(output.is_empty());
}

#[test]
fn sections_that_cannot_be_written_are_refused() {
    let memory = image();
    let section = model_of(&memory).sections[0];

    let mut unreadable = layout(section);
    unreadable.model.name = [0xFF; 8];
    let mut tiny = vec![0u8; 4];
    assert_eq!(
        write_sections(&mut tiny, &memory, &[unreadable]),
        Err(AppError::SectionNameOutside)
    );

    let mut output = vec![0u8; 0x400];
    let mut large = layout(section);
    large.raw_size = 0x1_0000_0000;
    assert_eq!(
        write_sections(&mut output, &memory, &[large]),
        Err(AppError::RawSizeTooLarge)
    );
    let mut far = layout(section);
    far.raw_offset = 0x1_0000_0000;
    assert_eq!(
        write_sections(&mut output, &memory, &[far]),
        Err(AppError::RawOffsetTooLarge)
    );
    let mut endless = layout(section);
    endless.source_length = usize::MAX;
    assert_eq!(
        write_sections(&mut output, &memory, &[endless]),
        Err(AppError::SourceRangeOverflow)
    );
    endless.model.virtual_address = Rva(0);
    assert_eq!(
        write_sections(&mut output, &memory, &[endless]),
        Err(AppError::OutputRangeOverflow)
    );
    let mut beyond = layout(section);
    beyond.source_length = 0x2000;
    assert_eq!(
        write_sections(&mut output, &memory, &[beyond]),
        Err(AppError::SourceOutsideMemory)
    );
    let mut short = layout(section);
    short.source_length = 0x201;
    assert_eq!(
        write_sections(&mut output, &memory, &[short]),
        Err(AppError::OutputOutsideImage)
    );
}

#[test]
fn headers_from_disk_are_refused_where_they_do_not_fit() {
    let disk = image();
    let mut damaged = image();
    put_u32(&mut damaged, 0x80, 0);

    assert_eq!(
        rebuild_error(&damaged, None, 0x1_0000, None),
        Some(AppError::Parse(ParseError::MissingSignature))
    );
    assert_eq!(
        rebuild_error(&damaged, Some(&[]), 0x1_0000, None),
        Some(AppError::Parse(ParseError::MissingDosHeader))
    );
    assert_eq!(
        rebuild_error(&damaged[..0x1800], Some(&disk), 0x1_0000, None),
        Some(AppError::DiskImageTooLarge)
    );
    let mut other = damaged.clone();
    put_u16(&mut other, 0x84, 0x014C);
    assert_eq!(
        rebuild_error(&other, Some(&disk), 0x1_0000, None),
        Some(AppError::ArchitectureConflict)
    );
    let mut format = damaged.clone();
    put_u16(&mut format, 0x98, 0x010B);
    assert_eq!(
        rebuild_error(&format, Some(&disk), 0x1_0000, None),
        Some(AppError::FormatConflict)
    );
    assert_eq!(rebuild_error(&damaged, Some(&disk), 0x1_0000, None), None);
}

#[test]
fn header_sizes_of_stored_files_are_limited() {
    let disk = image();
    let mut model = model_of(&disk);

    assert_eq!(disk_header_size(&disk, &model), Ok(0x200));
    assert_eq!(
        disk_header_size(&disk[..0x1ff], &model),
        Err(AppError::DiskHeadersTooLarge)
    );
    model.headers.file_alignment = 0x20_0000;
    assert_eq!(
        disk_header_size(&disk, &model),
        Err(AppError::DiskHeadersTooLarge)
    );
    model.sections.clear();
    assert_eq!(
        disk_header_size(&disk, &model),
        Err(AppError::DiskTableIncomplete)
    );

    let mut wide = image();
    put_u32(&mut wide, 0x98 + 36, 0x1000);
    put_u32(&mut wide, 0x98 + 56, 0x100);
    put_u32(&mut wide, 0x98 + 0xF0 + 8, 0x10);
    put_u32(&mut wide, 0x98 + 0xF0 + 12, 0);
    put_u32(&mut wide, 0x98 + 0xF0 + 16, 0x10);
    let small = vec![0u8; 0x800];
    assert_eq!(
        merge_header_evidence(&small, &wide).err(),
        Some(AppError::DiskHeadersExceedCapture)
    );
}

#[test]
fn the_captured_entry_point_is_kept_only_where_structures_agree() {
    let memory = image();
    let model = model_of(&memory);

    assert_eq!(
        validate_header_evidence(&memory, &model),
        Ok(Some(0x1000))
    );
    let mut foreign = memory.clone();
    put_u16(&mut foreign, 0x84, 0);
    put_u16(&mut foreign, 0x98, 0);
    assert_eq!(validate_header_evidence(&foreign, &model), Ok(None));
    let mut elsewhere = memory.clone();
    put_u32(&mut elsewhere, 0x98 + 16, 0x20);
    assert_eq!(validate_header_evidence(&elsewhere, &model), Ok(None));
}

#[test]
fn header_fields_that_do_not_fit_are_refused() {
    let mut output = image();
    let mut model = model_of(&output);

    model.headers.directory_count = 0x1_0000_0000;
    assert_eq!(
        write_core_header_fields(&mut output, &model, 0, 0x200),
        Err(AppError::DirectoryCountTooLarge)
    );
    assert_eq!(
        write_core_header_fields(&mut output, &model, 0, 0x1_0000_0000),
        Err(AppError::HeaderSizeTooLarge)
    );
    model.sections[0].virtual_address = Rva(0xFFFF_F001);
    assert_eq!(rebuilt_image_size(&model), Err(AppError::ImageTooLarge));
    model.headers.nt_offset = 0x1_0000_0000;
    assert_eq!(
        write_core_header_fields(&mut output, &model, 0, 0x200),
        Err(AppError::NtOffsetTooLarge)
    );
    model.headers.kind = PeKind::Pe32;
    assert_eq!(
        write_image_base(&mut output, &model, 0x1_0000_0000),
        Err(AppError::ImageBaseTooLarge)
    );
    assert_eq!(write_image_base(&mut output, &model, 0xFFFF_FFFF), Ok(()));
}

#[test]
fn sums_over_the_section_table_are_checked() {
    let mut output = image();
    let mut model = model_of(&output);
    let header = model.sections[0].header_offset;

    put_u16(&mut output, 0x86, 3);
    assert_eq!(
        write_derived_header_fields(&mut output, &model),
        Err(AppError::BadSectionCount)
    );
    put_u16(&mut output, 0x86, 1);
    model.sections[0].header_offset = usize::MAX - 39;
    put_u16(&mut output, 0x86, 2);
    assert_eq!(
        write_derived_header_fields(&mut output, &model),
        Err(AppError::FieldOutOfRange)
    );
    model.sections.clear();
    put_u16(&mut output, 0x86, 0);
    assert_eq!(
        write_derived_header_fields(&mut output, &model),
        Err(AppError::NoSectionTable)
    );

    let full = DerivedSizes {
        code: u32::MAX,
        initialized_data: u32::MAX,
        uninitialized_data: u32::MAX,
        base_of_code: 0,
    };
    let mut sizes = full;
    put_u32(&mut output, header + 36, 0x20);
    assert_eq!(
        sizes.add_section(&output, header, 0x200),
        Err(AppError::CodeSizeOverflow)
    );
    put_u32(&mut output, header + 36, 0x40);
    assert_eq!(
        sizes.add_section(&output, header, 0x200),
        Err(AppError::InitializedDataOverflow)
    );
    put_u32(&mut output, header + 36, 0x80);
    assert_eq!(
        sizes.add_section(&output, header, 0x200),
        Err(AppError::UninitializedDataOverflow)
    );
    put_u32(&mut output, header + 8, 0xFFFF_FFFF);
    assert_eq!(
        sizes.add_section(&output, header, 0x200),
        Err(AppError::UninitializedDataTooLarge)
    );
    assert_eq!(sizes, full);
}

#[test]
fn entry_points_outside_code_are_named_in_the_message() {
    let entry = EntryPointRva::new(0x31A20);
    let error = rebuild_error(&image(), None, 0x1_0000, entry);

    assert_eq!(error, Some(AppError::EntryPointNotExecutable(0x31A20)));
    assert_eq!(
        AppError::EntryPointNotExecutable(0x31A20).message(),
        "manual entry point RVA 0x31A20 is not inside an executable section"
    );
    assert_eq!(
        AppError::EntryPointNotExecutable(0).message(),
        "manual entry point RVA 0x0 is not inside an executable section"
    );
    assert_eq!(EntryPointRva::new(0), None);
}

#[test]
fn a_file_that_an_independent_parser_refuses_is_a_failure() {
    let error = rebuild_error(&image_at(0x82), None, 0x1_0000, None);

    assert_eq!(
        error,
        Some(AppError::ReparseFailed(ReparseError::Misaligned))
    );
    assert_eq!(
        AppError::ReparseFailed(ReparseError::Misaligned).message(),
        "rebuilt PE failed independent reparse: address misaligned"
    );
    assert_eq!(
        accept_reparse(0x1000, true, Err(ReparseError::Bounds)),
        Err(AppError::ReparseFailed(ReparseError::Bounds))
    );
    assert_eq!(accept_reparse(0x1000, true, Ok(())), Ok((0x1000, true)));
}

#[test]
fn the_first_fault_of_the_headers_is_the_one_reported() {
    let mut flat = image();
    put_u32(&mut flat, 0x98 + 32, 1);
    put_u32(&mut flat, 0x98 + 0xF0 + 8, 0x10);
    put_u32(&mut flat, 0x98 + 0xF0 + 12, 0);
    put_u32(&mut flat, 0x98 + 0xF0 + 16, 0x10);
    assert_eq!(
        rebuild_error(&flat, None, 0x1_0000, None),
        Some(AppError::ReparseFailed(ReparseError::Insanity))
    );

    let mut both = image_at(0x82);
    put_u32(&mut both, 0x9a + 32, 1);
    put_u32(&mut both, 0x9a + 0xF0 + 8, 0x10);
    put_u32(&mut both, 0x9a + 0xF0 + 12, 0);
    put_u32(&mut both, 0x9a + 0xF0 + 16, 0x10);
    assert_eq!(
        rebuild_error(&both, None, 0x1_0000, None),
        Some(AppError::ReparseFailed(ReparseError::Misaligned))
    );
}

#[test]
fn faults_are_reported_in_the_order_of_the_checks() {
    let mut model = model_of(&image());
    model.sections[0].header_offset = 0;
    model.headers.nt_offset = 0;
    model.headers.size_of_code_offset = 24;
    model.headers.size_of_initialized_data_offset = 28;
    model.headers.size_of_uninitialized_data_offset = 32;
    model.headers.base_of_code_offset = 40;
    model.headers.size_of_headers_offset = 44;
    model.headers.entry_point_offset = 52;
    let fault = |bytes: &[u8]| {
        let mut output = bytes.to_vec();
        put_u16(&mut output, 6, 1);
        finalize_output(&mut output, &model, None).err()
    };
    let failed = |reason| Some(AppError::ReparseFailed(reason));

    assert_eq!(fault(&[0; 0x3c]), failed(ReparseError::Bounds));
    let mut bytes = vec![0u8; 0x100];
    assert_eq!(fault(&bytes), failed(ReparseError::BadMagic));
    put_u16(&mut bytes, 0, 0x5A4D);
    put_u32(&mut bytes, 0x3c, 0x0200_0002);
    assert_eq!(fault(&bytes), failed(ReparseError::Misaligned));
    put_u32(&mut bytes, 0x3c, 0x0200_0000);
    assert_eq!(fault(&bytes), failed(ReparseError::Insanity));
    put_u32(&mut bytes, 0x3c, 0x80);
    assert_eq!(fault(&bytes), failed(ReparseError::Bounds));
    bytes.resize(0x108, 0);
    assert_eq!(fault(&bytes), failed(ReparseError::BadMagic));
    put_u32(&mut bytes, 0x80, 0x4550);
    assert_eq!(fault(&bytes), failed(ReparseError::BadMagic));
    put_u16(&mut bytes, 0x98, 0x20B);
    put_u32(&mut bytes, 0x98 + 60, 0x109);
    assert_eq!(fault(&bytes), failed(ReparseError::Bounds));
    put_u32(&mut bytes, 0x98 + 60, 0x108);
    assert_eq!(fault(&bytes), failed(ReparseError::Insanity));
    put_u32(&mut bytes, 0x98 + 56, 0x108);
    put_u32(&mut bytes, 0x98 + 108, 1);
    put_u16(&mut bytes, 0x86, 97);
    assert_eq!(fault(&bytes), failed(ReparseError::Bounds));
    put_u32(&mut bytes, 0x98 + 108, 0);
    assert_eq!(fault(&bytes), failed(ReparseError::Insanity));
    put_u16(&mut bytes, 0x86, 4);
    assert_eq!(fault(&bytes), failed(ReparseError::Bounds));
    put_u16(&mut bytes, 0x86, 2);
    assert_eq!(fault(&bytes), None);
    put_u16(&mut bytes, 0x98, 0x10B);
    put_u32(&mut bytes, 0x98 + 92, 3);
    assert_eq!(fault(&bytes), failed(ReparseError::Bounds));
    put_u32(&mut bytes, 0x98 + 92, 2);
    assert_eq!(fault(&bytes), None);
}

#[test]
fn runtime_functions_outside_the_file_are_refused() {
    let mut output = vec![0u8; 0x40];

    assert_eq!(
        write_valid_runtime_functions(&mut output, 0, usize::MAX, 12, &[]),
        Err(AppError::ExceptionRangeOverflow)
    );
    assert_eq!(
        write_valid_runtime_functions(&mut output, 0, 0x38, 12, &[]),
        Err(AppError::ExceptionOutsideImage)
    );
    assert_eq!(
        write_valid_runtime_functions(&mut output, 0, 0x20, 12, &[]),
        Ok(())
    );
}

#[test]
fn import_sections_that_do_not_fit_are_refused() {
    let plan = plan_with(vec![ImportEntry {
        name: None,
        ordinal: 7,
    }]);
    let bytes = image();
    let mut model = model_of(&bytes);

    let mut output = bytes.clone();
    put_u32(&mut output, 0x98 + 60, 0x1000);
    put_u32(&mut output, 0x98 + 56, 0xFFFF_F001);
    assert_eq!(
        append_import_section(&mut output, &model, &plan),
        Err(AppError::ImportRvaTooLarge)
    );
    let mut output = bytes.clone();
    put_u32(&mut output, 0x98 + 60, 0x1000);
    model.headers.file_alignment = 0x8000_0000;
    assert_eq!(
        append_import_section(&mut output, &model, &plan),
        Err(AppError::ImportsTooLarge)
    );
    model.sections[0].header_offset = usize::MAX;
    assert_eq!(
        append_import_section(&mut output, &model, &plan),
        Err(AppError::NewSectionOverflow)
    );

    let model = model_of(&bytes);
    let mut output = bytes.clone();
    put_u16(&mut output, 0x86, 0xFFFF);
    assert_eq!(
        commit_import_section(&mut output, &model, &plan, 0x2000, 0x40),
        Err(AppError::SectionCountOverflow)
    );
    let mut output = bytes.clone();
    assert_eq!(
        commit_import_section(&mut output, &model, &plan, 0x2000, usize::MAX),
        Err(AppError::ImportRangeOverflow)
    );
    let mut output = bytes.clone();
    assert_eq!(
        commit_import_section(&mut output, &model, &plan, 0x2000, 0xFFFF_FFFF),
        Err(AppError::ImageSizeTooLarge)
    );
}

#[test]
fn headers_of_import_sections_are_checked() {
    let mut output = vec![0u8; 40];
    let large = 0x1_0000_0000;

    assert_eq!(
        write_mempe_section_header(&mut output, 33, 0, 0, 0, 0),
        Err(AppError::NewSectionNameOutside)
    );
    assert_eq!(
        write_mempe_section_header(&mut output, 0, 0, large, 0, 0),
        Err(AppError::ImportPayloadTooLarge)
    );
    assert_eq!(
        write_mempe_section_header(&mut output, 0, 0, 0, 0, large),
        Err(AppError::ImportRawSizeTooLarge)
    );
    assert_eq!(
        write_mempe_section_header(&mut output, 0, 0, 0, large, 0),
        Err(AppError::ImportRawOffsetTooLarge)
    );
    assert_eq!(
        write_mempe_section_header(&mut output, 0, 0x3000, 0x41, 0x400, 0x200),
        Ok(())
    );
    assert_eq!(&output[..8], b".mempe\0\0");
    assert_eq!(read_u32(&output, 8), Ok(0x41));
    assert_eq!(read_u32(&output, 12), Ok(0x3000));
    assert_eq!(read_u32(&output, 16), Ok(0x200));
    assert_eq!(read_u32(&output, 20), Ok(0x400));
    assert_eq!(read_u32(&output, 36), Ok(0xC000_0040));
}

#[test]
fn import_names_and_thunks_are_checked() {
    let mut bytes = Vec::new();

    assert_eq!(append_ascii(&mut bytes, ""), Err(AppError::BadImportName));
    assert_eq!(append_ascii(&mut bytes, "é"), Err(AppError::BadImportName));
    assert_eq!(
        append_ascii(&mut bytes, "a\0b"),
        Err(AppError::BadImportName)
    );
    assert_eq!(append_ascii(&mut bytes, "a.dll"), Ok(()));
    assert_eq!(bytes, b"a.dll\0");

    let mut thunks = vec![0u8; 8];
    assert_eq!(
        write_thunk(&mut thunks, 0, PeKind::Pe32, 0x1_0000_0000),
        Err(AppError::ImportThunkTooLarge)
    );
    assert_eq!(
        write_thunk(&mut thunks, 1, PeKind::Pe32Plus, 1),
        Err(AppError::FieldOutOfRange)
    );
    assert_eq!(
        payload_rva(1, 0x1_0000_0000, PayloadPart::LookupTable),
        Err(AppError::PayloadOffsetTooLarge(PayloadPart::LookupTable))
    );
    assert_eq!(
        payload_rva(1, 0xFFFF_FFFF, PayloadPart::Module),
        Err(AppError::PayloadRvaOverflow(PayloadPart::Module))
    );
    assert_eq!(payload_rva(0x3000, 0x20, PayloadPart::Module), Ok(0x3020));

    let group = ImportGroup {
        module: "a.dll".to_string(),
        first_thunk: 0,
        entries: vec![
            ImportEntry {
                name: None,
                ordinal: 1,
            },
            ImportEntry {
                name: None,
                ordinal: 2,
            },
        ],
    };
    assert_eq!(
        write_lookup_thunks(&mut thunks, &group, PeKind::Pe32Plus, 0, usize::MAX),
        Err(AppError::FieldOutOfRange)
    );
    let mut room = vec![0u8; 8];
    assert_eq!(
        write_lookup_thunks(&mut room, &group, PeKind::Pe32Plus, 0, 0),
        Err(AppError::FieldOutOfRange)
    );
}

#[test]
fn regions_that_lead_nowhere_are_refused() {
    let mut list = RegionList::new();

    assert_eq!(
        list.add(region(u64::MAX, 2)),
        Err(AppError::RegionAddressOverflow)
    );
    assert_eq!(list.add(region(0, 0)), Err(AppError::RegionRepeated));
    assert_eq!(list.add(region(0x1000, 0x1000)), Ok(()));
    assert_eq!(list.address, 0x2000);
    assert_eq!(
        list.add(region(0x1000, 0x1000)),
        Err(AppError::RegionRepeated)
    );
    assert_eq!(list.regions.len(), 1);
    let mut next = 2u64;
    let mut outcome = Ok(());
    while list.regions.len() + 1 < MAX_MEMORY_REGIONS && outcome.is_ok() {
        outcome = list.add(region(next * 0x1000, 0x1000));
        next += 1;
    }
    assert_eq!(outcome, Ok(()));
    assert_eq!(
        list.add(region(next * 0x1000, 0x1000)),
        Err(AppError::TooManyRegions)
    );
}

#[test]
fn ranges_that_overflow_are_refused() {
    let last = region(u64::MAX - 1, 4);
    let bases: BTreeSet<u64> = [last.base].into_iter().collect();

    assert_eq!(
        group_images(&[last], &bases, None).err(),
        Some(AppError::ImageGroupOverflow)
    );
    assert_eq!(
        allocation_extents(&[last], &bases).err(),
        Some(AppError::AllocationOverflow)
    );
    assert_eq!(
        read_image_regions(0x10, 0, 0x10, &[last]).err(),
        Some(AppError::ImageRegionOverflow)
    );
    assert_eq!(
        regions_in_range(&[], u64::MAX, 1).err(),
        Some(AppError::HiddenRangeOverflow)
    );
    assert_eq!(image_end(u64::MAX, 1), Err(AppError::ImageAddressOverflow));
    assert_eq!(image_end(0x1000, 0x200), Ok(0x1200));
    assert_eq!(
        read_image_regions(0x800, 0x1000, 0x2000, &[region(0x1000, 0x1000)]).err(),
        Some(AppError::ImageRegionOutside)
    );
    assert_eq!(check_captured(&[]), Err(AppError::NoImages));
}

#[test]
fn the_search_for_hidden_images_is_limited() {
    let last = MemoryRegion {
        protect: PAGE_READONLY,
        ..region(u64::MAX - 0x1800, 0x1000)
    };
    let executable: BTreeSet<u64> = [last.base].into_iter().collect();
    let mut scan = match HiddenScan::new(&[last], &executable) {
        Ok(scan) => scan,
        Err(error) => panic!("{}", error.message()),
    };
    scan.scanned = 262_144;
    assert_eq!(scan.next_probe().err(), Some(AppError::ScanTooLarge));

    let mut scan = match HiddenScan::new(&[last], &executable) {
        Ok(scan) => scan,
        Err(error) => panic!("{}", error.message()),
    };
    scan.regions[0].size = u64::MAX;
    scan.offset = 0x2000;
    assert_eq!(scan.next_probe().err(), Some(AppError::ScanAddressOverflow));

    let many: Vec<MemoryRegion> = (1..=4_097u64)
        .map(|index| region(index * 0x1000, 0x1000))
        .collect();
    let executable: BTreeSet<u64> = many.iter().map(|region| region.base).collect();
    let mut scan = match HiddenScan::new(&many, &executable) {
        Ok(scan) => scan,
        Err(error) => panic!("{}", error.message()),
    };
    let mut outcome = Ok(());
    let mut probes = 0;
    while outcome.is_ok() {
        match scan.next_probe() {
            Ok(Some(_)) => probes += 1,
            _ => break,
        }
        outcome = scan.answer(Some(0x1000));
    }
    assert_eq!(outcome, Err(AppError::TooManyHiddenImages));
    assert_eq!(probes, 4_097);
}

#[test]
fn messages_say_what_went_wrong() {
    assert_eq!(
        AppError::OutputTooLarge.message(),
        "rebuilt PE exceeds the 1 GiB output safety limit"
    );
    assert_eq!(
        AppError::Parse(ParseError::Truncated).message(),
        "PE headers are truncated"
    );
    assert_eq!(
        AppError::RebuiltHeadersInvalid(ParseError::EmptyImage).message(),
        "rebuilt PE headers are invalid: image size is zero"
    );
    assert_eq!(
        AppError::DiskRepairFailed {
            memory: ParseError::MissingSignature,
            disk: ParseError::BadAlignment,
        }
        .message(),
        "memory headers are invalid (NT signature is missing); disk header repair failed (PE alignment is invalid)"
    );
    assert_eq!(
        AppError::PayloadRvaOverflow(PayloadPart::LookupTable).message(),
        "import lookup-table RVA overflowed"
    );
    assert_eq!(
        AppError::PayloadOffsetTooLarge(PayloadPart::Module).message(),
        "import module offset exceeds u32"
    );
    assert_eq!(
        AppError::CodeSizeOverflow.message(),
        "code size overflowed"
    );
    assert_eq!(
        AppError::NoImages.message(),
        "no image allocations were present in the captured address space"
    );
}

#[test]
fn nt_headers_at_an_odd_multiple_of_four_are_accepted() {
    let error = rebuild_error(&image_at(0x84), None, 0x1_0000, None);

    assert_eq!(error, None);
}

#[test]
fn images_without_an_image_kind_are_not_image_backed() {
    let regions = [
        region(0x1000, 0x1000),
        MemoryRegion {
            kind: MEM_IMAGE,
            ..region(0x2000, 0x1000)
        },
    ];
    let scan = match read_image_regions(0x2000, 0x1000, 0x3000, &regions) {
        Ok(scan) => scan,
        Err(error) => panic!("{}", error.message()),
    };

    assert!(!scan.image_backed);
    assert_eq!(scan.evidence.len(), 2);
    assert_eq!(scan.reads.len(), 2);
    assert_eq!(scan.reads[1].address, 0x2000);
    assert_eq!(scan.reads[1].offset, 0x1000);
}

#[test]
fn a_model_is_found_through_the_dos_header_or_by_searching() {
    let whole = image();
    let mut bare = image();
    put_u16(&mut bare, 0, 0);
    let image: PeImage<'_> = match parse_memory_image(&whole) {
        Ok(image) => image,
        Err(error) => panic!("{}", error.as_text()),
    };
    assert!(!image.model.headers.salvaged);
    let found = match parse_memory_image(&bare) {
        Ok(found) => found,
        Err(error) => panic!("{}", error.as_text()),
    };
    assert!(found.model.headers.salvaged);
    assert_eq!(found.model.headers.nt_offset, 0x80);
    assert_eq!(
        parse_disk_image(&bare).err(),
        Some(ParseError::MissingDosHeader)
    );
}
