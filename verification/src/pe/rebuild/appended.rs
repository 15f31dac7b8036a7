//! What a file says of the section that was added for its imports.

use vstd::prelude::*;

use crate::error::AppError;
use crate::pe::align::{aligned, law_rounding_gives_the_next_multiple, lemma_power_of_two_positive};
use crate::pe::image::{
    fits, law_fields_read_back, law_writes_leave_other_fields, le_u32, overwrite, put_bytes,
    put_u32, u16_at, u32_at,
};
use crate::pe::imports::plan::PlanView;
use crate::pe::rebuild::directories::directory_written;
use crate::pe::rebuild::files::slot_of;
use crate::pe::rebuild::import_section::{
    image_grown, imports_appended, imports_committed, last_header, payload_of, section_counted,
    section_header_written, zero_filled,
};
use crate::pe::{ModelView, PeHeaders};

verus! {

/// Whether the fields that take in a new section stand apart: the section count before the
/// image size, that before the directories, and those before the entry at `header`.
pub open spec fn room_for_header(headers: PeHeaders, header: int) -> bool {
    &&& headers.nt_offset + 8 <= headers.size_of_image_offset
    &&& headers.size_of_image_offset + 4 <= headers.directories_offset
    &&& headers.directories_offset + 8 * headers.directory_count <= header
    &&& headers.directories_offset + 8 * headers.directory_count <= usize::MAX
}

/// Whether the entry of the section table at `header` describes a section named `.mempe` of
/// initialized data that can be read and written.
pub open spec fn header_says(
    bytes: Seq<u8>,
    header: int,
    address: u32,
    length: int,
    raw_offset: int,
    raw_size: int,
) -> bool {
    &&& bytes.subrange(header, header + 8) == seq![0x2eu8, 0x6d, 0x65, 0x6d, 0x70, 0x65, 0, 0]
    &&& u32_at(bytes, header + 8) == length
    &&& u32_at(bytes, header + 12) == address
    &&& u32_at(bytes, header + 16) == raw_size
    &&& u32_at(bytes, header + 20) == raw_offset
    &&& u32_at(bytes, header + 36) == 0xC000_0040
}

proof fn lemma_header_says(
    output: Seq<u8>,
    header: int,
    address: u32,
    length: int,
    raw_offset: int,
    raw_size: int,
)
    requires
        fits(output, header, 40),
        0 <= length,
        0 <= raw_offset,
        0 <= raw_size,
    ensures
        section_header_written(output, header, address, length, raw_offset, raw_size) matches Ok(
            bytes,
        ) ==> {
            &&& bytes.len() == output.len()
            &&& header_says(bytes, header, address, length, raw_offset, raw_size)
            &&& forall|p: int|
                0 <= p < output.len() && !(header <= p < header + 40) ==> #[trigger] bytes[p]
                    == output[p]
        },
{
    let name = seq![0x2eu8, 0x6d, 0x65, 0x6d, 0x70, 0x65, 0, 0];
    if let Ok(bytes) = section_header_written(
        output,
        header,
        address,
        length,
        raw_offset,
        raw_size,
    ) {
        let named = put_bytes(output, header, name)->Ok_0;
        let sized = put_u32(named, header + 8, length as u32)->Ok_0;
        let addressed = put_u32(sized, header + 12, address)->Ok_0;
        let stored = put_u32(addressed, header + 16, raw_size as u32)->Ok_0;
        let placed = put_u32(stored, header + 20, raw_offset as u32)->Ok_0;
        law_fields_read_back(named, header + 8, 0, length as u32, 0);
        law_fields_read_back(sized, header + 12, 0, address, 0);
        law_fields_read_back(addressed, header + 16, 0, raw_size as u32, 0);
        law_fields_read_back(stored, header + 20, 0, raw_offset as u32, 0);
        law_fields_read_back(
            placed,
            header + 36,
            0,
            crate::pe::rebuild::import_section::MEMPE_IMPORT_CHARACTERISTICS,
            0,
        );
        assert(bytes.subrange(header, header + 8) =~= name);
    }
}

/// Whether the directory slot holds the address and the size.
proof fn lemma_directory_written(
    output: Seq<u8>,
    headers: PeHeaders,
    index: int,
    rva: u32,
    size: u32,
)
    requires
        0 <= index < headers.directory_count,
    ensures
        directory_written(output, headers, index, rva, size) matches Ok(bytes) ==> {
            &&& bytes.len() == output.len()
            &&& slot_of(bytes, headers, index) == (rva, size)
            &&& forall|p: int|
                0 <= p < output.len() && !(headers.directories_offset + 8 * index <= p
                    < headers.directories_offset + 8 * index + 8) ==> #[trigger] bytes[p]
                    == output[p]
        },
{
    let slot = headers.directories_offset + 8 * index;
    if let Ok(bytes) = directory_written(output, headers, index, rva, size) {
        let first = put_u32(output, slot, rva)->Ok_0;
        law_fields_read_back(output, slot, 0, rva, 0);
        law_fields_read_back(first, slot + 4, 0, size, 0);
        law_writes_leave_other_fields(first, slot + 4, le_u32(size), slot);
    }
}

/// What is declared once a section of `length` bytes at `address` is taken into the headers.
proof fn lemma_committed(
    output: Seq<u8>,
    model: ModelView,
    plan: PlanView,
    address: u32,
    length: int,
    header: int,
)
    requires
        room_for_header(model.headers, header),
        1 < model.headers.directory_count <= 16,
        0 <= length,
    ensures
        imports_committed(output, model, plan, address, length) matches Ok((bytes, cleared)) ==> {
            let headers = model.headers;
            &&& bytes.len() == output.len()
            &&& u16_at(bytes, headers.nt_offset + 6) == u16_at(output, headers.nt_offset + 6) + 1
            &&& address + length <= u32_at(bytes, headers.size_of_image_offset as int)
            &&& u32_at(bytes, headers.size_of_image_offset as int) < address + length
                + headers.section_alignment
            &&& slot_of(bytes, headers, 1) == (
                address,
                (20 * (plan.groups.len() + 1) + plan.existing.len()) as u32,
            )
            &&& 20 * (plan.groups.len() + 1) + plan.existing.len() <= u32::MAX
            &&& plan.existing.len() == 0 && headers.directory_count > 12 ==> slot_of(
                bytes,
                headers,
                12,
            ) == (0u32, 0u32)
            &&& forall|p: int| header <= p < output.len() ==> #[trigger] bytes[p] == output[p]
        },
{
    let headers = model.headers;
    if let Ok((bytes, cleared)) = imports_committed(output, model, plan, address, length) {
        let counted = section_counted(output, model)->Ok_0;
        let count = u16_at(output, headers.nt_offset + 6);
        law_fields_read_back(output, headers.nt_offset + 6, (count + 1) as u16, 0, 0);
        let alignment = headers.section_alignment as int;
        lemma_power_of_two_positive(alignment);
        law_rounding_gives_the_next_multiple(address + length, alignment);
        let size = aligned(address + length, alignment, u64::MAX as int)->Ok_0 as u32;
        let grown = image_grown(counted, model, address, length)->Ok_0;
        law_fields_read_back(counted, headers.size_of_image_offset as int, 0, size, 0);
        let declared = directory_written(
            grown,
            headers,
            1,
            address,
            (20 * (plan.groups.len() + 1) + plan.existing.len()) as u32,
        )->Ok_0;
        lemma_directory_written(
            grown,
            headers,
            1,
            address,
            (20 * (plan.groups.len() + 1) + plan.existing.len()) as u32,
        );
        if headers.directory_count > 12 {
            lemma_directory_written(declared, headers, 12, 0, 0);
        }
        let image = headers.size_of_image_offset as int;
        let number = headers.nt_offset + 6;
        let first = headers.directories_offset + 8;
        assert forall|p: int|
            0 <= p < output.len() && !(first <= p < first + 8) && !(first + 88 <= p < first
                + 96) implies #[trigger] bytes[p] == grown[p] by {
            assert(declared[p] == grown[p]);
        }
        assert forall|p: int| first <= p < first + 8 implies #[trigger] bytes[p] == declared[p] by {
        }
        assert(bytes[image] == grown[image] && bytes[image + 1] == grown[image + 1] && bytes[image
            + 2] == grown[image + 2] && bytes[image + 3] == grown[image + 3]);
        assert(bytes[number] == grown[number] && bytes[number + 1] == grown[number + 1]);
        assert(grown[number] == counted[number] && grown[number + 1] == counted[number + 1]);
        assert(bytes[first] == declared[first] && bytes[first + 1] == declared[first + 1]
            && bytes[first + 2] == declared[first + 2] && bytes[first + 3] == declared[first + 3]
            && bytes[first + 4] == declared[first + 4] && bytes[first + 5] == declared[first + 5]
            && bytes[first + 6] == declared[first + 6] && bytes[first + 7] == declared[first + 7]);
        assert(slot_of(bytes, headers, 1) == slot_of(declared, headers, 1));
    }
}

/// Where a section is added for the imports, the file has it: an entry behind the last one of
/// the section table describes it, its contents stand at the end of the file, the section
/// count and the image size take it in, and the import directory leads to it, with room for
/// its descriptors. Where no descriptors were kept, the directory of the old address table is
/// emptied. It is added wherever the headers have room for its entry and the image has an
/// import directory.
pub proof fn law_added_imports_are_declared(output: Seq<u8>, model: ModelView, plan: PlanView)
    requires
        ({
            let header = last_header(model.sections) + 40;
            &&& room_for_header(model.headers, header)
            &&& fits(output, header, 40)
        }),
        output.len() <= usize::MAX,
        model.headers.directory_count <= 16,
        model.sections.len() > 0,
    ensures
        imports_appended(output, model, plan) matches Ok(appended) ==> {
            let header = last_header(model.sections) + 40;
            let headers = model.headers;
            let bytes = appended.bytes;
            let address = u32_at(bytes, header + 12);
            let length = u32_at(bytes, header + 8) as int;
            let raw_size = u32_at(bytes, header + 16);
            let raw_offset = u32_at(bytes, header + 20) as int;
            &&& appended.written <==> headers.directory_count > 1 && header + 40 <= u32_at(
                output,
                headers.size_of_headers_offset as int,
            )
            &&& !appended.written ==> bytes == output
            &&& appended.written ==> {
                &&& header_says(
                    bytes,
                    header,
                    address,
                    length,
                    raw_offset,
                    raw_size as int,
                )
                &&& u32_at(output, headers.size_of_image_offset as int) <= address
                &&& output.len() <= raw_offset && raw_offset + raw_size == bytes.len() && length
                    <= raw_size
                &&& payload_of(plan, headers.kind, address) == Ok::<Seq<u8>, AppError>(
                    bytes.subrange(raw_offset, raw_offset + length),
                )
                &&& u16_at(bytes, headers.nt_offset + 6) == u16_at(output, headers.nt_offset + 6)
                    + 1
                &&& address + length <= u32_at(bytes, headers.size_of_image_offset as int)
                &&& slot_of(bytes, headers, 1) == (
                    address,
                    (20 * (plan.groups.len() + 1) + plan.existing.len()) as u32,
                )
                &&& plan.existing.len() == 0 && headers.directory_count > 12 ==> slot_of(
                    bytes,
                    headers,
                    12,
                ) == (0u32, 0u32)
            }
        },
{
    let header = last_header(model.sections) + 40;
    let headers = model.headers;
    if let Ok(appended) = imports_appended(output, model, plan) {
        if appended.written {
            let image_size = u32_at(output, headers.size_of_image_offset as int);
            let section_alignment = headers.section_alignment as int;
            lemma_power_of_two_positive(section_alignment);
            law_rounding_gives_the_next_multiple(image_size as int, section_alignment);
            let address = aligned(
                image_size as int,
                section_alignment,
                u64::MAX as int,
            )->Ok_0 as u32;
            let payload = payload_of(plan, headers.kind, address)->Ok_0;
            let alignment = headers.file_alignment as int;
            lemma_power_of_two_positive(alignment);
            law_rounding_gives_the_next_multiple(output.len() as int, alignment);
            law_rounding_gives_the_next_multiple(payload.len() as int, alignment);
            let raw_offset = aligned(output.len() as int, alignment, usize::MAX as int)->Ok_0;
            let raw_size = aligned(payload.len() as int, alignment, usize::MAX as int)->Ok_0;
            let filled = overwrite(
                zero_filled(output, raw_offset + raw_size),
                raw_offset,
                payload,
            );
            let length = payload.len() as int;
            let headed = section_header_written(
                filled,
                header,
                address,
                length,
                raw_offset,
                raw_size,
            )->Ok_0;
            lemma_header_says(filled, header, address, length, raw_offset, raw_size);
            lemma_committed(headed, model, plan, address, length, header);
            let bytes = appended.bytes;
            assert(bytes == imports_committed(headed, model, plan, address, length)->Ok_0.0);
            lemma_header_stays(headed, bytes, header, address, length, raw_offset, raw_size);
            assert(bytes.subrange(raw_offset, raw_offset + length) =~= payload) by {
                assert forall|k: int| 0 <= k < length implies bytes[raw_offset + k]
                    == payload[k] by {
                    assert(headed[raw_offset + k] == filled[raw_offset + k]);
                    assert(bytes[raw_offset + k] == headed[raw_offset + k]);
                }
            }
            let number = headers.nt_offset + 6;
            assert(headed[number] == output[number] && headed[number + 1] == output[number + 1]) by {
                assert(headed[number] == filled[number]);
                assert(headed[number + 1] == filled[number + 1]);
            }
        }
    }
}

proof fn lemma_header_stays(
    before: Seq<u8>,
    after: Seq<u8>,
    header: int,
    address: u32,
    length: int,
    raw_offset: int,
    raw_size: int,
)
    requires
        before.len() == after.len(),
        fits(before, header, 40),
        forall|p: int| header <= p < before.len() ==> #[trigger] after[p] == before[p],
        header_says(before, header, address, length, raw_offset, raw_size),
    ensures
        header_says(after, header, address, length, raw_offset, raw_size),
{
    assert(after.subrange(header, header + 8) =~= before.subrange(header, header + 8));
    assert forall|field: int| header <= field <= header + 36 implies #[trigger] u32_at(after, field)
        == u32_at(before, field) by {
        assert(after[field] == before[field] && after[field + 1] == before[field + 1]
            && after[field + 2] == before[field + 2] && after[field + 3] == before[field + 3]);
    }
}

} // verus!
