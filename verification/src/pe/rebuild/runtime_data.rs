//! What becomes of data behind the declared ends of sections.

use vstd::prelude::*;

use crate::pe::image::{u16_at, u32_at};
use crate::pe::parse::{
    describes_headers, dos_model, headers_stand, law_usable_headers_are_found, lemma_model_at,
    memory_model,
};
use crate::pe::rebuild::files::{belongs_to, law_layouts_take_in_their_sections};
use crate::pe::rebuild::planned;
use crate::pe::rebuild::recovery::{
    holds_data_at, in_recoverable, law_every_section_takes_in_its_data,
    law_recovery_changes_nothing_else, may_reach, recoverable, recovered_image,
};
use crate::pe::rebuild::sections::recovered_headers;
use crate::pe::{ModelView, RegionEvidence};

verus! {

/// Whether two structures have the same sections, but for their virtual sizes and flags.
pub open spec fn same_sections(left: ModelView, right: ModelView) -> bool {
    &&& left.sections.len() == right.sections.len()
    &&& forall|i: int|
        0 <= i < left.sections.len() ==> {
            &&& (#[trigger] left.sections[i]).header_offset == right.sections[i].header_offset
            &&& left.sections[i].virtual_address == right.sections[i].virtual_address
            &&& left.sections[i].raw_size == right.sections[i].raw_size
        }
}

proof fn lemma_untouched_place(model: ModelView, table: int, place: int)
    requires
        forall|i: int|
            0 <= i < model.sections.len() ==> (#[trigger] model.sections[i]).header_offset == table
                + 40 * i,
    ensures
        recoverable(model.sections, place) ==> table <= place < table + 40 * model.sections.len()
            && (8 <= (place - table) % 40 < 12 || 36 <= (place - table) % 40),
{
    if recoverable(model.sections, place) {
        let i = choose|i: int|
            0 <= i < model.sections.len() && in_recoverable(#[trigger] model.sections[i], place);
        assert(model.sections[i].header_offset == table + 40 * i);
    }
}

/// Whether two images agree but for the image size and the virtual sizes and flags in a
/// section table.
#[verifier::opaque]
pub open spec fn agree_elsewhere(
    left: Seq<u8>,
    right: Seq<u8>,
    nt: int,
    table: int,
    count: int,
) -> bool {
    &&& left.len() == right.len()
    &&& forall|p: int|
        0 <= p < left.len() && !(nt + 80 <= p < nt + 84) && (p < table || p >= table + 40 * count
            || (p - table) % 40 < 8 || 12 <= (p - table) % 40 < 36) ==> #[trigger] right[p]
            == left[p]
}

proof fn lemma_recovery_agrees(memory: Seq<u8>, regions: Seq<RegionEvidence>)
    requires
        memory.len() <= usize::MAX,
        dos_model(memory) is Ok,
        recovered_headers(memory, dos_model(memory)->Ok_0, regions) is Ok,
    ensures
        ({
            let model = dos_model(memory)->Ok_0;
            let nt = u32_at(memory, 0x3c) as int;
            let source = recovered_image(
                memory,
                recovered_headers(memory, model, regions)->Ok_0,
            );
            &&& agree_elsewhere(
                memory,
                source,
                nt,
                nt + 24 + u16_at(memory, nt + 20),
                u16_at(memory, nt + 6) as int,
            )
            &&& u32_at(source, nt + 80) != 0
        }),
{
    reveal(agree_elsewhere);
    let nt = u32_at(memory, 0x3c) as int;
    let model = dos_model(memory)->Ok_0;
    let source = recovered_image(memory, recovered_headers(memory, model, regions)->Ok_0);
    lemma_model_at(memory, nt, false);
    law_recovery_changes_nothing_else(memory, regions);
    let table = nt + 24 + u16_at(memory, nt + 20);
    let count = u16_at(memory, nt + 6) as int;
    assert(model.sections.len() == count && model.headers.size_of_image_offset == nt + 80
        && model.headers.image_size != 0 && forall|i: int|
        0 <= i < model.sections.len() ==> (#[trigger] model.sections[i]).header_offset == table + 40
            * i) by {
        reveal(describes_headers);
        reveal(headers_stand);
    }
    assert forall|p: int|
        0 <= p < memory.len() && !(nt + 80 <= p < nt + 84) && (p < table || p >= table + 40 * count
            || (p - table) % 40 < 8 || 12 <= (p - table) % 40 < 36) implies #[trigger] source[p]
        == memory[p] by {
        lemma_untouched_place(model, table, p);
    }
}

proof fn lemma_headers_still_stand(left: Seq<u8>, right: Seq<u8>, nt: int)
    requires
        0x40 <= nt,
        headers_stand(left, nt),
        agree_elsewhere(
            left,
            right,
            nt,
            nt + 24 + u16_at(left, nt + 20),
            u16_at(left, nt + 6) as int,
        ),
        u32_at(right, nt + 80) != 0,
    ensures
        headers_stand(right, nt),
        u32_at(right, 0x3c) == u32_at(left, 0x3c),
        right[0] == left[0] && right[1] == left[1],
        u16_at(right, nt + 6) == u16_at(left, nt + 6),
        u16_at(right, nt + 20) == u16_at(left, nt + 20),
        forall|i: int|
            0 <= i < u16_at(left, nt + 6) ==> #[trigger] same_entry(
                left,
                right,
                nt + 24 + u16_at(left, nt + 20) + 40 * i,
            ),
{
    reveal(headers_stand);
    assert(left.len() == right.len()) by {
        reveal(agree_elsewhere);
    }
    lemma_same_fields(
        left,
        right,
        nt,
        nt + 24 + u16_at(left, nt + 20),
        u16_at(left, nt + 6) as int,
    );
}

proof fn lemma_sections_match(
    left: Seq<u8>,
    right: Seq<u8>,
    nt: int,
    model: ModelView,
    built: ModelView,
)
    requires
        describes_headers(left, nt, model),
        describes_headers(right, nt, built),
        u16_at(right, nt + 6) == u16_at(left, nt + 6),
        u16_at(right, nt + 20) == u16_at(left, nt + 20),
        forall|i: int|
            0 <= i < u16_at(left, nt + 6) ==> #[trigger] same_entry(
                left,
                right,
                nt + 24 + u16_at(left, nt + 20) + 40 * i,
            ),
    ensures
        same_sections(model, built),
        forall|i: int|
            0 <= i < built.sections.len() ==> (#[trigger] built.sections[i]).virtual_size == u32_at(
                right,
                built.sections[i].header_offset + 8,
            ) && built.sections[i].characteristics == u32_at(
                right,
                built.sections[i].header_offset + 36,
            ),
{
    reveal(describes_headers);
    assert forall|i: int| 0 <= i < model.sections.len() implies {
        &&& (#[trigger] model.sections[i]).header_offset == built.sections[i].header_offset
        &&& model.sections[i].virtual_address == built.sections[i].virtual_address
        &&& model.sections[i].raw_size == built.sections[i].raw_size
    } by {
        let entry = nt + 24 + u16_at(left, nt + 20) + 40 * i;
        assert(same_entry(left, right, entry));
        assert(built.sections[i].header_offset == entry);
    }
}

/// A captured image whose section headers were recovered has the structure that it had, but
/// for the fields that changed.
proof fn lemma_recovered_structure(memory: Seq<u8>, regions: Seq<RegionEvidence>)
    requires
        memory.len() <= usize::MAX,
        dos_model(memory) is Ok,
        u32_at(memory, 0x3c) >= 0x40,
        recovered_headers(memory, dos_model(memory)->Ok_0, regions) is Ok,
    ensures
        ({
            let model = dos_model(memory)->Ok_0;
            let source = recovered_image(
                memory,
                recovered_headers(memory, model, regions)->Ok_0,
            );
            &&& source.len() == memory.len()
            &&& memory_model(source) matches Ok(built) && same_sections(model, built) && forall|
                i: int,
            |
                0 <= i < built.sections.len() ==> (#[trigger] built.sections[i]).virtual_size
                    == u32_at(source, built.sections[i].header_offset + 8)
                    && built.sections[i].characteristics == u32_at(
                    source,
                    built.sections[i].header_offset + 36,
                )
        }),
{
    let nt = u32_at(memory, 0x3c) as int;
    let model = dos_model(memory)->Ok_0;
    let source = recovered_image(memory, recovered_headers(memory, model, regions)->Ok_0);
    lemma_model_at(memory, nt, false);
    lemma_recovery_agrees(memory, regions);
    lemma_headers_still_stand(memory, source, nt);
    assert(source.len() == memory.len()) by {
        reveal(agree_elsewhere);
    }
    assert(memory.len() >= 0x40 && u16_at(memory, 0) == 0x5A4D);
    assert(memory[0] == 0x4d && memory[1] == 0x5a);
    law_usable_headers_are_found(source, nt);
    lemma_sections_match(memory, source, nt, model, memory_model(source)->Ok_0);
}

/// Whether the address and the stored size in an entry of the section table are the same.
pub open spec fn same_entry(left: Seq<u8>, right: Seq<u8>, entry: int) -> bool {
    u32_at(left, entry + 12) == u32_at(right, entry + 12) && u32_at(left, entry + 16) == u32_at(
        right,
        entry + 16,
    )
}

proof fn lemma_same_fields(left: Seq<u8>, right: Seq<u8>, nt: int, table: int, count: int)
    requires
        0x40 <= nt,
        nt + 84 + 32 <= table,
        0 <= count,
        table + 40 * count <= left.len(),
        agree_elsewhere(left, right, nt, table, count),
    ensures
        right[0] == left[0] && right[1] == left[1],
        u32_at(right, 0x3c) == u32_at(left, 0x3c),
        right[nt] == left[nt] && right[nt + 1] == left[nt + 1] && right[nt + 2] == left[nt + 2]
            && right[nt + 3] == left[nt + 3],
        u16_at(right, nt + 4) == u16_at(left, nt + 4),
        u16_at(right, nt + 6) == u16_at(left, nt + 6),
        u16_at(right, nt + 20) == u16_at(left, nt + 20),
        u16_at(right, nt + 24) == u16_at(left, nt + 24),
        u32_at(right, nt + 56) == u32_at(left, nt + 56),
        u32_at(right, nt + 60) == u32_at(left, nt + 60),
        forall|i: int| 0 <= i < count ==> #[trigger] same_entry(left, right, table + 40 * i),
{
    reveal(agree_elsewhere);
    assert forall|p: int| 0 <= p < nt + 80 implies #[trigger] right[p] == left[p] by {}
    assert(right[0x3c] == left[0x3c] && right[0x3d] == left[0x3d] && right[0x3e] == left[0x3e]
        && right[0x3f] == left[0x3f]);
    assert(right[nt + 4] == left[nt + 4] && right[nt + 5] == left[nt + 5]);
    assert(right[nt + 6] == left[nt + 6] && right[nt + 7] == left[nt + 7]);
    assert(right[nt + 20] == left[nt + 20] && right[nt + 21] == left[nt + 21]);
    assert(right[nt + 24] == left[nt + 24] && right[nt + 25] == left[nt + 25]);
    assert(right[nt + 56] == left[nt + 56] && right[nt + 57] == left[nt + 57] && right[nt + 58]
        == left[nt + 58] && right[nt + 59] == left[nt + 59]);
    assert(right[nt + 60] == left[nt + 60] && right[nt + 61] == left[nt + 61] && right[nt + 62]
        == left[nt + 62] && right[nt + 63] == left[nt + 63]);
    assert forall|i: int| 0 <= i < count implies #[trigger] same_entry(
        left,
        right,
        table + 40 * i,
    ) by {
        let entry = table + 40 * i;
        assert forall|k: int| 12 <= k < 20 implies #[trigger] right[entry + k] == left[entry + k] by {
            assert((entry + k - table) % 40 == k);
        }
        assert(right[entry + 12] == left[entry + 12] && right[entry + 13] == left[entry + 13]
            && right[entry + 14] == left[entry + 14] && right[entry + 15] == left[entry + 15]);
        assert(right[entry + 16] == left[entry + 16] && right[entry + 17] == left[entry + 17]
            && right[entry + 18] == left[entry + 18] && right[entry + 19] == left[entry + 19]);
    }
}

/// Data behind the declared end of a section is in the file that is planned. Where a readable
/// byte that is not zero stands there, outside the fields that are recovered, and the section
/// may reach it, the section is stored in the file and its layout takes the byte in; and the
/// bytes that the file is rebuilt from have it. The image is one whose DOS header leads to
/// its NT headers, behind itself.
pub proof fn law_runtime_data_is_in_the_file(
    memory: Seq<u8>,
    regions: Seq<RegionEvidence>,
    disk: Option<Seq<u8>>,
    index: int,
    address: int,
)
    requires
        memory.len() <= usize::MAX,
        u32_at(memory, 0x3c) >= 0x40,
        dos_model(memory) matches Ok(model) && {
            &&& 0 <= index < model.sections.len()
            &&& model.sections[index].start() + model.sections[index].declared() <= address
            &&& may_reach(model, memory, index, address)
            &&& !recoverable(model.sections, address)
            &&& !(model.headers.size_of_image_offset <= address
                < model.headers.size_of_image_offset + 4)
        },
        holds_data_at(memory, regions, address),
    ensures
        planned(memory, regions, disk) matches Ok((plan, source, built, from_disk)) ==> {
            let section = dos_model(memory)->Ok_0.sections[index];
            &&& !from_disk
            &&& source.len() == memory.len()
            &&& source[address] == memory[address]
            &&& exists|place: int|
                0 <= place < plan.layouts.len() && (
                #[trigger] plan.layouts[place]).model.header_offset == section.header_offset
                    && plan.layouts[place].model.start() == section.start() && address
                    < section.start() + plan.layouts[place].source_length
                    && plan.layouts[place].raw_size > 0
        },
{
    let model = dos_model(memory)->Ok_0;
    let section = model.sections[index];
    if let Ok((plan, source, built, from_disk)) = planned(memory, regions, disk) {
        assert(memory_model(memory) == dos_model(memory));
        let found = recovered_headers(memory, model, regions)->Ok_0;
        assert(source == recovered_image(memory, found));
        law_recovery_changes_nothing_else(memory, regions);
        lemma_recovered_structure(memory, regions);
        law_every_section_takes_in_its_data(memory, regions, index);
        assert(may_reach(model, memory, index, address));
        assert(section.header_offset == built.sections[index].header_offset);
        assert(built.sections[index].virtual_size == u32_at(source, section.header_offset + 8));
        assert(belongs_to(built, source, index, address)) by {
            assert forall|j: int| 0 <= j < built.sections.len() && j != index implies (
            #[trigger] built.sections[j]).start() < section.start() || address
                < built.sections[j].start() || (built.sections[j].start() == section.start() && j
                < index) by {
                assert(model.sections[j].virtual_address == built.sections[j].virtual_address);
            }
        }
        let place = law_layouts_take_in_their_sections(source, index);
        assert(source[address] != 0);
        assert(plan.layouts[place].model == built.sections[index]);
    }
}

} // verus!
