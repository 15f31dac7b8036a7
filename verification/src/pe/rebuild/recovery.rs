//! What holds of section headers that were brought in line with the memory that was seen.

use vstd::prelude::*;

use crate::error::AppError;
use crate::pe::align::{law_rounding_gives_the_next_multiple, lemma_power_of_two_positive};
use crate::pe::image::{fits, law_fields_read_back, put_u32, u16_at, u32_at};
use crate::pe::parse::{memory_model, section_at};
use crate::pe::rebuild::laws::{entries_apart, entries_differ, lemma_ordering_keeps_apart};
use crate::pe::rebuild::sections::{
    access_recovered, by_address, coverage, expanded_length, grants, growth_limit,
    image_size_recovered, law_access_is_only_added, law_ordering_keeps_every_section,
    law_sections_never_shrink, length_recovered, overlap, placed, recovered_headers,
    section_recovered, sections_recovered, seen_characteristics, used_at, used_end, Access,
    Recovery,
};
use crate::pe::rebuild::survival::lemma_model_place;
use crate::pe::rebuild::{greater, lesser};
use crate::pe::{ModelView, RegionEvidence, SectionModel};

verus! {

/// Whether the first of two sections comes first: by address, then by its place in the table.
pub open spec fn comes_first(left: SectionModel, right: SectionModel) -> bool {
    left.start() < right.start() || (left.start() == right.start() && left.header_offset
        < right.header_offset)
}

/// Whether each section comes before all that follow it.
pub open spec fn in_sequence(sections: Seq<SectionModel>) -> bool {
    forall|i: int, j: int|
        0 <= i < j < sections.len() ==> comes_first(#[trigger] sections[i], #[trigger] sections[j])
}

/// Whether the sections stand in the order of the table.
pub open spec fn in_table_order(sections: Seq<SectionModel>) -> bool {
    forall|i: int, j: int|
        0 <= i < j < sections.len() ==> (#[trigger] sections[i]).header_offset < (
        #[trigger] sections[j]).header_offset
}

proof fn lemma_placed_in_sequence(
    sorted: Seq<SectionModel>,
    section: SectionModel,
    other: SectionModel,
)
    requires
        in_sequence(sorted),
        forall|i: int|
            0 <= i < sorted.len() ==> (#[trigger] sorted[i]).header_offset < section.header_offset,
    ensures
        in_sequence(placed(sorted, section)),
        placed(sorted, section).len() == sorted.len() + 1,
        (forall|i: int| 0 <= i < sorted.len() ==> comes_first(#[trigger] sorted[i], other))
            && comes_first(section, other) ==> forall|i: int|
            0 <= i < placed(sorted, section).len() ==> comes_first(
                #[trigger] placed(sorted, section)[i],
                other,
            ),
        (forall|i: int|
            0 <= i < sorted.len() ==> (#[trigger] sorted[i]).header_offset < other.header_offset)
            && section.header_offset < other.header_offset ==> forall|i: int|
            0 <= i < placed(sorted, section).len() ==> (#[trigger] placed(
                sorted,
                section,
            )[i]).header_offset < other.header_offset,
    decreases sorted.len(),
{
    if sorted.len() == 0 || sorted.last().start() <= section.start() {
        let all = sorted.push(section);
        assert forall|i: int, j: int| 0 <= i < j < all.len() implies comes_first(
            #[trigger] all[i],
            #[trigger] all[j],
        ) by {
            if j == sorted.len() {
                assert(sorted[i].header_offset < section.header_offset);
                if i < sorted.len() - 1 {
                    assert(comes_first(sorted[i], sorted[sorted.len() - 1]));
                }
            } else {
                assert(comes_first(sorted[i], sorted[j]));
            }
        }
    } else {
        let rest = sorted.drop_last();
        assert(forall|i: int| 0 <= i < rest.len() ==> #[trigger] rest[i] == sorted[i]);
        assert forall|i: int| 0 <= i < rest.len() implies comes_first(
            #[trigger] rest[i],
            sorted.last(),
        ) by {
            assert(comes_first(sorted[i], sorted[sorted.len() - 1]));
        }
        lemma_placed_in_sequence(rest, section, sorted.last());
        lemma_placed_in_sequence(rest, section, other);
    }
}

proof fn lemma_by_address_in_sequence(sections: Seq<SectionModel>, other: SectionModel)
    requires
        in_table_order(sections),
    ensures
        in_sequence(by_address(sections)),
        (forall|i: int|
            0 <= i < sections.len() ==> (#[trigger] sections[i]).header_offset
                < other.header_offset) ==> forall|i: int|
            0 <= i < by_address(sections).len() ==> (#[trigger] by_address(
                sections,
            )[i]).header_offset < other.header_offset,
    decreases sections.len(),
{
    if sections.len() > 0 {
        let rest = sections.drop_last();
        assert(forall|i: int| 0 <= i < rest.len() ==> #[trigger] rest[i] == sections[i]);
        assert forall|i: int| 0 <= i < rest.len() implies (#[trigger] rest[i]).header_offset
            < sections.last().header_offset by {
            assert(sections[i].header_offset < sections[sections.len() - 1].header_offset);
        }
        lemma_by_address_in_sequence(rest, sections.last());
        lemma_by_address_in_sequence(rest, other);
        lemma_placed_in_sequence(by_address(rest), sections.last(), other);
        if forall|i: int|
            0 <= i < sections.len() ==> (#[trigger] sections[i]).header_offset
                < other.header_offset {
            assert(sections[sections.len() - 1].header_offset < other.header_offset);
        }
    }
}

/// Ordering sections by address puts the lower first; those with one address stay in the
/// order of the table.
pub proof fn law_ordering_is_by_address_then_table(sections: Seq<SectionModel>)
    requires
        in_table_order(sections),
    ensures
        in_sequence(by_address(sections)),
        by_address(sections).to_multiset() == sections.to_multiset(),
{
    law_ordering_keeps_every_section(sections);
    if sections.len() > 0 {
        lemma_by_address_in_sequence(sections, sections[0]);
    }
}

/// Whether the structure was read from the bytes: its table stands behind the field of the
/// image size, its entries are in order and apart, and they say what the bytes say.
pub open spec fn table_read_from(memory: Seq<u8>, model: ModelView) -> bool {
    &&& model.sections.len() > 0
    &&& in_table_order(model.sections)
    &&& entries_apart(model.sections)
    &&& forall|i: int|
        0 <= i < model.sections.len() ==> {
            let header = (#[trigger] model.sections[i]).header_offset as int;
            &&& fits(memory, header, 40)
            &&& model.headers.size_of_image_offset + 4 <= header
            &&& model.sections[i].virtual_size == u32_at(memory, header + 8)
            &&& model.sections[i].virtual_address.0 == u32_at(memory, header + 12)
            &&& model.sections[i].raw_size == u32_at(memory, header + 16)
            &&& model.sections[i].characteristics == u32_at(memory, header + 36)
        }
    &&& model.headers.image_size == u32_at(memory, model.headers.size_of_image_offset as int)
    &&& crate::pe::align::is_power_of_two(model.headers.section_alignment as int)
}

/// The structure of a captured image was read from its bytes.
pub proof fn lemma_parsed_table(memory: Seq<u8>)
    requires
        memory.len() <= usize::MAX,
        memory_model(memory) is Ok,
    ensures
        table_read_from(memory, memory_model(memory)->Ok_0),
{
    let model = memory_model(memory)->Ok_0;
    let (nt, salvaged) = lemma_model_place(memory);
    let count = u16_at(memory, nt + 6) as int;
    let table = nt + 24 + u16_at(memory, nt + 20);
    assert(model.sections.len() == count);
    assert forall|i: int| 0 <= i < count implies #[trigger] model.sections[i] == section_at(
        memory,
        table + 40 * i,
    ) && model.sections[i].header_offset == table + 40 * i by {}
    assert forall|i: int, j: int| 0 <= i < j < model.sections.len() implies entries_differ(
        #[trigger] model.sections[i],
        #[trigger] model.sections[j],
    ) by {
        assert(model.sections[i].header_offset == table + 40 * i);
        assert(model.sections[j].header_offset == table + 40 * j);
    }
}

/// Whether the place holds a header field that recovery may change: the virtual size or the
/// flags of a section, or the image size.
pub open spec fn recoverable(sections: Seq<SectionModel>, place: int) -> bool {
    exists|i: int|
        0 <= i < sections.len() && in_recoverable(#[trigger] sections[i], place)
}

/// Whether the place holds the virtual size or the flags of the section.
pub open spec fn in_recoverable(section: SectionModel, place: int) -> bool {
    section.header_offset + 8 <= place < section.header_offset + 12 || section.header_offset + 36
        <= place < section.header_offset + 40
}

/// Whether the header of a section says what was found.
#[verifier::opaque]
pub open spec fn header_recovered(
    bytes: Seq<u8>,
    section: SectionModel,
    memory: Seq<u8>,
    regions: Seq<RegionEvidence>,
    limit: int,
) -> bool {
    let header = section.header_offset as int;
    let start = section.start();
    let length = expanded_length(memory, regions, start, limit, section.declared());
    if start >= limit {
        u32_at(bytes, header + 8) == section.virtual_size && u32_at(bytes, header + 36)
            == section.characteristics
    } else {
        &&& u32_at(bytes, header + 8) == if length > section.declared() {
            length
        } else {
            section.virtual_size as int
        }
        &&& u32_at(bytes, header + 36) == seen_characteristics(
            section.characteristics,
            regions,
            start,
            lesser(start + length, limit),
        )
    }
}

/// Whether the header of a section says what it said when it was captured.
#[verifier::opaque]
pub open spec fn header_untouched(bytes: Seq<u8>, section: SectionModel) -> bool {
    let header = section.header_offset as int;
    &&& fits(bytes, header, 40)
    &&& u32_at(bytes, header + 8) == section.virtual_size
    &&& u32_at(bytes, header + 36) == section.characteristics
}

/// Where the section ends once it has grown; zero where it did not grow.
#[verifier::opaque]
pub open spec fn grown_end(
    section: SectionModel,
    memory: Seq<u8>,
    regions: Seq<RegionEvidence>,
    limit: int,
) -> int {
    let start = section.start();
    let length = expanded_length(memory, regions, start, limit, section.declared());
    if start < limit && length > section.declared() {
        start + length
    } else {
        0
    }
}

proof fn lemma_section_recovered(
    state: Recovery,
    section: SectionModel,
    memory: Seq<u8>,
    regions: Seq<RegionEvidence>,
    limit: int,
)
    requires
        header_untouched(state.bytes, section),
        limit <= usize::MAX,
    ensures
        limit <= u32::MAX ==> section_recovered(state, section, memory, regions, limit) is Ok,
        section_recovered(state, section, memory, regions, limit) matches Ok(next) ==> {
            &&& next.bytes.len() == state.bytes.len()
            &&& header_recovered(next.bytes, section, memory, regions, limit)
            &&& forall|p: int|
                0 <= p < state.bytes.len() && !in_recoverable(section, p) ==> #[trigger] next.bytes[p]
                    == state.bytes[p]
            &&& next.changed || next.bytes == state.bytes
            &&& state.changed ==> next.changed
            &&& next.image_end == greater(
                state.image_end,
                grown_end(section, memory, regions, limit),
            ) || (grown_end(section, memory, regions, limit) == 0 && next.image_end
                == state.image_end)
        },
{
    reveal(header_recovered);
    reveal(header_untouched);
    reveal(grown_end);
    let header = section.header_offset as int;
    let start = section.start();
    if start < limit {
        let length = expanded_length(memory, regions, start, limit, section.declared());
        law_sections_never_shrink(memory, regions, start, limit, section.declared());
        if let Ok(middle) = length_recovered(state, section, length) {
            let flags = seen_characteristics(
                section.characteristics,
                regions,
                start,
                lesser(start + length, limit),
            );
            law_fields_read_back(state.bytes, header + 8, 0, length as u32, 0);
            law_fields_read_back(middle.bytes, header + 36, 0, flags, 0);
            assert(fits(middle.bytes, header, 40));
            assert(u32_at(middle.bytes, header + 36) == section.characteristics);
            if let Ok(next) = access_recovered(middle, section, flags) {
                assert(u32_at(next.bytes, header + 8) == u32_at(middle.bytes, header + 8));
                assert(u32_at(next.bytes, header + 36) == flags);
            }
        }
    }
}

/// What holds of a recovery that has done the sections before `index`.
pub open spec fn recovery_reached(
    state: Recovery,
    ordered: Seq<SectionModel>,
    image_size: int,
    memory: Seq<u8>,
    regions: Seq<RegionEvidence>,
    index: int,
) -> bool {
    &&& state.bytes.len() == memory.len()
    &&& forall|j: int|
        0 <= j < index ==> header_recovered(
            state.bytes,
            #[trigger] ordered[j],
            memory,
            regions,
            growth_limit(ordered, image_size, memory, j),
        )
    &&& forall|j: int|
        index <= j < ordered.len() ==> header_untouched(state.bytes, #[trigger] ordered[j])
    &&& forall|p: int|
        0 <= p < memory.len() && !recoverable(ordered, p) ==> #[trigger] state.bytes[p] == memory[p]
    &&& state.changed || state.bytes == memory
    &&& image_size <= state.image_end
    &&& forall|j: int|
        0 <= j < index ==> grown_end(
            #[trigger] ordered[j],
            memory,
            regions,
            growth_limit(ordered, image_size, memory, j),
        ) <= state.image_end
    &&& state.image_end == image_size || exists|j: int|
        0 <= j < index && state.image_end == grown_end(
            #[trigger] ordered[j],
            memory,
            regions,
            growth_limit(ordered, image_size, memory, j),
        )
}

proof fn lemma_fields_stay(
    before: Seq<u8>,
    after: Seq<u8>,
    section: SectionModel,
    other: SectionModel,
    memory: Seq<u8>,
    regions: Seq<RegionEvidence>,
    limit: int,
)
    requires
        before.len() == after.len(),
        fits(before, other.header_offset as int, 40),
        entries_differ(section, other),
        forall|p: int|
            0 <= p < before.len() && !in_recoverable(section, p) ==> #[trigger] after[p]
                == before[p],
    ensures
        header_recovered(before, other, memory, regions, limit) ==> header_recovered(
            after,
            other,
            memory,
            regions,
            limit,
        ),
        header_untouched(before, other) ==> header_untouched(after, other),
{
    reveal(header_recovered);
    reveal(header_untouched);
    let h = other.header_offset as int;
    assert(after[h + 8] == before[h + 8] && after[h + 9] == before[h + 9] && after[h + 10]
        == before[h + 10] && after[h + 11] == before[h + 11]);
    assert(after[h + 36] == before[h + 36] && after[h + 37] == before[h + 37] && after[h + 38]
        == before[h + 38] && after[h + 39] == before[h + 39]);
    assert(u32_at(after, h + 8) == u32_at(before, h + 8));
    assert(u32_at(after, h + 36) == u32_at(before, h + 36));
}

#[verifier::rlimit(30)]
#[verifier::spinoff_prover]
proof fn lemma_sections_recovered(
    state: Recovery,
    ordered: Seq<SectionModel>,
    image_size: int,
    memory: Seq<u8>,
    regions: Seq<RegionEvidence>,
    index: int,
)
    requires
        0 <= index <= ordered.len(),
        entries_apart(ordered),
        memory.len() <= usize::MAX,
        0 <= image_size <= u32::MAX,
        forall|j: int|
            0 <= j < ordered.len() ==> fits(
                memory,
                (#[trigger] ordered[j]).header_offset as int,
                40,
            ),
        recovery_reached(state, ordered, image_size, memory, regions, index),
    ensures
        sections_recovered(state, ordered, image_size, memory, regions, index) matches Ok(last)
            && recovery_reached(
            last,
            ordered,
            image_size,
            memory,
            regions,
            ordered.len() as int,
        ),
    decreases ordered.len() - index,
{
    if index < ordered.len() {
        let section = ordered[index];
        let limit = growth_limit(ordered, image_size, memory, index);
        assert(header_untouched(state.bytes, ordered[index]));
        lemma_section_recovered(state, section, memory, regions, limit);
        let next = section_recovered(state, section, memory, regions, limit)->Ok_0;
        assert forall|j: int| 0 <= j < index + 1 implies header_recovered(
            next.bytes,
            #[trigger] ordered[j],
            memory,
            regions,
            growth_limit(ordered, image_size, memory, j),
        ) by {
            if j < index {
                assert(header_recovered(
                    state.bytes,
                    ordered[j],
                    memory,
                    regions,
                    growth_limit(ordered, image_size, memory, j),
                ));
                assert(entries_differ(ordered[j], ordered[index]));
                lemma_fields_stay(
                    state.bytes,
                    next.bytes,
                    section,
                    ordered[j],
                    memory,
                    regions,
                    growth_limit(ordered, image_size, memory, j),
                );
            }
        }
        assert forall|j: int| index + 1 <= j < ordered.len() implies header_untouched(
            next.bytes,
            #[trigger] ordered[j],
        ) by {
            assert(header_untouched(state.bytes, ordered[j]));
            assert(entries_differ(ordered[index], ordered[j]));
            lemma_fields_stay(
                state.bytes,
                next.bytes,
                section,
                ordered[j],
                memory,
                regions,
                0,
            );
        }
        assert forall|p: int|
            0 <= p < memory.len() && !recoverable(ordered, p) implies #[trigger] next.bytes[p]
            == memory[p] by {
            assert(!in_recoverable(ordered[index], p));
            assert(next.bytes[p] == state.bytes[p]);
        }
        assert forall|j: int| 0 <= j < index + 1 implies grown_end(
            #[trigger] ordered[j],
            memory,
            regions,
            growth_limit(ordered, image_size, memory, j),
        ) <= next.image_end by {
            if j < index {
                assert(grown_end(
                    ordered[j],
                    memory,
                    regions,
                    growth_limit(ordered, image_size, memory, j),
                ) <= state.image_end);
            }
        }
        assert(next.image_end == image_size || exists|j: int|
            0 <= j < index + 1 && next.image_end == grown_end(
                #[trigger] ordered[j],
                memory,
                regions,
                growth_limit(ordered, image_size, memory, j),
            )) by {
            if next.image_end == state.image_end {
                if state.image_end != image_size {
                    let j = choose|j: int|
                        0 <= j < index && state.image_end == grown_end(
                            #[trigger] ordered[j],
                            memory,
                            regions,
                            growth_limit(ordered, image_size, memory, j),
                        );
                    assert(next.image_end == grown_end(
                        ordered[j],
                        memory,
                        regions,
                        growth_limit(ordered, image_size, memory, j),
                    ));
                }
            } else {
                assert(next.image_end == grown_end(
                    ordered[index],
                    memory,
                    regions,
                    growth_limit(ordered, image_size, memory, index),
                ));
            }
        }
        lemma_sections_recovered(next, ordered, image_size, memory, regions, index + 1);
    }
}

/// How many of the regions hold the address and are chosen.
pub open spec fn holders(
    regions: Seq<RegionEvidence>,
    address: int,
    chosen: spec_fn(RegionEvidence) -> bool,
) -> int
    decreases regions.len(),
{
    if regions.len() == 0 {
        0
    } else {
        let region = regions.last();
        holders(regions.drop_last(), address, chosen) + if chosen(region) && region.offset
            <= address < region.offset + region.size {
            1int
        } else {
            0
        }
    }
}

/// How many bytes from `start` up to `end` the chosen regions hold, each address counted once
/// for every region that holds it.
pub open spec fn bytes_held(
    regions: Seq<RegionEvidence>,
    start: int,
    end: int,
    chosen: spec_fn(RegionEvidence) -> bool,
) -> int
    decreases end - start,
{
    if end <= start {
        0
    } else {
        bytes_held(regions, start, end - 1, chosen) + holders(regions, end - 1, chosen)
    }
}

/// Whether a chosen region holds an address from `start` up to `end`.
pub open spec fn held_somewhere(
    regions: Seq<RegionEvidence>,
    start: int,
    end: int,
    chosen: spec_fn(RegionEvidence) -> bool,
) -> bool {
    exists|i: int, address: int|
        0 <= i < regions.len() && chosen(regions[i]) && start <= address < end
            && #[trigger] region_holds(regions[i], address)
}

/// Whether the region holds the address.
pub open spec fn region_holds(region: RegionEvidence, address: int) -> bool {
    region.offset <= address < region.offset + region.size
}

proof fn lemma_bytes_held(
    regions: Seq<RegionEvidence>,
    start: int,
    end: int,
    chosen: spec_fn(RegionEvidence) -> bool,
)
    requires
        regions.len() > 0,
    ensures
        bytes_held(regions, start, end, chosen) == bytes_held(
            regions.drop_last(),
            start,
            end,
            chosen,
        ) + if chosen(regions.last()) {
            overlap(regions.last(), start, end)
        } else {
            0
        },
    decreases end - start,
{
    if end > start {
        lemma_bytes_held(regions, start, end - 1, chosen);
    }
}

proof fn lemma_nothing_held(
    regions: Seq<RegionEvidence>,
    start: int,
    end: int,
    chosen: spec_fn(RegionEvidence) -> bool,
)
    requires
        regions.len() == 0,
    ensures
        bytes_held(regions, start, end, chosen) == 0,
    decreases end - start,
{
    if end > start {
        lemma_nothing_held(regions, start, end - 1, chosen);
    }
}

proof fn lemma_coverage(
    regions: Seq<RegionEvidence>,
    start: int,
    end: int,
    access: Access,
    chosen: spec_fn(RegionEvidence) -> bool,
)
    requires
        forall|region: RegionEvidence| #[trigger] chosen(region) == grants(region, access),
    ensures
        coverage(regions, start, end, access) == bytes_held(regions, start, end, chosen),
        coverage(regions, start, end, access) >= 0,
        coverage(regions, start, end, access) > 0 <==> held_somewhere(
            regions,
            start,
            end,
            chosen,
        ),
    decreases regions.len(),
{
    if regions.len() == 0 {
        lemma_nothing_held(regions, start, end, chosen);
    } else {
        let rest = regions.drop_last();
        let region = regions.last();
        lemma_coverage(rest, start, end, access, chosen);
        lemma_bytes_held(regions, start, end, chosen);
        assert(chosen(region) == grants(region, access));
        if held_somewhere(rest, start, end, chosen) {
            let (i, address) = choose|i: int, address: int|
                0 <= i < rest.len() && chosen(rest[i]) && start <= address < end
                    && #[trigger] region_holds(rest[i], address);
            assert(region_holds(regions[i], address) && chosen(regions[i]));
        }
        if chosen(region) && overlap(region, start, end) > 0 {
            let address = greater(start, region.offset as int);
            assert(region_holds(regions[regions.len() - 1], address));
        }
        if held_somewhere(regions, start, end, chosen) {
            let (i, address) = choose|i: int, address: int|
                0 <= i < regions.len() && chosen(regions[i]) && start <= address < end
                    && #[trigger] region_holds(regions[i], address);
            if i < rest.len() {
                assert(region_holds(rest[i], address) && chosen(rest[i]));
            }
        }
    }
}

/// The flags that a section gets are those it had and those its memory was seen with: of
/// code and of execution where an executable region holds one of its bytes, of reading where
/// a readable region does, and of writing where writable regions hold as many bytes as it has
/// and so do all regions, or where they hold two pages and half of it.
pub proof fn law_access_follows_the_regions(
    characteristics: u32,
    regions: Seq<RegionEvidence>,
    start: int,
    end: int,
)
    requires
        start <= end,
    ensures
        ({
            let seen = seen_characteristics(characteristics, regions, start, end);
            let executable = held_somewhere(
                regions,
                start,
                end,
                |region: RegionEvidence| region.executable,
            );
            let readable = held_somewhere(
                regions,
                start,
                end,
                |region: RegionEvidence| region.readable,
            );
            let written = bytes_held(
                regions,
                start,
                end,
                |region: RegionEvidence| region.writable,
            );
            let all = bytes_held(regions, start, end, |region: RegionEvidence| true);
            &&& seen & 0x2000_0000 != 0 <==> characteristics & 0x2000_0000 != 0 || executable
            &&& seen & 0x20 != 0 <==> characteristics & 0x20 != 0 || executable
            &&& seen & 0x4000_0000 != 0 <==> characteristics & 0x4000_0000 != 0 || readable
            &&& seen & 0x8000_0000 != 0 <==> characteristics & 0x8000_0000 != 0 || (written > 0 && (
            (written >= end - start && all >= end - start) || (written >= 0x2000 && 2 * written
                >= end - start)))
            &&& seen & characteristics == characteristics
            &&& seen & !0xE000_0020u32 == characteristics & !0xE000_0020u32
        }),
{
    law_access_is_only_added(characteristics, regions, start, end);
    lemma_coverage(
        regions,
        start,
        end,
        Access::Execute,
        |region: RegionEvidence| region.executable,
    );
    lemma_coverage(regions, start, end, Access::Read, |region: RegionEvidence| region.readable);
    lemma_coverage(regions, start, end, Access::Write, |region: RegionEvidence| region.writable);
    lemma_coverage(regions, start, end, Access::Any, |region: RegionEvidence| true);
    lemma_writable_is_seen(regions, start, end);
    let c = characteristics;
    let executed = if coverage(regions, start, end, Access::Execute) > 0 {
        c | (0x2000_0000u32 | 0x20u32)
    } else {
        c
    };
    let read = if coverage(regions, start, end, Access::Read) > 0 {
        executed | 0x4000_0000u32
    } else {
        executed
    };
    lemma_flag_bits(c);
    lemma_flag_bits(executed);
    lemma_flag_bits(read);
}

proof fn lemma_flag_bits(a: u32)
    ensures
        ({
            let x = a | (0x2000_0000u32 | 0x20u32);
            let r = a | 0x4000_0000u32;
            let w = a | 0x8000_0000u32;
            &&& x & 0x2000_0000 != 0 && x & 0x20 != 0 && x & 0x4000_0000 == a & 0x4000_0000 && x
                & 0x8000_0000 == a & 0x8000_0000
            &&& r & 0x4000_0000 != 0 && r & 0x20 == a & 0x20 && r & 0x2000_0000 == a & 0x2000_0000
                && r & 0x8000_0000 == a & 0x8000_0000
            &&& w & 0x8000_0000 != 0 && w & 0x20 == a & 0x20 && w & 0x2000_0000 == a & 0x2000_0000
                && w & 0x4000_0000 == a & 0x4000_0000
        }),
{
    assert(({
        let x = a | (0x2000_0000u32 | 0x20u32);
        let r = a | 0x4000_0000u32;
        let w = a | 0x8000_0000u32;
        &&& x & 0x2000_0000 != 0 && x & 0x20 != 0 && x & 0x4000_0000 == a & 0x4000_0000 && x
            & 0x8000_0000 == a & 0x8000_0000
        &&& r & 0x4000_0000 != 0 && r & 0x20 == a & 0x20 && r & 0x2000_0000 == a & 0x2000_0000 && r
            & 0x8000_0000 == a & 0x8000_0000
        &&& w & 0x8000_0000 != 0 && w & 0x20 == a & 0x20 && w & 0x2000_0000 == a & 0x2000_0000 && w
            & 0x4000_0000 == a & 0x4000_0000
    })) by (bit_vector);
}

proof fn lemma_writable_is_seen(regions: Seq<RegionEvidence>, start: int, end: int)
    ensures
        0 <= coverage(regions, start, end, Access::Write) <= coverage(
            regions,
            start,
            end,
            Access::Any,
        ),
    decreases regions.len(),
{
    if regions.len() > 0 {
        lemma_writable_is_seen(regions.drop_last(), start, end);
    }
}

proof fn lemma_used_end_takes_in(
    memory: Seq<u8>,
    regions: Seq<RegionEvidence>,
    from: int,
    limit: int,
    address: int,
)
    requires
        from <= address < limit,
        used_at(memory, regions, address),
    ensures
        address < used_end(memory, regions, from, limit),
    decreases limit - from,
{
    if !used_at(memory, regions, limit - 1) {
        lemma_used_end_takes_in(memory, regions, from, limit - 1, address);
    }
}

/// What is used behind the declared end of a section, up to the limit, is taken in.
pub proof fn law_sections_take_in_what_is_used(
    memory: Seq<u8>,
    regions: Seq<RegionEvidence>,
    start: int,
    limit: int,
    declared: int,
    address: int,
)
    requires
        start + declared <= address < limit,
        0 <= address < memory.len(),
        memory[address] != 0,
        held_somewhere(
            regions,
            address,
            address + 1,
            |region: RegionEvidence| region.readable,
        ),
    ensures
        address < start + expanded_length(memory, regions, start, limit, declared),
{
    let chosen = |region: RegionEvidence| region.readable;
    let (i, place) = choose|i: int, place: int|
        0 <= i < regions.len() && chosen(regions[i]) && address <= place < address + 1
            && #[trigger] region_holds(regions[i], place);
    assert(regions[i].readable);
    assert(used_at(memory, regions, address));
    lemma_used_end_takes_in(
        memory,
        regions,
        lesser(start + declared, limit),
        limit,
        address,
    );
}

/// Whether the section at `index` may reach the address: the address lies in memory, behind
/// the start of the section, before every section that comes after it, and in the image where
/// none does. Of sections with one address the last of the table may.
pub open spec fn may_reach(model: ModelView, memory: Seq<u8>, index: int, address: int) -> bool {
    let section = model.sections[index];
    &&& section.start() <= address < memory.len()
    &&& forall|j: int|
        0 <= j < model.sections.len() && j != index ==> (#[trigger] model.sections[j]).start()
            < section.start() || address < model.sections[j].start() || (
        model.sections[j].start() == section.start() && j < index)
    &&& address < model.headers.image_size || exists|j: int|
        0 <= j < model.sections.len() && j != index && address < (
        #[trigger] model.sections[j]).start()
}

/// Every section has a place by address.
pub proof fn lemma_in_ordered(sections: Seq<SectionModel>, index: int) -> (place: int)
    requires
        0 <= index < sections.len(),
    ensures
        0 <= place < by_address(sections).len(),
        by_address(sections)[place] == sections[index],
{
    broadcast use vstd::seq_lib::group_to_multiset_ensures;

    let ordered = by_address(sections);
    law_ordering_keeps_every_section(sections);
    assert(sections.contains(sections[index]));
    assert(ordered.to_multiset().count(sections[index]) > 0);
    assert(ordered.contains(sections[index]));
    choose|place: int| 0 <= place < ordered.len() && ordered[place] == sections[index]
}

/// Every section by address is one of the table.
pub proof fn lemma_in_table(sections: Seq<SectionModel>, place: int) -> (index: int)
    requires
        0 <= place < by_address(sections).len(),
    ensures
        0 <= index < sections.len(),
        by_address(sections)[place] == sections[index],
{
    broadcast use vstd::seq_lib::group_to_multiset_ensures;

    let ordered = by_address(sections);
    law_ordering_keeps_every_section(sections);
    assert(ordered.contains(ordered[place]));
    assert(sections.to_multiset().count(ordered[place]) > 0);
    assert(sections.contains(ordered[place]));
    choose|index: int| 0 <= index < sections.len() && sections[index] == ordered[place]
}

proof fn lemma_reach_is_limited(
    memory: Seq<u8>,
    model: ModelView,
    index: int,
    place: int,
    address: int,
)
    requires
        in_table_order(model.sections),
        in_sequence(by_address(model.sections)),
        0 <= index < model.sections.len(),
        0 <= place < by_address(model.sections).len(),
        by_address(model.sections)[place] == model.sections[index],
        may_reach(model, memory, index, address),
    ensures
        address < growth_limit(
            by_address(model.sections),
            model.headers.image_size as int,
            memory,
            place,
        ),
{
    let sections = model.sections;
    let ordered = by_address(sections);
    let section = sections[index];
    if place + 1 < ordered.len() {
        assert(comes_first(ordered[place], ordered[place + 1]));
        let j = lemma_in_table(sections, place + 1);
        if j < index {
            assert(sections[j].header_offset < sections[index].header_offset);
        }
        assert(address < sections[j].start());
    } else if address >= model.headers.image_size {
        let j = choose|j: int|
            0 <= j < sections.len() && j != index && address < (#[trigger] sections[j]).start();
        let m = lemma_in_ordered(sections, j);
        if m < place {
            assert(comes_first(ordered[m], ordered[place]));
        }
    }
}

proof fn lemma_limit_is_reached(
    memory: Seq<u8>,
    model: ModelView,
    index: int,
    place: int,
    address: int,
)
    requires
        in_table_order(model.sections),
        in_sequence(by_address(model.sections)),
        0 <= index < model.sections.len(),
        0 <= place < by_address(model.sections).len(),
        by_address(model.sections)[place] == model.sections[index],
        model.sections[index].start() <= address < growth_limit(
            by_address(model.sections),
            model.headers.image_size as int,
            memory,
            place,
        ),
    ensures
        may_reach(model, memory, index, address),
{
    let sections = model.sections;
    let ordered = by_address(sections);
    let section = sections[index];
    assert forall|j: int| 0 <= j < sections.len() && j != index implies (
    #[trigger] sections[j]).start() < section.start() || address < sections[j].start() || (
    sections[j].start() == section.start() && j < index) by {
        let m = lemma_in_ordered(sections, j);
        if j < index {
            assert(sections[j].header_offset < sections[index].header_offset);
        } else {
            assert(sections[index].header_offset < sections[j].header_offset);
        }
        if m < place {
            assert(comes_first(ordered[m], ordered[place]));
        } else {
            if m > place + 1 {
                assert(comes_first(ordered[place + 1], ordered[m]));
            }
            assert(ordered[place + 1].start() <= ordered[m].start());
        }
    }
    if place + 1 < ordered.len() {
        let j = lemma_in_table(sections, place + 1);
        assert(comes_first(ordered[place], ordered[place + 1]));
        assert(j != index);
        assert(address < sections[j].start());
    }
}

/// Where the section at `index` stands by address, and how far it may reach.
proof fn lemma_place_by_address(memory: Seq<u8>, model: ModelView, index: int) -> (place: int)
    requires
        table_read_from(memory, model),
        0 <= index < model.sections.len(),
    ensures
        0 <= place < by_address(model.sections).len(),
        by_address(model.sections)[place] == model.sections[index],
        forall|address: int|
            model.sections[index].start() <= address ==> (#[trigger] may_reach(
                model,
                memory,
                index,
                address,
            ) <==> address < growth_limit(
                by_address(model.sections),
                model.headers.image_size as int,
                memory,
                place,
            )),
{
    let limit_of = |place: int|
        growth_limit(
            by_address(model.sections),
            model.headers.image_size as int,
            memory,
            place,
        );
    law_ordering_is_by_address_then_table(model.sections);
    let place = lemma_in_ordered(model.sections, index);
    assert forall|address: int| model.sections[index].start() <= address implies (
    #[trigger] may_reach(model, memory, index, address) <==> address < limit_of(place)) by {
        if may_reach(model, memory, index, address) {
            lemma_reach_is_limited(memory, model, index, place, address);
        }
        if address < limit_of(place) {
            lemma_limit_is_reached(memory, model, index, place, address);
        }
    }
    place
}

/// The image that a recovery gives: the repaired copy, or the captured image where nothing
/// had to be repaired.
pub open spec fn recovered_image(memory: Seq<u8>, found: Option<Seq<u8>>) -> Seq<u8> {
    match found {
        Some(bytes) => bytes,
        None => memory,
    }
}

/// Whether a readable region holds the address and the byte there is not zero.
pub open spec fn holds_data_at(
    memory: Seq<u8>,
    regions: Seq<RegionEvidence>,
    address: int,
) -> bool {
    &&& 0 <= address < memory.len()
    &&& memory[address] != 0
    &&& held_somewhere(
        regions,
        address,
        address + 1,
        |region: RegionEvidence| region.readable,
    )
}

proof fn lemma_holds_data_at(memory: Seq<u8>, regions: Seq<RegionEvidence>, address: int)
    ensures
        holds_data_at(memory, regions, address) == used_at(memory, regions, address),
{
    let chosen = |region: RegionEvidence| region.readable;
    if holds_data_at(memory, regions, address) {
        let (i, place) = choose|i: int, place: int|
            0 <= i < regions.len() && chosen(regions[i]) && address <= place < address + 1
                && #[trigger] region_holds(regions[i], place);
        assert(regions[i].readable);
    }
    if used_at(memory, regions, address) {
        let i = choose|i: int|
            0 <= i < regions.len() && (#[trigger] regions[i]).readable && regions[i].offset
                <= address < regions[i].offset + regions[i].size;
        assert(chosen(regions[i]));
        assert(region_holds(regions[i], address));
    }
}

/// What a recovery leaves, section by section, before the image size is looked at.
proof fn lemma_recovery(memory: Seq<u8>, regions: Seq<RegionEvidence>) -> (state: Recovery)
    requires
        memory.len() <= usize::MAX,
        memory_model(memory) is Ok,
        regions.len() > 0,
    ensures
        ({
            let model = memory_model(memory)->Ok_0;
            let ordered = by_address(model.sections);
            let image_size = model.headers.image_size as int;
            &&& table_read_from(memory, model)
            &&& recovery_reached(
                state,
                ordered,
                image_size,
                memory,
                regions,
                ordered.len() as int,
            )
            &&& recovered_headers(memory, model, regions) == match image_size_recovered(
                state,
                model,
            ) {
                Err(error) => Err(error),
                Ok(last) => Ok(
                    if last.changed {
                        Some(last.bytes)
                    } else {
                        None
                    },
                ),
            }
        }),
{
    let model = memory_model(memory)->Ok_0;
    let ordered = by_address(model.sections);
    let image_size = model.headers.image_size as int;
    lemma_parsed_table(memory);
    lemma_ordering_keeps_apart(model.sections, model.sections[0]);
    law_ordering_keeps_every_section(model.sections);
    let initial = Recovery { bytes: memory, changed: false, image_end: image_size };
    assert forall|j: int| 0 <= j < ordered.len() implies fits(
        memory,
        (#[trigger] ordered[j]).header_offset as int,
        40,
    ) && header_untouched(memory, ordered[j]) by {
        reveal(header_untouched);
        let i = lemma_in_table(model.sections, j);
        assert(fits(memory, model.sections[i].header_offset as int, 40));
    }
    assert(recovery_reached(initial, ordered, image_size, memory, regions, 0));
    lemma_sections_recovered(initial, ordered, image_size, memory, regions, 0);
    sections_recovered(initial, ordered, image_size, memory, regions, 0)->Ok_0
}

/// The image size field stands apart from the fields of the section table.
proof fn lemma_image_size_written(memory: Seq<u8>, model: ModelView, state: Recovery, size: u32)
    requires
        table_read_from(memory, model),
        state.bytes.len() == memory.len(),
    ensures
        put_u32(state.bytes, model.headers.size_of_image_offset as int, size) matches Ok(bytes) ==> {
            &&& bytes.len() == memory.len()
            &&& u32_at(bytes, model.headers.size_of_image_offset as int) == size
            &&& forall|i: int|
                0 <= i < model.sections.len() ==> {
                    let header = (#[trigger] model.sections[i]).header_offset as int;
                    &&& u32_at(bytes, header + 8) == u32_at(state.bytes, header + 8)
                    &&& u32_at(bytes, header + 36) == u32_at(state.bytes, header + 36)
                }
        },
{
    let at = model.headers.size_of_image_offset as int;
    if let Ok(bytes) = put_u32(state.bytes, at, size) {
        law_fields_read_back(state.bytes, at, 0, size, 0);
        assert forall|i: int| 0 <= i < model.sections.len() implies {
            let header = (#[trigger] model.sections[i]).header_offset as int;
            &&& u32_at(bytes, header + 8) == u32_at(state.bytes, header + 8)
            &&& u32_at(bytes, header + 36) == u32_at(state.bytes, header + 36)
        } by {
            let header = model.sections[i].header_offset as int;
            assert(fits(memory, header, 40));
        }
    }
}

/// What is found of the section at `index`: its fields are those of the recovery.
proof fn lemma_fields_of_section(
    memory: Seq<u8>,
    regions: Seq<RegionEvidence>,
    index: int,
) -> (limit: int)
    requires
        memory.len() <= usize::MAX,
        memory_model(memory) is Ok,
        0 <= index < memory_model(memory)->Ok_0.sections.len(),
    ensures
        limit <= memory.len(),
        ({
            let model = memory_model(memory)->Ok_0;
            let section = model.sections[index];
            &&& forall|address: int|
                section.start() <= address ==> (#[trigger] may_reach(
                    model,
                    memory,
                    index,
                    address,
                ) <==> address < limit)
            &&& recovered_headers(memory, model, regions) matches Ok(found) ==> header_recovered(
                recovered_image(memory, found),
                section,
                memory,
                regions,
                limit,
            )
        }),
{
    let model = memory_model(memory)->Ok_0;
    let ordered = by_address(model.sections);
    let image_size = model.headers.image_size as int;
    lemma_parsed_table(memory);
    let place = lemma_place_by_address(memory, model, index);
    let limit = growth_limit(ordered, image_size, memory, place);
    let section = model.sections[index];
    assert(section.virtual_size == u32_at(memory, section.header_offset + 8));
    if regions.len() > 0 {
        let state = lemma_recovery(memory, regions);
        assert(header_recovered(state.bytes, ordered[place], memory, regions, limit));
        if let Ok(found) = recovered_headers(memory, model, regions) {
            let bytes = recovered_image(memory, found);
            if state.image_end > image_size {
                let size = crate::pe::align::aligned(
                    state.image_end,
                    model.headers.section_alignment as int,
                    usize::MAX as int,
                )->Ok_0 as u32;
                lemma_image_size_written(memory, model, state, size);
                reveal(header_recovered);
                assert(u32_at(bytes, section.header_offset + 8) == u32_at(
                    state.bytes,
                    section.header_offset + 8,
                ));
            } else {
                assert(bytes == state.bytes);
            }
        }
    } else {
        reveal(header_recovered);
        let length = expanded_length(memory, regions, section.start(), limit, section.declared());
        law_sections_never_shrink(
            memory,
            regions,
            section.start(),
            limit,
            section.declared(),
        );
    }
    limit
}

/// Every section of an image takes in the data behind its declared end. Where a readable byte
/// that is not zero stands there and the section may reach it, the virtual size in its
/// recovered header reaches beyond that byte. A virtual size that changed ends with such a
/// byte, and is larger than what was declared.
pub proof fn law_every_section_takes_in_its_data(
    memory: Seq<u8>,
    regions: Seq<RegionEvidence>,
    index: int,
)
    requires
        memory.len() <= usize::MAX,
        memory_model(memory) is Ok,
        0 <= index < memory_model(memory)->Ok_0.sections.len(),
    ensures
        ({
            let model = memory_model(memory)->Ok_0;
            let section = model.sections[index];
            recovered_headers(memory, model, regions) matches Ok(found) ==> {
                let bytes = recovered_image(memory, found);
                let size = u32_at(bytes, section.header_offset + 8);
                &&& forall|address: int|
                    #![trigger may_reach(model, memory, index, address)]
                    section.start() + section.declared() <= address && may_reach(
                        model,
                        memory,
                        index,
                        address,
                    ) && holds_data_at(memory, regions, address) ==> address < section.start()
                        + size
                &&& size == section.virtual_size || (size > section.declared() && may_reach(
                    model,
                    memory,
                    index,
                    section.start() + size - 1,
                ) && holds_data_at(memory, regions, section.start() + size - 1))
            }
        }),
{
    let model = memory_model(memory)->Ok_0;
    let section = model.sections[index];
    let limit = lemma_fields_of_section(memory, regions, index);
    if let Ok(found) = recovered_headers(memory, model, regions) {
        reveal(header_recovered);
        let bytes = recovered_image(memory, found);
        let size = u32_at(bytes, section.header_offset + 8);
        let start = section.start();
        let declared = section.declared();
        law_sections_never_shrink(memory, regions, start, limit, declared);
        assert forall|address: int|
            #![trigger may_reach(model, memory, index, address)]
            start + declared <= address && may_reach(model, memory, index, address)
                && holds_data_at(memory, regions, address) implies address < start + size by {
            lemma_holds_data_at(memory, regions, address);
            law_sections_take_in_what_is_used(memory, regions, start, limit, declared, address);
        }
        lemma_holds_data_at(memory, regions, start + size - 1);
    }
}

/// Every section of an image gets the access that its memory was seen with. Its bytes are
/// those of its declared or its recovered size, as far as it may reach: where an executable
/// region holds one, it gets the flags of code and execution; where a readable region holds
/// one, that of reading; where writable regions hold each of them, that of writing. It keeps
/// the flags that it had, and gets no flag of code, execution or reading that no region
/// stands for.
pub proof fn law_every_section_gets_the_access_that_was_seen(
    memory: Seq<u8>,
    regions: Seq<RegionEvidence>,
    index: int,
)
    requires
        memory.len() <= usize::MAX,
        memory_model(memory) is Ok,
        0 <= index < memory_model(memory)->Ok_0.sections.len(),
    ensures
        ({
            let model = memory_model(memory)->Ok_0;
            let section = model.sections[index];
            recovered_headers(memory, model, regions) matches Ok(found) ==> {
                let bytes = recovered_image(memory, found);
                let flags = u32_at(bytes, section.header_offset + 36);
                &&& forall|i: int, address: int|
                    #![trigger region_holds(regions[i], address)]
                    0 <= i < regions.len() && region_holds(regions[i], address)
                        && has_byte(memory, bytes, model, index, address) ==> {
                        &&& regions[i].executable ==> flags & 0x2000_0000 != 0 && flags & 0x20 != 0
                        &&& regions[i].readable ==> flags & 0x4000_0000 != 0
                    }
                &&& (exists|address: int| #[trigger]
                    has_byte(memory, bytes, model, index, address)) && (forall|address: int|
                    #[trigger]
                    has_byte(memory, bytes, model, index, address) ==> held_somewhere(
                        regions,
                        address,
                        address + 1,
                        |region: RegionEvidence| region.writable,
                    )) ==> flags & 0x8000_0000 != 0
                &&& flags & section.characteristics == section.characteristics
                &&& flags & !0xE000_0020u32 == section.characteristics & !0xE000_0020u32
                &&& flags & 0x2000_0000 != 0 && section.characteristics & 0x2000_0000 == 0
                    ==> exists|i: int, address: int|
                    0 <= i < regions.len() && regions[i].executable && #[trigger] region_holds(
                        regions[i],
                        address,
                    ) && has_byte(memory, bytes, model, index, address)
                &&& flags & 0x4000_0000 != 0 && section.characteristics & 0x4000_0000 == 0
                    ==> exists|i: int, address: int|
                    0 <= i < regions.len() && regions[i].readable && #[trigger] region_holds(
                        regions[i],
                        address,
                    ) && has_byte(memory, bytes, model, index, address)
            }
        }),
{
    let model = memory_model(memory)->Ok_0;
    let section = model.sections[index];
    let limit = lemma_fields_of_section(memory, regions, index);
    if let Ok(found) = recovered_headers(memory, model, regions) {
        reveal(header_recovered);
        let bytes = recovered_image(memory, found);
        let flags = u32_at(bytes, section.header_offset + 36);
        let size = u32_at(bytes, section.header_offset + 8);
        let start = section.start();
        let declared = section.declared();
        let executable = |region: RegionEvidence| region.executable;
        let readable = |region: RegionEvidence| region.readable;
        let writable = |region: RegionEvidence| region.writable;
        let c = section.characteristics;
        assert(c & c == c) by (bit_vector);
        if start < limit {
            let length = expanded_length(memory, regions, start, limit, declared);
            law_sections_never_shrink(memory, regions, start, limit, declared);
            let end = lesser(start + length, limit);
            law_access_follows_the_regions(c, regions, start, end);
            assert forall|address: int| #[trigger]
                has_byte(memory, bytes, model, index, address) <==> start <= address < end by {
                assert(may_reach(model, memory, index, address) ==> start <= address);
            }
            assert forall|i: int, address: int|
                #![trigger region_holds(regions[i], address)]
                0 <= i < regions.len() && region_holds(regions[i], address) && has_byte(
                    memory,
                    bytes,
                    model,
                    index,
                    address,
                ) implies {
                &&& regions[i].executable ==> flags & 0x2000_0000 != 0 && flags & 0x20 != 0
                &&& regions[i].readable ==> flags & 0x4000_0000 != 0
            } by {
                assert(executable(regions[i]) == regions[i].executable);
                assert(readable(regions[i]) == regions[i].readable);
            }
            if held_somewhere(regions, start, end, executable) {
                let (i, address) = choose|i: int, address: int|
                    0 <= i < regions.len() && executable(regions[i]) && start <= address < end
                        && #[trigger] region_holds(regions[i], address);
                assert(region_holds(regions[i], address) && has_byte(
                    memory,
                    bytes,
                    model,
                    index,
                    address,
                ));
            }
            if held_somewhere(regions, start, end, readable) {
                let (i, address) = choose|i: int, address: int|
                    0 <= i < regions.len() && readable(regions[i]) && start <= address < end
                        && #[trigger] region_holds(regions[i], address);
                assert(region_holds(regions[i], address) && has_byte(
                    memory,
                    bytes,
                    model,
                    index,
                    address,
                ));
            }
            if (exists|address: int| #[trigger] has_byte(memory, bytes, model, index, address)) && (
            forall|address: int| #[trigger]
                has_byte(memory, bytes, model, index, address) ==> held_somewhere(
                    regions,
                    address,
                    address + 1,
                    writable,
                )) {
                assert forall|address: int| start <= address < end implies #[trigger] held_somewhere(
                    regions,
                    address,
                    address + 1,
                    writable,
                ) by {
                    assert(has_byte(memory, bytes, model, index, address));
                }
                lemma_held_everywhere(regions, start, end, writable);
                lemma_coverage(regions, start, end, Access::Write, writable);
                lemma_coverage(regions, start, end, Access::Any, |region: RegionEvidence| true);
                lemma_writable_is_seen(regions, start, end);
            }
        } else {
            assert forall|address: int| !#[trigger] has_byte(
                memory,
                bytes,
                model,
                index,
                address,
            ) by {
                assert(may_reach(model, memory, index, address) ==> start <= address);
            }
        }
    }
}

/// Whether the address is one of the section's, by its declared or its recovered size, as far
/// as it may reach.
pub open spec fn has_byte(
    memory: Seq<u8>,
    bytes: Seq<u8>,
    model: ModelView,
    index: int,
    address: int,
) -> bool {
    let section = model.sections[index];
    &&& may_reach(model, memory, index, address)
    &&& address < section.start() + section.declared() || address < section.start() + u32_at(
        bytes,
        section.header_offset + 8,
    )
}

proof fn lemma_held_everywhere(
    regions: Seq<RegionEvidence>,
    start: int,
    end: int,
    chosen: spec_fn(RegionEvidence) -> bool,
)
    requires
        start <= end,
        forall|address: int|
            start <= address < end ==> #[trigger] held_somewhere(
                regions,
                address,
                address + 1,
                chosen,
            ),
    ensures
        bytes_held(regions, start, end, chosen) >= end - start,
    decreases end - start,
{
    if end > start {
        lemma_held_everywhere(regions, start, end - 1, chosen);
        assert(held_somewhere(regions, end - 1, end - 1 + 1, chosen));
        lemma_holder(regions, end - 1, chosen);
    }
}

proof fn lemma_holder(
    regions: Seq<RegionEvidence>,
    address: int,
    chosen: spec_fn(RegionEvidence) -> bool,
)
    ensures
        holders(regions, address, chosen) >= 0,
        held_somewhere(regions, address, address + 1, chosen) ==> holders(
            regions,
            address,
            chosen,
        ) >= 1,
    decreases regions.len(),
{
    if regions.len() > 0 {
        let rest = regions.drop_last();
        lemma_holder(rest, address, chosen);
        if held_somewhere(regions, address, address + 1, chosen) {
            let (i, place) = choose|i: int, place: int|
                0 <= i < regions.len() && chosen(regions[i]) && address <= place < address + 1
                    && #[trigger] region_holds(regions[i], place);
            if i < rest.len() {
                assert(region_holds(rest[i], address) && chosen(rest[i]));
            }
        }
    }
}

/// Recovery changes the virtual sizes and flags of sections and the image size, and nothing
/// else. The image size grows where a section has grown beyond it, to the next multiple of
/// the alignment behind the furthest such section; else it stays. And recovery fails only
/// where that size cannot be stored.
#[verifier::rlimit(50)]
#[verifier::spinoff_prover]
pub proof fn law_recovery_changes_nothing_else(memory: Seq<u8>, regions: Seq<RegionEvidence>)
    requires
        memory.len() <= usize::MAX,
        memory_model(memory) is Ok,
    ensures
        ({
            let model = memory_model(memory)->Ok_0;
            let field = model.headers.size_of_image_offset as int;
            match recovered_headers(memory, model, regions) {
                Err(error) => error == AppError::RecoveredImageTooLarge || error
                    == AppError::AlignmentOverflow,
                Ok(found) => {
                    let bytes = recovered_image(memory, found);
                    let size = u32_at(bytes, field);
                    &&& bytes.len() == memory.len()
                    &&& forall|p: int|
                        0 <= p < memory.len() && !(field <= p < field + 4) && !recoverable(
                            model.sections,
                            p,
                        ) ==> #[trigger] bytes[p] == memory[p]
                    &&& found is None ==> regions.len() == 0 || forall|i: int|
                        0 <= i < model.sections.len() ==> u32_at(
                            bytes,
                            (#[trigger] model.sections[i]).header_offset + 8,
                        ) == model.sections[i].virtual_size
                    &&& model.headers.image_size <= size
                    &&& forall|i: int|
                        0 <= i < model.sections.len() && u32_at(
                            bytes,
                            (#[trigger] model.sections[i]).header_offset + 8,
                        ) != model.sections[i].virtual_size ==> model.sections[i].start() + u32_at(
                            bytes,
                            model.sections[i].header_offset + 8,
                        ) <= size
                    &&& size != model.headers.image_size ==> size % model.headers.section_alignment
                        == 0 && exists|i: int|
                        0 <= i < model.sections.len() && u32_at(
                            bytes,
                            (#[trigger] model.sections[i]).header_offset + 8,
                        ) != model.sections[i].virtual_size && model.headers.image_size
                            < model.sections[i].start() + u32_at(
                            bytes,
                            model.sections[i].header_offset + 8,
                        ) && size < model.sections[i].start() + u32_at(
                            bytes,
                            model.sections[i].header_offset + 8,
                        ) + model.headers.section_alignment
                },
            }
        }),
{
    let model = memory_model(memory)->Ok_0;
    let field = model.headers.size_of_image_offset as int;
    let ordered = by_address(model.sections);
    let image_size = model.headers.image_size as int;
    let alignment = model.headers.section_alignment as int;
    lemma_parsed_table(memory);
    assert(model.headers.size_of_image_offset + 4 <= model.sections[0].header_offset);
    if regions.len() > 0 {
        let state = lemma_recovery(memory, regions);
        lemma_power_of_two_positive(alignment);
        law_rounding_gives_the_next_multiple(state.image_end, alignment);
        lemma_same_places(model.sections);
        assert(u32_at(state.bytes, field) == u32_at(memory, field)) by {
            assert forall|p: int| field <= p < field + 4 implies #[trigger] state.bytes[p]
                == memory[p] by {
                assert(!recoverable(ordered, p)) by {
                    if recoverable(model.sections, p) {
                        let i = choose|i: int|
                            0 <= i < model.sections.len() && in_recoverable(
                                #[trigger] model.sections[i],
                                p,
                            );
                        assert(field + 4 <= model.sections[i].header_offset);
                    }
                }
            }
            assert(state.bytes[field] == memory[field] && state.bytes[field + 1] == memory[field + 1]
                && state.bytes[field + 2] == memory[field + 2] && state.bytes[field + 3]
                == memory[field + 3]);
        }
        if let Ok(found) = recovered_headers(memory, model, regions) {
            let bytes = recovered_image(memory, found);
            let size = u32_at(bytes, field);
            if state.image_end > image_size {
                lemma_image_size_written(
                    memory,
                    model,
                    state,
                    crate::pe::align::round_up(state.image_end, alignment) as u32,
                );
            }
            assert forall|p: int|
                0 <= p < memory.len() && !(field <= p < field + 4) && !recoverable(
                    model.sections,
                    p,
                ) implies #[trigger] bytes[p] == memory[p] by {
                assert(state.bytes[p] == memory[p]);
            }
            assert forall|i: int|
                0 <= i < model.sections.len() && u32_at(
                    bytes,
                    (#[trigger] model.sections[i]).header_offset + 8,
                ) != model.sections[i].virtual_size implies model.sections[i].start() + u32_at(
                bytes,
                model.sections[i].header_offset + 8,
            ) <= size by {
                lemma_grown_sections(memory, regions, i, state);
            }
            if size != image_size {
                let j = choose|j: int|
                    0 <= j < ordered.len() && state.image_end == grown_end(
                        #[trigger] ordered[j],
                        memory,
                        regions,
                        growth_limit(ordered, image_size, memory, j),
                    );
                let i = lemma_grown_from(memory, regions, j, state);
                assert(u32_at(bytes, model.sections[i].header_offset + 8) == u32_at(
                    state.bytes,
                    model.sections[i].header_offset + 8,
                ));
            }
        }
    }
}

/// Places that recovery may change are the same whatever the order of the sections.
proof fn lemma_same_places(sections: Seq<SectionModel>)
    ensures
        forall|p: int| #[trigger] recoverable(sections, p) == recoverable(by_address(sections), p),
{
    let ordered = by_address(sections);
    assert forall|p: int| #[trigger] recoverable(sections, p) == recoverable(ordered, p) by {
        if recoverable(sections, p) {
            let i = choose|i: int|
                0 <= i < sections.len() && in_recoverable(#[trigger] sections[i], p);
            let j = lemma_in_ordered(sections, i);
            assert(in_recoverable(ordered[j], p));
        }
        if recoverable(ordered, p) {
            let j = choose|j: int|
                0 <= j < ordered.len() && in_recoverable(#[trigger] ordered[j], p);
            let i = lemma_in_table(sections, j);
            assert(in_recoverable(sections[i], p));
        }
    }
}

proof fn lemma_grown_sections(
    memory: Seq<u8>,
    regions: Seq<RegionEvidence>,
    index: int,
    state: Recovery,
)
    requires
        memory_model(memory) is Ok,
        ({
            let model = memory_model(memory)->Ok_0;
            let ordered = by_address(model.sections);
            &&& table_read_from(memory, model)
            &&& recovery_reached(
                state,
                ordered,
                model.headers.image_size as int,
                memory,
                regions,
                ordered.len() as int,
            )
            &&& 0 <= index < model.sections.len()
        }),
    ensures
        ({
            let section = memory_model(memory)->Ok_0.sections[index];
            let size = u32_at(state.bytes, section.header_offset + 8);
            size != section.virtual_size ==> section.start() + size <= state.image_end
        }),
{
    reveal(header_recovered);
    reveal(grown_end);
    let model = memory_model(memory)->Ok_0;
    let place = lemma_place_by_address(memory, model, index);
    let ordered = by_address(model.sections);
    let limit = growth_limit(ordered, model.headers.image_size as int, memory, place);
    assert(header_recovered(state.bytes, ordered[place], memory, regions, limit));
    assert(grown_end(ordered[place], memory, regions, limit) <= state.image_end);
}

proof fn lemma_grown_from(
    memory: Seq<u8>,
    regions: Seq<RegionEvidence>,
    place: int,
    state: Recovery,
) -> (index: int)
    requires
        memory_model(memory) is Ok,
        ({
            let model = memory_model(memory)->Ok_0;
            let ordered = by_address(model.sections);
            &&& table_read_from(memory, model)
            &&& recovery_reached(
                state,
                ordered,
                model.headers.image_size as int,
                memory,
                regions,
                ordered.len() as int,
            )
            &&& 0 <= place < ordered.len()
            &&& grown_end(
                ordered[place],
                memory,
                regions,
                growth_limit(ordered, model.headers.image_size as int, memory, place),
            ) == state.image_end
            &&& state.image_end > 0
        }),
    ensures
        ({
            let sections = memory_model(memory)->Ok_0.sections;
            let size = u32_at(state.bytes, sections[index].header_offset + 8);
            &&& 0 <= index < sections.len()
            &&& size != sections[index].virtual_size
            &&& sections[index].start() + size == state.image_end
        }),
{
    reveal(header_recovered);
    reveal(grown_end);
    let model = memory_model(memory)->Ok_0;
    let ordered = by_address(model.sections);
    let limit = growth_limit(ordered, model.headers.image_size as int, memory, place);
    assert(header_recovered(state.bytes, ordered[place], memory, regions, limit));
    lemma_in_table(model.sections, place)
}

} // verus!
