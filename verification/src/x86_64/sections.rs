//! Making room for the global offset table of an x86-64 module.
use crate::common::ModSection;
use crate::error::ModuleErr;
use crate::object;
use crate::object::{find_section, read_relocs, Elf, Reloc, SectionHeader, SHF_ALLOC};
use crate::prepare;
use crate::prepare::{common_prepare_got_section, is_prepare_fitting};
use crate::prepare::{is_reloc_indices_valid, layout_of_got, section_relocates_flagged};
use crate::search;
use crate::x86_64::reloc_type;
use crate::x86_64::reloc_type::ArchRelocationType;
use crate::x86_64::ModuleArchSpecific;
use goblin::elf::RelocSection;
use vstd::prelude::*;

verus! {

/// The alignment of an entry of the global offset table.
pub const GOT_ENTRY_ALIGN: u64 = 8;

/// Whether a relocation goes through the global offset table.
pub open spec fn needs_got(reloc: Reloc) -> bool {
    reloc_type::type_of_code(reloc.r_type) == Some(ArchRelocationType::R_X86_64_GOTPCREL)
}

/// How many of the relocations go through the global offset table.
pub open spec fn got_relocs(relocs: Seq<Reloc>) -> nat {
    relocs.filter(|reloc: Reloc| needs_got(reloc)).len()
}

/// How many of the relocations go through the global offset table.
pub fn count_got_relocs(relocs: &Vec<Reloc>) -> (count: usize)
    ensures
        count == got_relocs(relocs@),
{
    let mut count: usize = 0;
    let mut i: usize = 0;
    assert(relocs@.take(0).filter(|reloc: Reloc| needs_got(reloc)) =~= Seq::empty()) by {
        reveal(Seq::filter);
    }
    while i < relocs.len()
        invariant
            count <= i <= relocs@.len(),
            count == got_relocs(relocs@.take(i as int)),
        decreases relocs@.len() - i,
    {
        proof {
            reveal(Seq::filter);
            assert(relocs@.take(i + 1).drop_last() =~= relocs@.take(i as int));
        }
        match ArchRelocationType::try_from(relocs[i].r_type) {
            Ok(ArchRelocationType::R_X86_64_GOTPCREL) => {
                count = count + 1;
            },
            _ => {},
        }
        i = i + 1;
    }
    assert(relocs@.take(i as int) =~= relocs@);
    count
}

/// How many relocations of a section go through the global offset table.
pub fn count_gots(rela_sec: &RelocSection<'_>) -> (count: usize)
    ensures
        count == got_relocs(object::reloc_entries(*rela_sec)),
{
    let relocs = read_relocs(rela_sec);
    count_got_relocs(&relocs)
}

/// How many relocations go through the global offset table in those of the
/// sections that apply to a section which takes memory.
pub open spec fn total_gots(
    headers: Seq<SectionHeader>,
    relocs: Seq<(usize, RelocSection<'_>)>,
) -> nat
    decreases relocs.len(),
{
    if relocs.len() == 0 {
        0
    } else {
        let (idx, section) = relocs.last();
        total_gots(headers, relocs.drop_last()) + if prepare::relocates_flagged(
            headers,
            idx as int,
            SHF_ALLOC,
        ) {
            got_relocs(object::reloc_entries(section))
        } else {
            0
        }
    }
}

/// A part of the sections needs no more entries than all of them.
proof fn lemma_total_gots_monotonic(
    headers: Seq<SectionHeader>,
    relocs: Seq<(usize, RelocSection<'_>)>,
    count: int,
)
    requires
        0 <= count <= relocs.len(),
    ensures
        total_gots(headers, relocs.take(count)) <= total_gots(headers, relocs),
    decreases relocs.len(),
{
    if count == relocs.len() {
        assert(relocs.take(count) =~= relocs);
    } else {
        assert(relocs.drop_last().take(count) =~= relocs.take(count));
        lemma_total_gots_monotonic(headers, relocs.drop_last(), count);
    }
}

/// How many slots the global offset table needs: one for each relocation that goes
/// through it. Nothing where a section of relocations lacks a header, or the number
/// does not fit.
pub fn gots_needed(elf: &Elf<'_>) -> (needed: Option<usize>)
    ensures
        needed == if prepare::all_indices_valid(elf.section_headers@, elf.shdr_relocs@)
            && total_gots(elf.section_headers@, elf.shdr_relocs@) <= usize::MAX {
            Some(total_gots(elf.section_headers@, elf.shdr_relocs@) as usize)
        } else {
            None
        },
{
    let mut num_gots: usize = 0;
    let mut k: usize = 0;
    while k < elf.shdr_relocs.len()
        invariant
            k <= elf.shdr_relocs@.len(),
            forall|j: int|
                0 <= j < k ==> prepare::reloc_indices_valid(
                    elf.section_headers@,
                    (#[trigger] elf.shdr_relocs@[j]).0 as int,
                ),
            num_gots == total_gots(elf.section_headers@, elf.shdr_relocs@.take(k as int)),
        decreases elf.shdr_relocs@.len() - k,
    {
        let entry = &elf.shdr_relocs[k];
        assert(*entry == elf.shdr_relocs@[k as int]);
        if !is_reloc_indices_valid(&elf.section_headers, entry.0) {
            return None;
        }
        proof {
            let next = elf.shdr_relocs@.take(k + 1);
            assert(next.drop_last() =~= elf.shdr_relocs@.take(k as int));
            lemma_total_gots_monotonic(elf.section_headers@, elf.shdr_relocs@, k + 1);
        }
        if section_relocates_flagged(&elf.section_headers, entry.0, SHF_ALLOC) {
            let count: usize = count_gots(&entry.1);
            if count > usize::MAX - num_gots {
                return None;
            }
            num_gots = num_gots + count;
        }
        k = k + 1;
    }
    assert(elf.shdr_relocs@.take(k as int) =~= elf.shdr_relocs@);
    Some(num_gots)
}

/// Makes room for the global offset table: a slot for each relocation that goes
/// through it.
pub fn module_frob_arch_sections(elf: &mut Elf<'_>, arch: &mut ModuleArchSpecific) -> (done: Result<
    (),
    ModuleErr,
>)
    requires
        prepare::all_indices_valid(old(elf).section_headers@, old(elf).shdr_relocs@),
        prepare::prepare_fits(
            search::first_index(old(elf).names(), ".got"@),
            prepare::got_layout(GOT_ENTRY_ALIGN),
            total_gots(old(elf).section_headers@, old(elf).shdr_relocs@) as int,
            0,
        ),
    ensures
        (final(elf).section_headers@, final(arch).got, done) == prepare::prepared(
            old(elf).section_headers@,
            old(arch).got,
            search::first_index(old(elf).names(), ".got"@),
            prepare::got_layout(GOT_ENTRY_ALIGN),
            total_gots(old(elf).section_headers@, old(elf).shdr_relocs@) as int,
            0,
        ),
        done is Ok && total_gots(old(elf).section_headers@, old(elf).shdr_relocs@) > 0 ==> {
            &&& search::first_index(old(elf).names(), ".got"@) == Some(final(arch).got.shndx as int)
            &&& final(arch).got.shndx < old(elf).section_headers@.len()
            &&& old(elf).names()[final(arch).got.shndx as int] == ".got"@
        },
        final(elf).shdr_strtab == old(elf).shdr_strtab,
        final(elf).shdr_relocs == old(elf).shdr_relocs,
{
    let num_gots: usize = gots_needed(elf).unwrap();
    if num_gots == 0 {
        return Ok(());
    }
    common_prepare_got_section(elf, &mut arch.got, num_gots, GOT_ENTRY_ALIGN, 0)
}

/// Makes room like `module_frob_arch_sections`. Nothing is answered, and nothing
/// changed, where a section of relocations lacks a header, or the size of the table
/// does not fit.
pub fn try_module_frob_arch_sections(elf: &mut Elf<'_>, arch: &mut ModuleArchSpecific) -> (done:
    Option<Result<(), ModuleErr>>)
    ensures
        done is Some <==> prepare::all_indices_valid(
            old(elf).section_headers@,
            old(elf).shdr_relocs@,
        ) && prepare::prepare_fits(
            search::first_index(old(elf).names(), ".got"@),
            prepare::got_layout(GOT_ENTRY_ALIGN),
            total_gots(old(elf).section_headers@, old(elf).shdr_relocs@) as int,
            0,
        ),
        done matches Some(done) ==> (final(elf).section_headers@, final(arch).got, done)
            == prepare::prepared(
            old(elf).section_headers@,
            old(arch).got,
            search::first_index(old(elf).names(), ".got"@),
            prepare::got_layout(GOT_ENTRY_ALIGN),
            total_gots(old(elf).section_headers@, old(elf).shdr_relocs@) as int,
            0,
        ),
        done is None ==> final(elf).section_headers@ == old(elf).section_headers@ && *final(arch)
            == *old(arch),
        final(elf).shdr_strtab == old(elf).shdr_strtab,
        final(elf).shdr_relocs == old(elf).shdr_relocs,
{
    let num_gots: usize = match gots_needed(elf) {
        Some(num_gots) => num_gots,
        None => {
            return None;
        },
    };
    let found = find_section(elf, ".got");
    if is_prepare_fitting(found, layout_of_got(GOT_ENTRY_ALIGN), num_gots, 0) {
        Some(module_frob_arch_sections(elf, arch))
    } else {
        None
    }
}

/// How many relocations go through the global offset table adds up over any division
/// of them into two parts, and one counts exactly when its type has the number 9.
pub proof fn law_got_relocs_add_up(first: Seq<Reloc>, second: Seq<Reloc>, reloc: Reloc)
    ensures
        got_relocs(Seq::empty()) == 0,
        got_relocs(seq![reloc]) == if reloc.r_type == 9 {
            1int
        } else {
            0
        },
        got_relocs(first + second) == got_relocs(first) + got_relocs(second),
    decreases second.len(),
{
    reveal(Seq::filter);
    let one = seq![reloc];
    assert(one.drop_last() =~= Seq::<Reloc>::empty());
    assert(got_relocs(one.drop_last()) == 0);
    if second.len() == 0 {
        assert(first + second =~= first);
    } else {
        law_got_relocs_add_up(first, second.drop_last(), reloc);
        assert((first + second).drop_last() =~= first + second.drop_last());
        assert((first + second).last() == second.last());
    }
}

/// The slots that a module needs add up over its sections of relocations. One section
/// needs a slot for each relocation whose type has the number 9, if its relocations
/// have addends and the flags of the section that they are for have bit 1, whatever
/// their other bits. Any other needs none.
pub proof fn law_total_gots_add_up<'a>(
    headers: Seq<SectionHeader>,
    first: Seq<(usize, RelocSection<'a>)>,
    second: Seq<(usize, RelocSection<'a>)>,
    one: (usize, RelocSection<'a>),
)
    ensures
        total_gots(headers, Seq::empty()) == 0,
        total_gots(headers, seq![one]) == ({
            let header = headers[one.0 as int];
            let flags = headers[header.sh_info as int].sh_flags as int;
            if header.sh_type == 4 && (flags / 2) % 2 == 1 {
                object::reloc_entries(one.1).filter(|reloc: Reloc| reloc.r_type == 9).len()
            } else {
                0
            }
        }),
        total_gots(headers, first + second) == total_gots(headers, first) + total_gots(
            headers,
            second,
        ),
    decreases second.len(),
{
    prepare::law_flag_bits(headers, one.0 as int);
    lemma_got_relocs_by_number(object::reloc_entries(one.1));
    let single = seq![one];
    assert(single.drop_last() =~= Seq::empty());
    assert(single.last() == one);
    if second.len() == 0 {
        assert(first + second =~= first);
    } else {
        law_total_gots_add_up(headers, first, second.drop_last(), one);
        assert((first + second).drop_last() =~= first + second.drop_last());
        assert((first + second).last() == second.last());
    }
}

/// Counting by type is counting by the number of the type.
proof fn lemma_got_relocs_by_number(relocs: Seq<Reloc>)
    ensures
        got_relocs(relocs) == relocs.filter(|reloc: Reloc| reloc.r_type == 9).len(),
    decreases relocs.len(),
{
    reveal(Seq::filter);
    if relocs.len() > 0 {
        lemma_got_relocs_by_number(relocs.drop_last());
    }
}

/// What making room for the global offset table of a module does, with its sections of
/// relocations in two parts. No slot is needed, and nothing happens, or the first
/// section with the name ".got" is made memory that takes no space in the file, with
/// eight aligned bytes for each slot, and the table is empty with exactly that many
/// slots. Without such a section it fails and nothing changes.
pub proof fn law_module_got<'a>(
    headers: Seq<SectionHeader>,
    names: Seq<Seq<char>>,
    section: ModSection,
    first: Seq<(usize, RelocSection<'a>)>,
    second: Seq<(usize, RelocSection<'a>)>,
)
    requires
        names.len() == headers.len() <= usize::MAX,
        (total_gots(headers, first) + total_gots(headers, second)) * 8 <= usize::MAX,
    ensures
        prepare::prepare_fits(
            search::first_index(names, ".got"@),
            prepare::got_layout(GOT_ENTRY_ALIGN),
            total_gots(headers, first + second) as int,
            0,
        ),
        ({
            let needed = total_gots(headers, first) + total_gots(headers, second);
            let (after, got, done) = prepare::prepared(
                headers,
                section,
                search::first_index(names, ".got"@),
                prepare::got_layout(GOT_ENTRY_ALIGN),
                total_gots(headers, first + second) as int,
                0,
            );
            let there = names.contains(".got"@);
            &&& done is Ok <==> needed == 0 || there
            &&& done matches Err(e) ==> e == ModuleErr::ENOEXEC
            &&& needed == 0 || !there ==> after == headers && got == section
            &&& needed > 0 && there ==> {
                let g = got.shndx as int;
                &&& got.num_entries == 0
                &&& got.max_entries == needed
                &&& 0 <= g < headers.len() && names[g] == ".got"@
                &&& forall|j: int| 0 <= j < g ==> names[j] != ".got"@
                &&& after.len() == headers.len()
                &&& forall|j: int|
                    0 <= j < headers.len() && j != g ==> #[trigger] after[j] == headers[j]
                &&& after[g].sh_size == needed * 8
                &&& after[g] == (SectionHeader {
                    sh_type: 8,
                    sh_flags: 2,
                    sh_addralign: 8,
                    sh_size: after[g].sh_size,
                    ..headers[g]
                })
            }
        }),
{
    if first.len() > 0 {
        law_total_gots_add_up(headers, first, second, first[0]);
    } else if second.len() > 0 {
        law_total_gots_add_up(headers, first, second, second[0]);
    } else {
        assert(first + second =~= first);
    }
    search::law_first_index(names, ".got"@);
}

} // verus!
