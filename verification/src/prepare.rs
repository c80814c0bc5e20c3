//! Making room for the tables of a module before its sections are laid out.
use crate::common::{GotEntry, IndexedModuleArchSpecific, ModSection, PltIdxEntry};
use crate::error::ModuleErr;
use crate::object;
use crate::object::{find_section, Elf, SectionHeader};
use crate::object::{SHF_ALLOC, SHF_EXECINSTR, SHT_NOBITS, SHT_PROGBITS, SHT_RELA};
use crate::ptr::Pod;
use crate::search;
use goblin::elf::RelocSection;
use vstd::prelude::*;

verus! {

/// How a section that holds a table is to be laid out.
#[derive(Debug, Clone, Copy, PartialEq, Eq, Structural)]
pub struct TableLayout {
    pub sh_type: u32,
    pub sh_flags: u64,
    pub align: u64,
    /// The number of bytes of an entry.
    pub entry_size: usize,
}

/// The layout of a global offset table.
pub open spec fn got_layout(align: u64) -> TableLayout {
    TableLayout { sh_type: SHT_NOBITS, sh_flags: SHF_ALLOC, align, entry_size: 8 }
}

/// The layout of a procedure linkage table with entries of `entry_size` bytes.
pub open spec fn plt_layout(align: u64, entry_size: usize) -> TableLayout {
    TableLayout {
        sh_type: SHT_PROGBITS,
        sh_flags: (SHF_ALLOC + SHF_EXECINSTR) as u64,
        align,
        entry_size,
    }
}

/// The layout of the index of a procedure linkage table.
pub open spec fn plt_idx_layout(align: u64) -> TableLayout {
    TableLayout { sh_type: SHT_PROGBITS, sh_flags: SHF_ALLOC, align, entry_size: 8 }
}

/// The layout of a global offset table.
pub fn layout_of_got(align: u64) -> (layout: TableLayout)
    ensures
        layout == got_layout(align),
{
    TableLayout { sh_type: SHT_NOBITS, sh_flags: SHF_ALLOC, align, entry_size: GotEntry::size() }
}

/// The layout of a procedure linkage table with entries of `entry_size` bytes.
pub fn layout_of_plt(align: u64, entry_size: usize) -> (layout: TableLayout)
    ensures
        layout == plt_layout(align, entry_size),
{
    assert(SHF_ALLOC | SHF_EXECINSTR == 6) by (bit_vector);
    TableLayout {
        sh_type: SHT_PROGBITS,
        sh_flags: SHF_ALLOC | SHF_EXECINSTR,
        align,
        entry_size,
    }
}

/// The layout of the index of a procedure linkage table.
pub fn layout_of_plt_idx(align: u64) -> (layout: TableLayout)
    ensures
        layout == plt_idx_layout(align),
{
    TableLayout {
        sh_type: SHT_PROGBITS,
        sh_flags: SHF_ALLOC,
        align,
        entry_size: PltIdxEntry::size(),
    }
}

/// A header made ready for a table of `slots` entries.
pub open spec fn header_for(
    header: SectionHeader,
    layout: TableLayout,
    slots: int,
) -> SectionHeader {
    SectionHeader {
        sh_type: layout.sh_type,
        sh_flags: layout.sh_flags,
        sh_addralign: layout.align,
        sh_size: (slots * layout.entry_size) as u64,
        ..header
    }
}

/// Whether the sizes that preparing a table computes can be computed.
pub open spec fn prepare_fits(
    found: Option<int>,
    layout: TableLayout,
    num_entries: int,
    extra_entries: int,
) -> bool {
    &&& num_entries + extra_entries <= usize::MAX
    &&& num_entries + extra_entries > 0 && found is Some ==> (num_entries + extra_entries)
        * layout.entry_size <= usize::MAX
}

/// The headers and the table after the section at `found` was prepared for
/// `num_entries` entries and room for `extra_entries` more, and what was answered.
/// Nothing is prepared where no room is needed; a missing section is an error.
pub open spec fn prepared(
    headers: Seq<SectionHeader>,
    section: ModSection,
    found: Option<int>,
    layout: TableLayout,
    num_entries: int,
    extra_entries: int,
) -> (Seq<SectionHeader>, ModSection, Result<(), ModuleErr>) {
    if num_entries + extra_entries == 0 {
        (headers, section, Ok(()))
    } else {
        match found {
            None => (headers, section, Err(ModuleErr::ENOEXEC)),
            Some(i) => (
                headers.update(i, header_for(headers[i], layout, num_entries + extra_entries)),
                ModSection {
                    shndx: i as usize,
                    num_entries: 0,
                    max_entries: num_entries as usize,
                },
                Ok(()),
            ),
        }
    }
}

/// Whether the sizes that preparing a table computes can be computed.
pub fn is_prepare_fitting(
    found: Option<usize>,
    layout: TableLayout,
    num_entries: usize,
    extra_entries: usize,
) -> (yes: bool)
    ensures
        yes == prepare_fits(
            object::index_int(found),
            layout,
            num_entries as int,
            extra_entries as int,
        ),
{
    match num_entries.checked_add(extra_entries) {
        None => false,
        Some(slots) => slots == 0 || found.is_none() || slots.checked_mul(
            layout.entry_size,
        ).is_some(),
    }
}

/// Preparing changes the header of the section alone. The table that is prepared is
/// empty, and the section is large enough for all of its slots.
pub proof fn law_prepared_table(
    headers: Seq<SectionHeader>,
    section: ModSection,
    found: Option<int>,
    layout: TableLayout,
    num_entries: usize,
    extra_entries: usize,
)
    requires
        prepare_fits(found, layout, num_entries as int, extra_entries as int),
        found matches Some(i) ==> 0 <= i < headers.len() <= usize::MAX,
    ensures
        ({
            let (after, table, done) = prepared(
                headers,
                section,
                found,
                layout,
                num_entries as int,
                extra_entries as int,
            );
            let needed = num_entries + extra_entries > 0;
            &&& done is Err <==> needed && found is None
            &&& after.len() == headers.len()
            &&& needed && found is Some ==> {
                let i = found->0;
                &&& table == (ModSection {
                    shndx: i as usize,
                    num_entries: 0,
                    max_entries: num_entries,
                })
                &&& table.shndx == i
                &&& table.max_entries * layout.entry_size <= after[i].sh_size
                &&& after[i].sh_size == (num_entries + extra_entries) * layout.entry_size
                &&& after[i].sh_addr == headers[i].sh_addr
                &&& forall|j: int| 0 <= j < headers.len() && j != i ==> after[j] == headers[j]
            }
            &&& !(needed && found is Some) ==> after == headers && table == section
        }),
{
    assert(0 <= num_entries * layout.entry_size <= (num_entries + extra_entries)
        * layout.entry_size) by (nonlinear_arith)
        requires
            num_entries >= 0,
            extra_entries >= 0,
            layout.entry_size >= 0,
    ;
}

/// Prepares the section at `found` to hold a table.
pub fn prepare_section(
    section_headers: &mut Vec<SectionHeader>,
    section: &mut ModSection,
    found: Option<usize>,
    layout: TableLayout,
    num_entries: usize,
    extra_entries: usize,
) -> (done: Result<(), ModuleErr>)
    requires
        found matches Some(i) ==> i < old(section_headers)@.len(),
        prepare_fits(
            object::index_int(found),
            layout,
            num_entries as int,
            extra_entries as int,
        ),
    ensures
        (final(section_headers)@, *final(section), done) == prepared(
            old(section_headers)@,
            *old(section),
            object::index_int(found),
            layout,
            num_entries as int,
            extra_entries as int,
        ),
{
    if num_entries + extra_entries == 0 {
        return Ok(());
    }
    let idx: usize = match found {
        Some(idx) => idx,
        None => {
            return Err(ModuleErr::ENOEXEC);
        },
    };
    let mut shdr: SectionHeader = section_headers[idx];
    shdr.sh_type = layout.sh_type;
    shdr.sh_flags = layout.sh_flags;
    shdr.sh_addralign = layout.align;
    shdr.sh_size = ((num_entries + extra_entries) * layout.entry_size) as u64;
    section_headers[idx] = shdr;
    section.shndx = idx;
    section.num_entries = 0;
    section.max_entries = num_entries;
    Ok(())
}

/// Prepares the section of the global offset table.
pub fn common_prepare_got_section(
    elf: &mut Elf<'_>,
    got_sec: &mut ModSection,
    num_gots: usize,
    align: u64,
    extra_entries: usize,
) -> (done: Result<(), ModuleErr>)
    requires
        prepare_fits(
            search::first_index(old(elf).names(), ".got"@),
            got_layout(align),
            num_gots as int,
            extra_entries as int,
        ),
    ensures
        (final(elf).section_headers@, *final(got_sec), done) == prepared(
            old(elf).section_headers@,
            *old(got_sec),
            search::first_index(old(elf).names(), ".got"@),
            got_layout(align),
            num_gots as int,
            extra_entries as int,
        ),
        done is Ok && num_gots + extra_entries > 0 ==> {
            &&& search::first_index(old(elf).names(), ".got"@) == Some(final(got_sec).shndx as int)
            &&& final(got_sec).shndx < old(elf).section_headers@.len()
            &&& old(elf).names()[final(got_sec).shndx as int] == ".got"@
        },
        final(elf).shdr_strtab == old(elf).shdr_strtab,
        final(elf).shdr_relocs == old(elf).shdr_relocs,
        final(elf).names() == old(elf).names(),
{
    let found = find_section(elf, ".got");
    proof {
        search::law_first_index(elf.names(), ".got"@);
    }
    let done = prepare_section(
        &mut elf.section_headers,
        got_sec,
        found,
        layout_of_got(align),
        num_gots,
        extra_entries,
    );
    assert(elf.names() =~= old(elf).names());
    done
}

/// Prepares the section of the procedure linkage table.
pub fn common_prepare_plt_section<P: Pod>(
    elf: &mut Elf<'_>,
    plt_sec: &mut ModSection,
    num_plts: usize,
    align: u64,
    extra_entries: usize,
) -> (done: Result<(), ModuleErr>)
    requires
        prepare_fits(
            search::first_index(old(elf).names(), ".plt"@),
            plt_layout(align, P::width() as usize),
            num_plts as int,
            extra_entries as int,
        ),
    ensures
        (final(elf).section_headers@, *final(plt_sec), done) == prepared(
            old(elf).section_headers@,
            *old(plt_sec),
            search::first_index(old(elf).names(), ".plt"@),
            plt_layout(align, P::width() as usize),
            num_plts as int,
            extra_entries as int,
        ),
        done is Ok && num_plts + extra_entries > 0 ==> {
            &&& search::first_index(old(elf).names(), ".plt"@) == Some(final(plt_sec).shndx as int)
            &&& final(plt_sec).shndx < old(elf).section_headers@.len()
            &&& old(elf).names()[final(plt_sec).shndx as int] == ".plt"@
        },
        final(elf).shdr_strtab == old(elf).shdr_strtab,
        final(elf).shdr_relocs == old(elf).shdr_relocs,
        final(elf).names() == old(elf).names(),
{
    let found = find_section(elf, ".plt");
    proof {
        search::law_first_index(elf.names(), ".plt"@);
    }
    let done = prepare_section(
        &mut elf.section_headers,
        plt_sec,
        found,
        layout_of_plt(align, P::size()),
        num_plts,
        extra_entries,
    );
    assert(elf.names() =~= old(elf).names());
    done
}

/// Prepares the section of the index of the procedure linkage table.
pub fn common_prepare_plt_idx_section(
    elf: &mut Elf<'_>,
    plt_idx_sec: &mut ModSection,
    num_plts: usize,
    section_name: &str,
    align: u64,
    extra_entries: usize,
) -> (done: Result<(), ModuleErr>)
    requires
        prepare_fits(
            search::first_index(old(elf).names(), section_name@),
            plt_idx_layout(align),
            num_plts as int,
            extra_entries as int,
        ),
    ensures
        (final(elf).section_headers@, *final(plt_idx_sec), done) == prepared(
            old(elf).section_headers@,
            *old(plt_idx_sec),
            search::first_index(old(elf).names(), section_name@),
            plt_idx_layout(align),
            num_plts as int,
            extra_entries as int,
        ),
        done is Ok && num_plts + extra_entries > 0 ==> {
            &&& search::first_index(old(elf).names(), section_name@) == Some(
                final(plt_idx_sec).shndx as int,
            )
            &&& final(plt_idx_sec).shndx < old(elf).section_headers@.len()
            &&& old(elf).names()[final(plt_idx_sec).shndx as int] == section_name@
        },
        final(elf).shdr_strtab == old(elf).shdr_strtab,
        final(elf).shdr_relocs == old(elf).shdr_relocs,
        final(elf).names() == old(elf).names(),
{
    let found = find_section(elf, section_name);
    proof {
        search::law_first_index(elf.names(), section_name@);
    }
    let done = prepare_section(
        &mut elf.section_headers,
        plt_idx_sec,
        found,
        layout_of_plt_idx(align),
        num_plts,
        extra_entries,
    );
    assert(elf.names() =~= old(elf).names());
    done
}

/// Whether a section of relocations has a header, and a header for the section
/// that it applies to.
pub open spec fn reloc_indices_valid(headers: Seq<SectionHeader>, idx: int) -> bool {
    &&& 0 <= idx < headers.len()
    &&& headers[idx].sh_type == SHT_RELA ==> headers[idx].sh_info < headers.len()
}

/// Whether a section of relocations has a header, and a header for the section
/// that it applies to.
pub fn is_reloc_indices_valid(section_headers: &Vec<SectionHeader>, idx: usize) -> (yes: bool)
    ensures
        yes == reloc_indices_valid(section_headers@, idx as int),
{
    if idx >= section_headers.len() {
        return false;
    }
    let shdr = &section_headers[idx];
    shdr.sh_type != SHT_RELA || (shdr.sh_info as usize) < section_headers.len()
}

/// Whether the section at `idx` holds relocations with addends, for a section that
/// has one of the flags in `flags`.
pub open spec fn relocates_flagged(headers: Seq<SectionHeader>, idx: int, flags: u64) -> bool {
    &&& headers[idx].sh_type == SHT_RELA
    &&& headers[headers[idx].sh_info as int].sh_flags & flags != 0
}

/// Whether the section at `idx` holds relocations with addends, for a section that
/// has one of the flags in `flags`.
pub fn section_relocates_flagged(
    section_headers: &Vec<SectionHeader>,
    idx: usize,
    flags: u64,
) -> (yes: bool)
    requires
        reloc_indices_valid(section_headers@, idx as int),
    ensures
        yes == relocates_flagged(section_headers@, idx as int, flags),
{
    let shdr = &section_headers[idx];
    if shdr.sh_type != SHT_RELA {
        return false;
    }
    section_headers[shdr.sh_info as usize].sh_flags & flags != 0
}

/// The sum of the first numbers of the pairs.
pub open spec fn sum_first(counts: Seq<(usize, usize)>) -> nat
    decreases counts.len(),
{
    if counts.len() == 0 {
        0
    } else {
        sum_first(counts.drop_last()) + counts.last().0 as nat
    }
}

/// The sum of the second numbers of the pairs.
pub open spec fn sum_second(counts: Seq<(usize, usize)>) -> nat
    decreases counts.len(),
{
    if counts.len() == 0 {
        0
    } else {
        sum_second(counts.drop_last()) + counts.last().1 as nat
    }
}

/// Whether `counts` is what the counter may answer for the first `counts.len()`
/// sections of relocations: nothing for a section that applies to no code.
pub open spec fn counted<'a, F: Fn(&RelocSection<'a>) -> (usize, usize)>(
    counter: F,
    headers: Seq<SectionHeader>,
    relocs: Seq<(usize, RelocSection<'a>)>,
    counts: Seq<(usize, usize)>,
) -> bool {
    &&& counts.len() <= relocs.len()
    &&& forall|k: int|
        0 <= k < counts.len() ==> if relocates_flagged(
            headers,
            relocs[k].0 as int,
            SHF_EXECINSTR,
        ) {
            call_ensures(counter, (&relocs[k].1,), #[trigger] counts[k])
        } else {
            counts[k] == (0usize, 0usize)
        }
}

/// The headers and the tables after room was made for `num_gots` and `num_plts`
/// entries and one more of each: first the global offset table, then the procedure
/// linkage table, then its index, up to the first that fails.
pub open spec fn prepared_indexed(
    headers: Seq<SectionHeader>,
    names: Seq<Seq<char>>,
    arch: IndexedModuleArchSpecific,
    plt_idx_name: Seq<char>,
    plt_size: usize,
    num_plts: int,
    num_gots: int,
) -> (Seq<SectionHeader>, IndexedModuleArchSpecific, Result<(), ModuleErr>) {
    let (headers, got, done) = prepared(
        headers,
        arch.got,
        search::first_index(names, ".got"@),
        got_layout(64),
        num_gots,
        1,
    );
    let arch = IndexedModuleArchSpecific { got, ..arch };
    if done is Err {
        (headers, arch, done)
    } else {
        let (headers, plt, done) = prepared(
            headers,
            arch.plt,
            search::first_index(names, ".plt"@),
            plt_layout(64, plt_size),
            num_plts,
            1,
        );
        let arch = IndexedModuleArchSpecific { plt, ..arch };
        if done is Err {
            (headers, arch, done)
        } else {
            let (headers, plt_idx, done) = prepared(
                headers,
                arch.plt_idx,
                search::first_index(names, plt_idx_name),
                plt_idx_layout(64),
                num_plts,
                1,
            );
            (headers, IndexedModuleArchSpecific { plt_idx, ..arch }, done)
        }
    }
}

/// Whether the sizes that `prepared_indexed` asks for can be computed.
pub open spec fn prepare_indexed_fits(
    names: Seq<Seq<char>>,
    plt_idx_name: Seq<char>,
    plt_size: usize,
    num_plts: int,
    num_gots: int,
) -> bool {
    let got = search::first_index(names, ".got"@);
    let plt = search::first_index(names, ".plt"@);
    let plt_idx = search::first_index(names, plt_idx_name);
    &&& prepare_fits(got, got_layout(64), num_gots, 1)
    &&& got is Some ==> prepare_fits(plt, plt_layout(64, plt_size), num_plts, 1)
    &&& got is Some && plt is Some ==> prepare_fits(plt_idx, plt_idx_layout(64), num_plts, 1)
}

/// Whether every section of relocations has a header, and a header for the section
/// that it applies to.
pub open spec fn all_indices_valid(
    headers: Seq<SectionHeader>,
    relocs: Seq<(usize, RelocSection<'_>)>,
) -> bool {
    forall|k: int|
        0 <= k < relocs.len() ==> reloc_indices_valid(headers, (#[trigger] relocs[k]).0 as int)
}

/// Whether the counter may be asked about every section of relocations that applies
/// to code.
pub open spec fn countable<'a, F: Fn(&RelocSection<'a>) -> (usize, usize)>(
    counter: F,
    headers: Seq<SectionHeader>,
    relocs: Seq<(usize, RelocSection<'a>)>,
) -> bool {
    forall|k: int|
        0 <= k < relocs.len() && reloc_indices_valid(headers, relocs[k].0 as int)
            && relocates_flagged(headers, relocs[k].0 as int, SHF_EXECINSTR) ==> call_requires(
            counter,
            (&(#[trigger] relocs[k]).1,),
        )
}

/// Asks the counter about the sections of relocations that apply to code, and adds
/// up. Nothing where a section of relocations lacks a header, or a sum does not fit.
pub fn count_entries<'a, F: Fn(&RelocSection<'a>) -> (usize, usize)>(
    elf: &Elf<'a>,
    got_plt_counter_func: F,
) -> (sums: Option<(usize, usize)>)
    requires
        countable(got_plt_counter_func, elf.section_headers@, elf.shdr_relocs@),
    ensures
        match sums {
            Some((num_plts, num_gots)) => {
                &&& all_indices_valid(elf.section_headers@, elf.shdr_relocs@)
                &&& exists|counts: Seq<(usize, usize)>|
                    counts.len() == elf.shdr_relocs@.len() && #[trigger] counted(
                        got_plt_counter_func,
                        elf.section_headers@,
                        elf.shdr_relocs@,
                        counts,
                    ) && num_plts == sum_first(counts) && num_gots == sum_second(counts)
            },
            None => {
                ||| !all_indices_valid(elf.section_headers@, elf.shdr_relocs@)
                ||| exists|counts: Seq<(usize, usize)>| #[trigger]
                    counted(
                        got_plt_counter_func,
                        elf.section_headers@,
                        elf.shdr_relocs@,
                        counts,
                    ) && (sum_first(counts) > usize::MAX || sum_second(counts) > usize::MAX)
            },
        },
{
    let mut num_plts: usize = 0;
    let mut num_gots: usize = 0;
    let ghost mut counts: Seq<(usize, usize)> = Seq::empty();
    let mut k: usize = 0;
    while k < elf.shdr_relocs.len()
        invariant
            k <= elf.shdr_relocs@.len(),
            countable(got_plt_counter_func, elf.section_headers@, elf.shdr_relocs@),
            forall|j: int|
                0 <= j < k ==> reloc_indices_valid(
                    elf.section_headers@,
                    (#[trigger] elf.shdr_relocs@[j]).0 as int,
                ),
            counts.len() == k,
            counted(got_plt_counter_func, elf.section_headers@, elf.shdr_relocs@, counts),
            num_plts == sum_first(counts),
            num_gots == sum_second(counts),
        decreases elf.shdr_relocs@.len() - k,
    {
        let entry = &elf.shdr_relocs[k];
        assert(*entry == elf.shdr_relocs@[k as int]);
        if !is_reloc_indices_valid(&elf.section_headers, entry.0) {
            return None;
        }
        let mut count: (usize, usize) = (0, 0);
        if section_relocates_flagged(&elf.section_headers, entry.0, SHF_EXECINSTR) {
            count = got_plt_counter_func(&entry.1);
        }
        proof {
            let before = counts;
            counts = counts.push(count);
            assert(counts.drop_last() =~= before);
            assert(counted(
                got_plt_counter_func,
                elf.section_headers@,
                elf.shdr_relocs@,
                counts,
            ));
        }
        match (num_plts.checked_add(count.0), num_gots.checked_add(count.1)) {
            (Some(plts), Some(gots)) => {
                num_plts = plts;
                num_gots = gots;
            },
            _ => {
                return None;
            },
        }
        k = k + 1;
    }
    Some((num_plts, num_gots))
}

/// Makes room for `num_plts` procedure linkage entries and `num_gots` global offset
/// entries, and one more of each.
pub fn prepare_indexed<P: Pod>(
    elf: &mut Elf<'_>,
    arch: &mut IndexedModuleArchSpecific,
    plt_idx_name: &str,
    num_plts: usize,
    num_gots: usize,
) -> (done: Result<(), ModuleErr>)
    requires
        prepare_indexed_fits(
            old(elf).names(),
            plt_idx_name@,
            P::width() as usize,
            num_plts as int,
            num_gots as int,
        ),
    ensures
        (final(elf).section_headers@, *final(arch), done) == prepared_indexed(
            old(elf).section_headers@,
            old(elf).names(),
            *old(arch),
            plt_idx_name@,
            P::width() as usize,
            num_plts as int,
            num_gots as int,
        ),
        final(elf).shdr_strtab == old(elf).shdr_strtab,
        final(elf).shdr_relocs == old(elf).shdr_relocs,
{
    match common_prepare_got_section(elf, &mut arch.got, num_gots, 64, 1) {
        Ok(()) => {},
        Err(e) => {
            return Err(e);
        },
    }
    match common_prepare_plt_section::<P>(elf, &mut arch.plt, num_plts, 64, 1) {
        Ok(()) => {},
        Err(e) => {
            return Err(e);
        },
    }
    common_prepare_plt_idx_section(elf, &mut arch.plt_idx, num_plts, plt_idx_name, 64, 1)
}

/// Makes room for the tables of a module on an architecture whose procedure
/// linkage table has an index. `got_plt_counter_func` says how many procedure
/// linkage entries and how many global offset entries a section of relocations
/// needs; it is asked about those that apply to code.
pub fn common_module_frob_arch_sections<
    'a,
    P: Pod,
    F: Fn(&RelocSection<'a>) -> (usize, usize),
>(
    elf: &mut Elf<'a>,
    arch: &mut IndexedModuleArchSpecific,
    got_plt_counter_func: F,
    plt_idx_name: &str,
) -> (done: Result<(), ModuleErr>)
    requires
        all_indices_valid(old(elf).section_headers@, old(elf).shdr_relocs@),
        countable(got_plt_counter_func, old(elf).section_headers@, old(elf).shdr_relocs@),
        forall|counts: Seq<(usize, usize)>| #[trigger]
            counted(
                got_plt_counter_func,
                old(elf).section_headers@,
                old(elf).shdr_relocs@,
                counts,
            ) ==> {
                &&& sum_first(counts) <= usize::MAX
                &&& sum_second(counts) <= usize::MAX
                &&& counts.len() == old(elf).shdr_relocs@.len() ==> prepare_indexed_fits(
                    old(elf).names(),
                    plt_idx_name@,
                    P::width() as usize,
                    sum_first(counts) as int,
                    sum_second(counts) as int,
                )
            },
    ensures
        exists|counts: Seq<(usize, usize)>|
            counts.len() == old(elf).shdr_relocs@.len() && #[trigger] counted(
                got_plt_counter_func,
                old(elf).section_headers@,
                old(elf).shdr_relocs@,
                counts,
            ) && (final(elf).section_headers@, *final(arch), done) == prepared_indexed(
                old(elf).section_headers@,
                old(elf).names(),
                *old(arch),
                plt_idx_name@,
                P::width() as usize,
                sum_first(counts) as int,
                sum_second(counts) as int,
            ),
        final(elf).shdr_strtab == old(elf).shdr_strtab,
        final(elf).shdr_relocs == old(elf).shdr_relocs,
{
    let (num_plts, num_gots): (usize, usize) = count_entries(elf, got_plt_counter_func).unwrap();
    prepare_indexed::<P>(elf, arch, plt_idx_name, num_plts, num_gots)
}

/// Makes room like `common_module_frob_arch_sections`. Nothing is answered, and
/// nothing changed, where a section of relocations lacks a header, or a size that
/// is needed does not fit.
pub fn try_common_module_frob_arch_sections<
    'a,
    P: Pod,
    F: Fn(&RelocSection<'a>) -> (usize, usize),
>(
    elf: &mut Elf<'a>,
    arch: &mut IndexedModuleArchSpecific,
    got_plt_counter_func: F,
    plt_idx_name: &str,
) -> (done: Option<Result<(), ModuleErr>>)
    requires
        countable(got_plt_counter_func, old(elf).section_headers@, old(elf).shdr_relocs@),
    ensures
        match done {
            Some(done) => {
                &&& all_indices_valid(old(elf).section_headers@, old(elf).shdr_relocs@)
                &&& exists|counts: Seq<(usize, usize)>|
                    counts.len() == old(elf).shdr_relocs@.len() && #[trigger] counted(
                        got_plt_counter_func,
                        old(elf).section_headers@,
                        old(elf).shdr_relocs@,
                        counts,
                    ) && prepare_indexed_fits(
                        old(elf).names(),
                        plt_idx_name@,
                        P::width() as usize,
                        sum_first(counts) as int,
                        sum_second(counts) as int,
                    ) && (final(elf).section_headers@, *final(arch), done) == prepared_indexed(
                        old(elf).section_headers@,
                        old(elf).names(),
                        *old(arch),
                        plt_idx_name@,
                        P::width() as usize,
                        sum_first(counts) as int,
                        sum_second(counts) as int,
                    )
            },
            None => {
                &&& final(elf).section_headers@ == old(elf).section_headers@
                &&& *final(arch) == *old(arch)
                &&& {
                    ||| !all_indices_valid(old(elf).section_headers@, old(elf).shdr_relocs@)
                    ||| exists|counts: Seq<(usize, usize)>| #[trigger]
                        counted(
                            got_plt_counter_func,
                            old(elf).section_headers@,
                            old(elf).shdr_relocs@,
                            counts,
                        ) && {
                            ||| sum_first(counts) > usize::MAX
                            ||| sum_second(counts) > usize::MAX
                            ||| counts.len() == old(elf).shdr_relocs@.len()
                                && !prepare_indexed_fits(
                                old(elf).names(),
                                plt_idx_name@,
                                P::width() as usize,
                                sum_first(counts) as int,
                                sum_second(counts) as int,
                            )
                        }
                }
            },
        },
        final(elf).shdr_strtab == old(elf).shdr_strtab,
        final(elf).shdr_relocs == old(elf).shdr_relocs,
{
    let (num_plts, num_gots): (usize, usize) = match count_entries(elf, got_plt_counter_func) {
        Some(sums) => sums,
        None => {
            return None;
        },
    };
    let got = find_section(elf, ".got");
    let plt = find_section(elf, ".plt");
    let plt_idx = find_section(elf, plt_idx_name);
    let fits: bool = is_prepare_fitting(got, layout_of_got(64), num_gots, 1) && (got.is_none()
        || (is_prepare_fitting(plt, layout_of_plt(64, P::size()), num_plts, 1) && (plt.is_none()
        || is_prepare_fitting(plt_idx, layout_of_plt_idx(64), num_plts, 1))));
    if fits {
        Some(prepare_indexed::<P>(elf, arch, plt_idx_name, num_plts, num_gots))
    } else {
        None
    }
}

/// What preparing a section does, field by field. `found` is the section, or nothing
/// where there is none. The section gets the type, the flags and the alignment that
/// were asked for and room for all slots; its other fields, and the other headers,
/// stay as they are. The table is empty and can hold `num_entries` entries.
pub proof fn law_prepared_fields(
    headers: Seq<SectionHeader>,
    section: ModSection,
    found: Option<int>,
    layout: TableLayout,
    num_entries: usize,
    extra_entries: usize,
)
    requires
        found matches Some(i) ==> 0 <= i < headers.len() <= usize::MAX,
        (num_entries + extra_entries) * layout.entry_size <= u64::MAX,
    ensures
        ({
            let (after, table, done) = prepared(
                headers,
                section,
                found,
                layout,
                num_entries as int,
                extra_entries as int,
            );
            let slots = num_entries + extra_entries;
            &&& done is Ok <==> slots == 0 || found is Some
            &&& done matches Err(e) ==> e == ModuleErr::ENOEXEC
            &&& slots == 0 || found is None ==> after == headers && table == section
            &&& slots > 0 ==> (found matches Some(i) ==> {
                &&& after.len() == headers.len()
                &&& forall|j: int| 0 <= j < headers.len() && j != i ==> after[j] == headers[j]
                &&& after[i].sh_type == layout.sh_type
                &&& after[i].sh_flags == layout.sh_flags
                &&& after[i].sh_addralign == layout.align
                &&& after[i].sh_size == slots * layout.entry_size
                &&& after[i].sh_name == headers[i].sh_name
                &&& after[i].sh_addr == headers[i].sh_addr
                &&& after[i].sh_offset == headers[i].sh_offset
                &&& after[i].sh_link == headers[i].sh_link
                &&& after[i].sh_info == headers[i].sh_info
                &&& after[i].sh_entsize == headers[i].sh_entsize
                &&& table.shndx == i
                &&& table.num_entries == 0
                &&& table.max_entries == num_entries
            })
        }),
{
    assert(0 <= (num_entries + extra_entries) * layout.entry_size) by (nonlinear_arith)
        requires
            0 <= num_entries + extra_entries,
            0 <= layout.entry_size,
    ;
}

/// The global offset table takes no space in the file, and is memory with eight bytes
/// an entry. The procedure linkage table is in the file, and is memory that holds
/// instructions. Its index is in the file, and is memory with eight bytes an entry.
pub proof fn law_layouts(align: u64, entry_size: usize)
    ensures
        got_layout(align).sh_type == 8,
        got_layout(align).sh_flags == 2,
        got_layout(align).align == align,
        got_layout(align).entry_size == 8,
        plt_layout(align, entry_size).sh_type == 1,
        plt_layout(align, entry_size).sh_flags == 6,
        plt_layout(align, entry_size).align == align,
        plt_layout(align, entry_size).entry_size == entry_size,
        plt_idx_layout(align).sh_type == 1,
        plt_idx_layout(align).sh_flags == 2,
        plt_idx_layout(align).align == align,
        plt_idx_layout(align).entry_size == 8,
{
}

/// A table can be prepared exactly when the number of its slots fits, and, where a
/// section is prepared at all, so does the number of its bytes.
pub proof fn law_prepare_fits(
    found: Option<int>,
    layout: TableLayout,
    num_entries: int,
    extra_entries: int,
)
    ensures
        prepare_fits(found, layout, num_entries, extra_entries) <==> {
            let slots = num_entries + extra_entries;
            slots <= usize::MAX && (slots <= 0 || found is None || slots * layout.entry_size
                <= usize::MAX)
        },
{
}

/// A section of relocations can be looked at exactly when its header is there, and,
/// if it holds relocations with addends, that of the section that it applies to.
pub proof fn law_indices_valid(
    headers: Seq<SectionHeader>,
    relocs: Seq<(usize, RelocSection<'_>)>,
    idx: int,
)
    ensures
        reloc_indices_valid(headers, idx) <==> 0 <= idx < headers.len() && (headers[idx].sh_type
            != 4 || headers[idx].sh_info < headers.len()),
        all_indices_valid(headers, relocs) <==> !exists|k: int|
            0 <= k < relocs.len() && !reloc_indices_valid(
                headers,
                (#[trigger] relocs[k]).0 as int,
            ),
{
    if !exists|k: int|
        0 <= k < relocs.len() && !reloc_indices_valid(headers, (#[trigger] relocs[k]).0 as int) {
        assert forall|k: int| 0 <= k < relocs.len() implies reloc_indices_valid(
            headers,
            (#[trigger] relocs[k]).0 as int,
        ) by {}
    }
}

/// A section of relocations with addends counts by one bit of the flags of the section
/// that it applies to: bit 1 for memory, bit 2 for code. The other bits do not matter.
pub proof fn law_flag_bits(headers: Seq<SectionHeader>, idx: int)
    ensures
        ({
            let flags = headers[headers[idx].sh_info as int].sh_flags as int;
            &&& relocates_flagged(headers, idx, 2) <==> headers[idx].sh_type == 4 && (flags / 2) % 2
                == 1
            &&& relocates_flagged(headers, idx, 4) <==> headers[idx].sh_type == 4 && (flags / 4) % 2
                == 1
            &&& relocates_flagged(headers, idx, SHF_ALLOC) <==> relocates_flagged(headers, idx, 2)
            &&& relocates_flagged(headers, idx, SHF_EXECINSTR) <==> relocates_flagged(
                headers,
                idx,
                4,
            )
        }),
{
    let flags = headers[headers[idx].sh_info as int].sh_flags;
    assert(flags & 2 != 0 <==> (flags / 2) % 2 == 1) by (bit_vector);
    assert(flags & 4 != 0 <==> (flags / 4) % 2 == 1) by (bit_vector);
}

/// Setting further bits in the flags of the section that is relocated takes none away
/// from the relocations that count, and adds some only by the bits that are asked for.
pub proof fn law_further_flags(headers: Seq<SectionHeader>, idx: int, flags: u64, more: u64)
    requires
        0 <= idx < headers.len(),
        headers[idx].sh_info < headers.len(),
    ensures
        ({
            let target = headers[idx].sh_info as int;
            let flagged = headers.update(
                target,
                SectionHeader { sh_flags: headers[target].sh_flags | more, ..headers[target] },
            );
            &&& relocates_flagged(headers, idx, flags) ==> relocates_flagged(flagged, idx, flags)
            &&& more & flags == 0 ==> (relocates_flagged(flagged, idx, flags)
                <==> relocates_flagged(headers, idx, flags))
            &&& more & flags != 0 && headers[idx].sh_type == 4 ==> relocates_flagged(
                flagged,
                idx,
                flags,
            )
        }),
{
    let old_flags = headers[headers[idx].sh_info as int].sh_flags;
    assert(old_flags & flags != 0 ==> (old_flags | more) & flags != 0) by (bit_vector);
    assert(more & flags == 0 ==> (old_flags | more) & flags == old_flags & flags) by (bit_vector);
    assert(more & flags != 0 ==> (old_flags | more) & flags != 0) by (bit_vector);
}

/// The numbers that are reserved add up over the sections of relocations: no section
/// needs nothing, one needs what was counted for it, and several need together what
/// each part of them needs.
pub proof fn law_counts_add_up(
    first: Seq<(usize, usize)>,
    second: Seq<(usize, usize)>,
    count: (usize, usize),
)
    ensures
        sum_first(Seq::empty()) == 0,
        sum_second(Seq::empty()) == 0,
        sum_first(seq![count]) == count.0,
        sum_second(seq![count]) == count.1,
        sum_first(first + second) == sum_first(first) + sum_first(second),
        sum_second(first + second) == sum_second(first) + sum_second(second),
    decreases second.len(),
{
    let one = seq![count];
    assert(one.drop_last() =~= Seq::<(usize, usize)>::empty());
    assert(one.last() == count);
    assert(sum_first(one) == sum_first(one.drop_last()) + count.0);
    assert(sum_second(one) == sum_second(one.drop_last()) + count.1);
    if second.len() == 0 {
        assert(first + second =~= first);
    } else {
        law_counts_add_up(first, second.drop_last(), count);
        assert((first + second).drop_last() =~= first + second.drop_last());
        assert((first + second).last() == second.last());
    }
}

/// What is counted for a section of relocations: what the counter answers for it, if
/// it holds relocations with addends for a section that holds code, and nothing
/// otherwise. Any number of the first sections may be counted.
pub proof fn law_counted<'a, F: Fn(&RelocSection<'a>) -> (usize, usize)>(
    counter: F,
    headers: Seq<SectionHeader>,
    relocs: Seq<(usize, RelocSection<'a>)>,
    counts: Seq<(usize, usize)>,
)
    ensures
        counted(counter, headers, relocs, counts) <==> {
            &&& counts.len() <= relocs.len()
            &&& forall|k: int|
                0 <= k < counts.len() ==> {
                    let header = headers[relocs[k].0 as int];
                    let flags = headers[header.sh_info as int].sh_flags as int;
                    if header.sh_type == 4 && (flags / 4) % 2 == 1 {
                        call_ensures(counter, (&relocs[k].1,), #[trigger] counts[k])
                    } else {
                        counts[k] == (0usize, 0usize)
                    }
                }
        },
{
    assert forall|k: int| 0 <= k < counts.len() implies {
        let header = headers[relocs[k].0 as int];
        let flags = headers[header.sh_info as int].sh_flags as int;
        relocates_flagged(headers, (#[trigger] relocs[k]).0 as int, SHF_EXECINSTR)
            <==> header.sh_type == 4 && (flags / 4) % 2 == 1
    } by {
        law_flag_bits(headers, relocs[k].0 as int);
    }
    if counted(counter, headers, relocs, counts) {
        assert forall|k: int| 0 <= k < counts.len() implies {
            let header = headers[relocs[k].0 as int];
            let flags = headers[header.sh_info as int].sh_flags as int;
            if header.sh_type == 4 && (flags / 4) % 2 == 1 {
                call_ensures(counter, (&relocs[k].1,), #[trigger] counts[k])
            } else {
                counts[k] == (0usize, 0usize)
            }
        } by {
            let pair = relocs[k];
        }
    }
}

/// The counter may be asked about each section of relocations that it is asked about:
/// those with a header whose relocations have addends and are for code.
pub proof fn law_countable<'a, F: Fn(&RelocSection<'a>) -> (usize, usize)>(
    counter: F,
    headers: Seq<SectionHeader>,
    relocs: Seq<(usize, RelocSection<'a>)>,
)
    requires
        forall|k: int|
            0 <= k < relocs.len() ==> {
                let (idx, section) = #[trigger] relocs[k];
                let header = headers[idx as int];
                let flags = headers[header.sh_info as int].sh_flags as int;
                idx < headers.len() && header.sh_type == 4 && header.sh_info < headers.len() && (
                flags / 4) % 2 == 1 ==> call_requires(counter, (&section,))
            },
    ensures
        countable(counter, headers, relocs),
{
    assert forall|k: int|
        0 <= k < relocs.len() && reloc_indices_valid(headers, relocs[k].0 as int)
            && relocates_flagged(headers, relocs[k].0 as int, SHF_EXECINSTR) implies call_requires(
        counter,
        (&(#[trigger] relocs[k]).1,),
    ) by {
        law_flag_bits(headers, relocs[k].0 as int);
    }
}

/// The sizes of the three tables can be computed exactly when the slots of each, one
/// more than counted, fit, as do its bytes where its section is reached and there.
pub proof fn law_prepare_indexed_fits(
    names: Seq<Seq<char>>,
    plt_idx_name: Seq<char>,
    plt_size: usize,
    num_plts: nat,
    num_gots: nat,
)
    ensures
        prepare_indexed_fits(names, plt_idx_name, plt_size, num_plts as int, num_gots as int)
            <==> {
            let got = names.contains(".got"@);
            let plt = names.contains(".plt"@);
            let idx = names.contains(plt_idx_name);
            &&& num_gots + 1 <= usize::MAX
            &&& got ==> (num_gots + 1) * 8 <= usize::MAX
            &&& got ==> num_plts + 1 <= usize::MAX
            &&& got && plt ==> (num_plts + 1) * plt_size <= usize::MAX
            &&& got && plt && idx ==> (num_plts + 1) * 8 <= usize::MAX
        },
{
    search::law_first_index(names, ".got"@);
    search::law_first_index(names, ".plt"@);
    search::law_first_index(names, plt_idx_name);
}

/// What making room for the three tables does. It succeeds exactly when each of their
/// sections is there, and each table then is empty and has a slot for everything that
/// the sections of relocations were counted to need, in two parts of them as in one,
/// with room in its section for one more. It stops at the first section that is
/// missing, and the tables from there on stay as they were.
pub proof fn law_indexed_tables(
    headers: Seq<SectionHeader>,
    names: Seq<Seq<char>>,
    arch: IndexedModuleArchSpecific,
    plt_idx_name: Seq<char>,
    plt_size: usize,
    first: Seq<(usize, usize)>,
    second: Seq<(usize, usize)>,
)
    requires
        names.len() == headers.len() <= usize::MAX,
        prepare_indexed_fits(
            names,
            plt_idx_name,
            plt_size,
            sum_first(first + second) as int,
            sum_second(first + second) as int,
        ),
    ensures
        ({
            let (after, tables, done) = prepared_indexed(
                headers,
                names,
                arch,
                plt_idx_name,
                plt_size,
                sum_first(first + second) as int,
                sum_second(first + second) as int,
            );
            let num_plts = sum_first(first) + sum_first(second);
            let num_gots = sum_second(first) + sum_second(second);
            let got = names.contains(".got"@);
            let plt = names.contains(".plt"@);
            let idx = names.contains(plt_idx_name);
            &&& done is Ok <==> got && plt && idx
            &&& done matches Err(e) ==> e == ModuleErr::ENOEXEC
            &&& after.len() == headers.len()
            &&& forall|j: int|
                0 <= j < headers.len() && names[j] != ".got"@ && names[j] != ".plt"@ && names[j]
                    != plt_idx_name ==> #[trigger] after[j] == headers[j]
            &&& !got ==> after == headers && tables == arch
            &&& got && !plt ==> tables.plt == arch.plt && tables.plt_idx == arch.plt_idx
            &&& got && plt && !idx ==> tables.plt_idx == arch.plt_idx
            &&& got ==> {
                let g = tables.got.shndx as int;
                &&& tables.got.num_entries == 0
                &&& tables.got.max_entries == num_gots
                &&& 0 <= g < headers.len() && names[g] == ".got"@
                &&& forall|j: int| 0 <= j < g ==> names[j] != ".got"@
                &&& done is Err || plt_idx_name != ".got"@ ==> after[g] == (SectionHeader {
                    sh_type: 8,
                    sh_flags: 2,
                    sh_addralign: 64,
                    sh_size: after[g].sh_size,
                    ..headers[g]
                }) && after[g].sh_size == (num_gots + 1) * 8
            }
            &&& got && plt ==> {
                let p = tables.plt.shndx as int;
                &&& tables.plt.num_entries == 0
                &&& tables.plt.max_entries == num_plts
                &&& 0 <= p < headers.len() && names[p] == ".plt"@
                &&& forall|j: int| 0 <= j < p ==> names[j] != ".plt"@
                &&& done is Err || plt_idx_name != ".plt"@ ==> after[p] == (SectionHeader {
                    sh_type: 1,
                    sh_flags: 6,
                    sh_addralign: 64,
                    sh_size: after[p].sh_size,
                    ..headers[p]
                }) && after[p].sh_size == (num_plts + 1) * plt_size
            }
            &&& got && plt && idx ==> {
                let x = tables.plt_idx.shndx as int;
                &&& tables.plt_idx.num_entries == 0
                &&& tables.plt_idx.max_entries == num_plts
                &&& 0 <= x < headers.len() && names[x] == plt_idx_name
                &&& forall|j: int| 0 <= j < x ==> names[j] != plt_idx_name
                &&& after[x] == (SectionHeader {
                    sh_type: 1,
                    sh_flags: 2,
                    sh_addralign: 64,
                    sh_size: after[x].sh_size,
                    ..headers[x]
                }) && after[x].sh_size == (num_plts + 1) * 8
            }
        }),
{
    let num_plts = sum_first(first + second);
    let num_gots = sum_second(first + second);
    law_counts_add_up(first, second, (0, 0));
    search::law_first_index(names, ".got"@);
    search::law_first_index(names, ".plt"@);
    search::law_first_index(names, plt_idx_name);
    reveal_strlit(".got");
    reveal_strlit(".plt");
    assert(".got"@[1] != ".plt"@[1]);
    assert(0 <= (num_plts + 1) * plt_size) by (nonlinear_arith)
        requires
            0 <= num_plts + 1,
            0 <= plt_size,
    ;
}

} // verus!
