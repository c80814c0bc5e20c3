//! Section names and relocation sections, and making room for tables.
use goblin::container::{Container, Ctx, Endian};
use goblin::elf::section_header as goblin_header;
use goblin::elf::RelocSection;
use goblin::strtab::Strtab;
use kmod_arch::common::{
    duplicate_rela, duplicate_reloc, is_rela_equal, try_duplicate_rela, IndexedModuleArchSpecific,
    ModSection,
};
use kmod_arch::error::ModuleErr;
use kmod_arch::object::{
    find_section, name_of, position_of_name, read_relocs, same_str, Elf, Reloc, SectionHeader,
    SHF_ALLOC, SHF_EXECINSTR, SHT_NOBITS, SHT_PROGBITS, SHT_RELA,
};
use kmod_arch::prepare::{
    common_module_frob_arch_sections, common_prepare_got_section, common_prepare_plt_idx_section,
    common_prepare_plt_section, is_prepare_fitting, layout_of_got, layout_of_plt,
    layout_of_plt_idx, section_relocates_flagged, try_common_module_frob_arch_sections,
};
use kmod_arch::x86_64::sections::{
    count_got_relocs, count_gots, gots_needed, module_frob_arch_sections,
    try_module_frob_arch_sections, GOT_ENTRY_ALIGN,
};
use kmod_arch::x86_64::ModuleArchSpecific;

/// ".text" at 1, ".rela.text" at 7, ".got" at 18, ".plt" at 23, ".plt.idx" at 28.
const NAMES: &[u8] = b"\0.text\0.rela.text\0.got\0.plt\0.plt.idx\0";

fn header(sh_name: usize, sh_type: u32, sh_flags: u64, sh_info: u32) -> SectionHeader {
    SectionHeader {
        sh_name,
        sh_type,
        sh_flags,
        sh_addr: 0x10,
        sh_offset: 0x20,
        sh_size: 0x30,
        sh_link: 0x40,
        sh_info,
        sh_addralign: 0x50,
        sh_entsize: 0x60,
    }
}

fn rela_bytes(relas: &[(u64, u64, u32, i64)]) -> Vec<u8> {
    let mut bytes = Vec::new();
    for (offset, sym, kind, addend) in relas {
        bytes.extend_from_slice(&offset.to_le_bytes());
        bytes.extend_from_slice(&((sym << 32) | *kind as u64).to_le_bytes());
        bytes.extend_from_slice(&addend.to_le_bytes());
    }
    bytes
}

fn reloc_section(bytes: &[u8]) -> RelocSection<'_> {
    let ctx = Ctx::new(Container::Big, Endian::Little);
    RelocSection::parse(bytes, 0, bytes.len(), true, ctx).unwrap()
}

fn reloc(r_offset: u64, r_sym: usize, r_type: u32, r_addend: Option<i64>) -> Reloc {
    Reloc { r_offset, r_addend, r_sym, r_type }
}

/// Sections: null, ".text", ".rela.text", ".got", ".plt", ".plt.idx".
fn elf(relocs: &[u8], text_flags: u64) -> Elf<'_> {
    Elf {
        section_headers: vec![
            header(0, 0, 0, 0),
            header(1, SHT_PROGBITS, text_flags, 0),
            header(7, SHT_RELA, 0, 1),
            header(18, SHT_PROGBITS, 0, 0),
            header(23, SHT_PROGBITS, 0, 0),
            header(28, SHT_PROGBITS, 0, 0),
        ],
        shdr_strtab: Strtab::new_preparsed(NAMES, 0).unwrap(),
        shdr_relocs: vec![(2, reloc_section(relocs))],
    }
}

#[test]
fn constants_of_the_file_format() {
    assert_eq!(SHT_PROGBITS, goblin_header::SHT_PROGBITS);
    assert_eq!(SHT_RELA, goblin_header::SHT_RELA);
    assert_eq!(SHT_NOBITS, goblin_header::SHT_NOBITS);
    assert_eq!(SHF_ALLOC, goblin_header::SHF_ALLOC as u64);
    assert_eq!(SHF_EXECINSTR, goblin_header::SHF_EXECINSTR as u64);
}

#[test]
fn relocations_are_read_field_for_field() {
    let bytes = rela_bytes(&[(0x10, 3, 9, -4), (0x18, 0x1_0000, 2, 0x7fff_ffff_ffff)]);
    let section = reloc_section(&bytes);
    assert_eq!(
        read_relocs(&section),
        vec![reloc(0x10, 3, 9, Some(-4)), reloc(0x18, 0x1_0000, 2, Some(0x7fff_ffff_ffff))]
    );
    assert_eq!(read_relocs(&RelocSection::default()), vec![]);
}

#[test]
fn relocations_without_addend() {
    let mut bytes = 0x10u64.to_le_bytes().to_vec();
    bytes.extend_from_slice(&((5u64 << 32) | 1).to_le_bytes());
    let ctx = Ctx::new(Container::Big, Endian::Little);
    let section = RelocSection::parse(&bytes, 0, bytes.len(), false, ctx).unwrap();
    assert_eq!(read_relocs(&section), vec![reloc(0x10, 5, 1, None)]);
}

#[test]
fn section_names_come_from_the_string_table() {
    let relocs = rela_bytes(&[]);
    let elf = elf(&relocs, 0);
    assert_eq!(
        elf.section_names(),
        vec!["", ".text", ".rela.text", ".got", ".plt", ".plt.idx"]
    );
    assert_eq!(find_section(&elf, ".got"), Some(3));
    assert_eq!(find_section(&elf, ".plt"), Some(4));
    assert_eq!(find_section(&elf, ".plt.idx"), Some(5));
    assert_eq!(find_section(&elf, ".pl"), None);
    assert_eq!(find_section(&elf, "<unknown>"), None);
}

#[test]
fn names_that_are_not_there() {
    let relocs = rela_bytes(&[]);
    let mut elf = elf(&relocs, 0);
    elf.section_headers[2].sh_name = 12;
    elf.section_headers[4].sh_name = 5000;
    assert_eq!(elf.section_names()[2], ".text");
    assert_eq!(elf.section_names()[4], "<unknown>");
    assert_eq!(find_section(&elf, "<unknown>"), Some(4));
    assert_eq!(find_section(&elf, ".text"), Some(1));
    assert_eq!(name_of(None), "<unknown>");
    assert_eq!(name_of(Some(".bss")), ".bss");
}

#[test]
fn strings_compared_and_searched() {
    assert!(same_str("", ""));
    assert!(same_str("gr\u{fc}n", "gr\u{fc}n"));
    assert!(!same_str("gr\u{fc}n", "grun"));
    assert!(!same_str("ab", "abc"));
    assert!(!same_str("abd", "abc"));
    assert_eq!(position_of_name(&vec!["a", "b", "b"], "b"), Some(1));
    assert_eq!(position_of_name(&vec!["a", "b"], "c"), None);
    assert_eq!(position_of_name(&vec![], "c"), None);
}

#[test]
fn equal_relocations() {
    let a = reloc(0x10, 3, 9, Some(-4));
    assert!(is_rela_equal(&a, &reloc(0x90, 3, 9, Some(-4))));
    assert!(!is_rela_equal(&a, &reloc(0x10, 4, 9, Some(-4))));
    assert!(!is_rela_equal(&a, &reloc(0x10, 3, 8, Some(-4))));
    assert!(!is_rela_equal(&a, &reloc(0x10, 3, 9, Some(-5))));
    assert!(!is_rela_equal(&a, &reloc(0x10, 3, 9, None)));
    assert!(is_rela_equal(&reloc(1, 3, 9, None), &reloc(2, 3, 9, None)));
}

#[test]
fn duplicates() {
    let bytes = rela_bytes(&[(0, 1, 9, 0), (8, 2, 9, 0), (16, 1, 9, 0), (24, 1, 9, 4)]);
    let section = reloc_section(&bytes);
    let relocs = read_relocs(&section);
    let found: Vec<bool> = (0..4).map(|i| duplicate_rela(&section, i)).collect();
    assert_eq!(found, vec![false, false, true, false]);
    for i in 0..4 {
        assert_eq!(duplicate_reloc(&relocs, i), found[i]);
        assert_eq!(try_duplicate_rela(&section, i), Some(found[i]));
        let stand_in = (0..=i).find(|&j| !found[j] && is_rela_equal(&relocs[i], &relocs[j]));
        assert!(stand_in.is_some());
    }
    assert_eq!(try_duplicate_rela(&section, 4), None);
    assert!(!is_rela_equal(&relocs[0], &relocs[3]));
}

#[test]
fn sections_that_are_relocated() {
    let relocs = rela_bytes(&[]);
    let mut elf = elf(&relocs, SHF_ALLOC);
    assert!(section_relocates_flagged(&elf.section_headers, 2, SHF_ALLOC));
    assert!(!section_relocates_flagged(&elf.section_headers, 2, SHF_EXECINSTR));
    assert!(!section_relocates_flagged(&elf.section_headers, 1, SHF_ALLOC));
    elf.section_headers[2].sh_type = 9;
    assert!(!section_relocates_flagged(&elf.section_headers, 2, SHF_ALLOC));
}

#[test]
fn got_section_is_prepared() {
    let relocs = rela_bytes(&[]);
    let mut elf = elf(&relocs, 0);
    let before = elf.section_headers.clone();
    let mut got = ModSection { shndx: 9, num_entries: 9, max_entries: 9 };
    assert_eq!(common_prepare_got_section(&mut elf, &mut got, 5, 64, 1), Ok(()));
    assert_eq!(got, ModSection { shndx: 3, num_entries: 0, max_entries: 5 });
    let mut expected = before;
    expected[3].sh_type = SHT_NOBITS;
    expected[3].sh_flags = 2;
    expected[3].sh_addralign = 64;
    expected[3].sh_size = 48;
    assert_eq!(elf.section_headers, expected);
}

#[test]
fn plt_sections_are_prepared() {
    let relocs = rela_bytes(&[]);
    let mut elf = elf(&relocs, 0);
    let mut expected = elf.section_headers.clone();
    let mut plt = ModSection::default();
    let mut idx = ModSection::default();
    assert_eq!(common_prepare_plt_section::<u32>(&mut elf, &mut plt, 3, 16, 1), Ok(()));
    assert_eq!(
        common_prepare_plt_idx_section(&mut elf, &mut idx, 3, ".plt.idx", 32, 2),
        Ok(())
    );
    assert_eq!(plt, ModSection { shndx: 4, num_entries: 0, max_entries: 3 });
    assert_eq!(idx, ModSection { shndx: 5, num_entries: 0, max_entries: 3 });
    expected[4].sh_type = SHT_PROGBITS;
    expected[4].sh_flags = 6;
    expected[4].sh_addralign = 16;
    expected[4].sh_size = 16;
    expected[5].sh_type = SHT_PROGBITS;
    expected[5].sh_flags = 2;
    expected[5].sh_addralign = 32;
    expected[5].sh_size = 40;
    assert_eq!(elf.section_headers, expected);
}

#[test]
fn nothing_is_prepared_without_need() {
    let relocs = rela_bytes(&[]);
    let mut elf = elf(&relocs, 0);
    let before = elf.section_headers.clone();
    let mut table = ModSection { shndx: 9, num_entries: 9, max_entries: 9 };
    assert_eq!(common_prepare_got_section(&mut elf, &mut table, 0, 64, 0), Ok(()));
    assert_eq!(common_prepare_plt_section::<u64>(&mut elf, &mut table, 0, 64, 0), Ok(()));
    assert_eq!(common_prepare_plt_idx_section(&mut elf, &mut table, 0, ".no", 64, 0), Ok(()));
    assert_eq!(table, ModSection { shndx: 9, num_entries: 9, max_entries: 9 });
    assert_eq!(elf.section_headers, before);
}

#[test]
fn a_missing_section_is_refused() {
    let relocs = rela_bytes(&[]);
    let mut elf = elf(&relocs, 0);
    elf.section_headers.truncate(3);
    let before = elf.section_headers.clone();
    let mut table = ModSection { shndx: 9, num_entries: 9, max_entries: 9 };
    let missing = Err(ModuleErr::ENOEXEC);
    assert_eq!(common_prepare_got_section(&mut elf, &mut table, 1, 64, 0), missing);
    assert_eq!(common_prepare_plt_section::<u64>(&mut elf, &mut table, 0, 64, 1), missing);
    assert_eq!(
        common_prepare_plt_idx_section(&mut elf, &mut table, 1, ".plt.idx", 64, 1),
        missing
    );
    assert_eq!(table, ModSection { shndx: 9, num_entries: 9, max_entries: 9 });
    assert_eq!(elf.section_headers, before);
}

#[test]
fn sizes_that_do_not_fit() {
    let got = layout_of_got(8);
    assert!(is_prepare_fitting(Some(3), got, 4, 1));
    assert!(!is_prepare_fitting(Some(3), got, usize::MAX, 1));
    assert!(!is_prepare_fitting(Some(3), got, usize::MAX / 8, 1));
    assert!(is_prepare_fitting(Some(3), got, usize::MAX / 8, 0));
    assert!(is_prepare_fitting(None, got, usize::MAX, 0));
    assert!(is_prepare_fitting(Some(3), layout_of_plt(8, 1), usize::MAX, 0));
    assert!(!is_prepare_fitting(Some(3), layout_of_plt(8, 2), usize::MAX, 0));
    assert_eq!(layout_of_plt_idx(4).entry_size, 8);
    assert_eq!(layout_of_plt(4, 12).sh_flags, 6);
    assert_eq!(got.sh_type, SHT_NOBITS);
}

#[test]
fn tables_of_an_indexed_architecture() {
    let relocs = rela_bytes(&[(0, 1, 1, 0), (8, 1, 2, 0), (16, 1, 2, 0)]);
    let mut first = elf(&relocs, SHF_EXECINSTR);
    let mut arch = IndexedModuleArchSpecific::default();
    let count = |section: &RelocSection<'_>| (2 * section.len(), section.len());
    let done = common_module_frob_arch_sections::<u32, _>(&mut first, &mut arch, count, ".plt.idx");
    assert_eq!(done, Ok(()));
    assert_eq!(arch.got, ModSection { shndx: 3, num_entries: 0, max_entries: 3 });
    assert_eq!(arch.plt, ModSection { shndx: 4, num_entries: 0, max_entries: 6 });
    assert_eq!(arch.plt_idx, ModSection { shndx: 5, num_entries: 0, max_entries: 6 });
    assert_eq!(first.section_headers[3].sh_size, 4 * 8);
    assert_eq!(first.section_headers[4].sh_size, 7 * 4);
    assert_eq!(first.section_headers[5].sh_size, 7 * 8);
    assert_eq!(first.section_headers[5].sh_addralign, 64);

    let mut second = elf(&relocs, SHF_EXECINSTR);
    let mut other = IndexedModuleArchSpecific::default();
    let done =
        try_common_module_frob_arch_sections::<u32, _>(&mut second, &mut other, count, ".plt.idx");
    assert_eq!(done, Some(Ok(())));
    assert_eq!(other, arch);
    assert_eq!(second.section_headers, first.section_headers);
}

#[test]
fn sections_that_are_no_code_are_not_counted() {
    let relocs = rela_bytes(&[(0, 1, 1, 0)]);
    let mut elf = elf(&relocs, SHF_ALLOC);
    let mut arch = IndexedModuleArchSpecific::default();
    let count = |_: &RelocSection<'_>| (100, 100);
    let done = common_module_frob_arch_sections::<u64, _>(&mut elf, &mut arch, count, ".plt.idx");
    assert_eq!(done, Ok(()));
    assert_eq!(arch.got, ModSection { shndx: 3, num_entries: 0, max_entries: 0 });
    assert_eq!(elf.section_headers[3].sh_size, 8);
    assert_eq!(elf.section_headers[4].sh_size, 8);
}

#[test]
fn preparing_stops_at_the_first_missing_section() {
    let relocs = rela_bytes(&[(0, 1, 1, 0)]);
    let mut elf = elf(&relocs, SHF_EXECINSTR);
    elf.section_headers.truncate(4);
    let mut arch = IndexedModuleArchSpecific::default();
    let count = |_: &RelocSection<'_>| (1, 1);
    let done = common_module_frob_arch_sections::<u64, _>(&mut elf, &mut arch, count, ".plt.idx");
    assert_eq!(done, Err(ModuleErr::ENOEXEC));
    assert_eq!(arch.got, ModSection { shndx: 3, num_entries: 0, max_entries: 1 });
    assert_eq!(arch.plt, ModSection::default());
    assert_eq!(arch.plt_idx, ModSection::default());
}

#[test]
fn indexed_tables_that_do_not_fit() {
    let relocs = rela_bytes(&[(0, 1, 1, 0)]);
    let mut elf = elf(&relocs, SHF_EXECINSTR);
    let before = elf.section_headers.clone();
    let mut arch = IndexedModuleArchSpecific::default();
    let huge = |_: &RelocSection<'_>| (1, usize::MAX);
    let done =
        try_common_module_frob_arch_sections::<u64, _>(&mut elf, &mut arch, huge, ".plt.idx");
    assert_eq!(done, None);
    elf.section_headers[2].sh_info = 77;
    let one = |_: &RelocSection<'_>| (1, 1);
    let done = try_common_module_frob_arch_sections::<u64, _>(&mut elf, &mut arch, one, ".plt.idx");
    assert_eq!(done, None);
    elf.section_headers[2].sh_info = 1;
    elf.shdr_relocs.push((2, RelocSection::default()));
    let half = |_: &RelocSection<'_>| (usize::MAX / 2 + 1, 0);
    let done =
        try_common_module_frob_arch_sections::<u64, _>(&mut elf, &mut arch, half, ".plt.idx");
    assert_eq!(done, None);
    assert_eq!(arch, IndexedModuleArchSpecific::default());
    assert_eq!(elf.section_headers, before);
}

#[test]
fn relocations_through_the_got_are_counted() {
    let bytes = rela_bytes(&[(0, 1, 9, 0), (8, 1, 2, 0), (16, 1, 9, 0), (24, 1, 4000, 0)]);
    let section = reloc_section(&bytes);
    assert_eq!(count_gots(&section), 2);
    assert_eq!(count_got_relocs(&read_relocs(&section)), 2);
    assert_eq!(count_gots(&RelocSection::default()), 0);
    assert_eq!(count_got_relocs(&vec![]), 0);
}

#[test]
fn got_of_an_x86_64_module() {
    let relocs = rela_bytes(&[(0, 1, 9, 0), (8, 1, 2, 0), (16, 1, 9, 0)]);
    let mut first = elf(&relocs, SHF_ALLOC);
    let mut arch = ModuleArchSpecific::default();
    assert_eq!(gots_needed(&first), Some(2));
    assert_eq!(module_frob_arch_sections(&mut first, &mut arch), Ok(()));
    assert_eq!(arch.got, ModSection { shndx: 3, num_entries: 0, max_entries: 2 });
    assert_eq!(first.section_headers[3].sh_size, 16);
    assert_eq!(first.section_headers[3].sh_type, SHT_NOBITS);
    assert_eq!(first.section_headers[3].sh_flags, SHF_ALLOC);
    assert_eq!(first.section_headers[3].sh_addralign, GOT_ENTRY_ALIGN);
    assert_eq!(GOT_ENTRY_ALIGN as usize, std::mem::align_of::<kmod_arch::common::GotEntry>());

    let mut second = elf(&relocs, SHF_ALLOC);
    let mut other = ModuleArchSpecific::default();
    assert_eq!(try_module_frob_arch_sections(&mut second, &mut other), Some(Ok(())));
    assert_eq!(other, arch);
    assert_eq!(second.section_headers, first.section_headers);
}

#[test]
fn an_x86_64_module_without_need_of_a_got() {
    let relocs = rela_bytes(&[(0, 1, 9, 0)]);
    let mut unloaded = elf(&relocs, SHF_EXECINSTR);
    let before = unloaded.section_headers.clone();
    let mut arch = ModuleArchSpecific::default();
    assert_eq!(gots_needed(&unloaded), Some(0));
    assert_eq!(module_frob_arch_sections(&mut unloaded, &mut arch), Ok(()));
    assert_eq!(arch, ModuleArchSpecific::default());
    assert_eq!(unloaded.section_headers, before);
}

#[test]
fn an_x86_64_module_without_a_got_section() {
    let relocs = rela_bytes(&[(0, 1, 9, 0)]);
    let mut elf = elf(&relocs, SHF_ALLOC);
    elf.section_headers.truncate(3);
    let mut arch = ModuleArchSpecific::default();
    assert_eq!(module_frob_arch_sections(&mut elf, &mut arch), Err(ModuleErr::ENOEXEC));
    assert_eq!(arch, ModuleArchSpecific::default());
    assert_eq!(
        try_module_frob_arch_sections(&mut elf, &mut arch),
        Some(Err(ModuleErr::ENOEXEC))
    );
}

#[test]
fn an_x86_64_module_with_a_dangling_index() {
    let relocs = rela_bytes(&[(0, 1, 9, 0)]);
    let mut elf = elf(&relocs, SHF_ALLOC);
    let mut arch = ModuleArchSpecific::default();
    elf.shdr_relocs[0].0 = 40;
    assert_eq!(gots_needed(&elf), None);
    assert_eq!(try_module_frob_arch_sections(&mut elf, &mut arch), None);
    elf.shdr_relocs[0].0 = 2;
    elf.section_headers[2].sh_info = 6;
    assert_eq!(try_module_frob_arch_sections(&mut elf, &mut arch), None);
    assert_eq!(arch, ModuleArchSpecific::default());
}
