//! The room that is reserved for a module is enough to relocate it.
use goblin::container::{Container, Ctx, Endian};
use goblin::elf::RelocSection;
use goblin::strtab::Strtab;
use kmod_arch::memory::{Memory, Region};
use kmod_arch::object::{
    Elf, ModuleLoadInfo, Rela, SectionHeader, Sym, SHF_ALLOC, SHT_PROGBITS, SHT_RELA,
};
use kmod_arch::ptr::Ptr;
use kmod_arch::x86_64::relocate::ArchRelocate;
use kmod_arch::x86_64::sections::module_frob_arch_sections;
use kmod_arch::x86_64::ModuleArchSpecific;

/// ".text" at 1, ".data" at 7, ".got" at 13.
const NAMES: &[u8] = b"\0.text\0.data\0.got\0";

fn header(sh_name: usize, sh_type: u32, sh_flags: u64, sh_info: u32) -> SectionHeader {
    SectionHeader {
        sh_name,
        sh_type,
        sh_flags,
        sh_addr: 0,
        sh_offset: 0,
        sh_size: 64,
        sh_link: 0,
        sh_info,
        sh_addralign: 8,
        sh_entsize: 0,
    }
}

fn encode(relas: &[Rela]) -> Vec<u8> {
    let mut bytes = Vec::new();
    for rela in relas {
        bytes.extend_from_slice(&rela.r_offset.to_le_bytes());
        bytes.extend_from_slice(&rela.r_info.to_le_bytes());
        bytes.extend_from_slice(&rela.r_addend.to_le_bytes());
    }
    bytes
}

/// Reserves for two sections of five relocations through the table, then relocates
/// the sections at `order` of them and answers how the table was filled.
fn relocate_in_order(order: &[usize]) -> Vec<u64> {
    let through_got =
        |r_offset: u64, sym: u64| Rela { r_offset, r_info: (sym << 32) | 9, r_addend: 0 };
    let text_relas = [through_got(0, 0), through_got(4, 1), through_got(8, 0)];
    let data_relas = [through_got(0, 2), through_got(4, 1)];
    let text_bytes = encode(&text_relas);
    let data_bytes = encode(&data_relas);
    let ctx = Ctx::new(Container::Big, Endian::Little);
    let mut elf = Elf {
        section_headers: vec![
            header(0, 0, 0, 0),
            header(1, SHT_PROGBITS, SHF_ALLOC, 0),
            header(0, SHT_RELA, 0, 1),
            header(7, SHT_PROGBITS, SHF_ALLOC, 0),
            header(0, SHT_RELA, 0, 3),
            header(13, SHT_PROGBITS, 0, 0),
        ],
        shdr_strtab: Strtab::new_preparsed(NAMES, 0).unwrap(),
        shdr_relocs: vec![
            (2, RelocSection::parse(&text_bytes, 0, text_bytes.len(), true, ctx).unwrap()),
            (4, RelocSection::parse(&data_bytes, 0, data_bytes.len(), true, ctx).unwrap()),
        ],
    };
    let mut arch = ModuleArchSpecific::default();
    assert_eq!(module_frob_arch_sections(&mut elf, &mut arch), Ok(()));
    assert_eq!(arch.got.max_entries, 5);
    assert_eq!(arch.got.shndx, 5);

    let mut headers = elf.section_headers;
    let mut memory = Memory { regions: Vec::new() };
    for (i, h) in headers.iter_mut().enumerate() {
        h.sh_addr = 0x1000 * i as u64;
        memory.regions.push(Region { base: h.sh_addr, bytes: vec![0; h.sh_size as usize] });
    }
    let syms = [0xa0u64, 0xb0, 0xc0].map(|v| (Sym { st_value: v }, String::from("s"))).to_vec();
    let info = ModuleLoadInfo { syms };
    let sections = [(2usize, &text_relas[..]), (4, &data_relas[..])];
    for &(section, relas) in order.iter().map(|&i| &sections[i]) {
        let done = ArchRelocate::apply_relocate_add(
            relas, &headers[section], &headers, &info, &mut arch, &mut memory,
        );
        assert_eq!(done, Ok(()));
    }
    Ptr(0x5000).as_slice::<u64>(&memory, arch.got.num_entries)
}

#[test]
fn reserved_slots_are_enough_for_all_sections() {
    assert_eq!(relocate_in_order(&[0, 1]), vec![0xa0, 0xb0, 0xc0]);
}

#[test]
fn reserved_slots_are_enough_in_any_order() {
    assert_eq!(relocate_in_order(&[1, 0]), vec![0xc0, 0xb0, 0xa0]);
    assert_eq!(relocate_in_order(&[1]), vec![0xc0, 0xb0]);
    assert_eq!(relocate_in_order(&[0]), vec![0xa0, 0xb0]);
    assert_eq!(relocate_in_order(&[]), vec![]);
}
