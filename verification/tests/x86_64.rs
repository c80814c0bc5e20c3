//! Relocations of x86-64 modules.
use kmod_arch::common::{common_module_emit_got_entry, GotEntry, ModSection};
use kmod_arch::error::ModuleErr;
use kmod_arch::memory::{Memory, Region};
use kmod_arch::object::{ModuleLoadInfo, Rela, SectionHeader, Sym};
use kmod_arch::ptr::Ptr;
use kmod_arch::x86_64::reloc_type::ArchRelocationType;
use kmod_arch::x86_64::relocate::ArchRelocate;
use kmod_arch::x86_64::relocation::Effect;
use kmod_arch::x86_64::ModuleArchSpecific;

const REFUSED: Result<(), ModuleErr> = Err(ModuleErr::ENOEXEC);
const TEXT: u64 = 0x10_0000;
const GOT: u64 = 0x20_0000;

fn memory(base: u64, len: usize) -> Memory {
    Memory { regions: vec![Region { base, bytes: vec![0; len] }] }
}

fn header(sh_addr: u64, sh_info: u32) -> SectionHeader {
    SectionHeader {
        sh_name: 0,
        sh_type: 0,
        sh_flags: 0,
        sh_addr,
        sh_offset: 0,
        sh_size: 0,
        sh_link: 0,
        sh_info,
        sh_addralign: 0,
        sh_entsize: 0,
    }
}

fn rela(r_offset: u64, sym: u64, kind: ArchRelocationType, r_addend: i64) -> Rela {
    Rela { r_offset, r_info: (sym << 32) | u32::from(kind) as u64, r_addend }
}

fn load_info(values: &[u64]) -> ModuleLoadInfo {
    ModuleLoadInfo {
        syms: values.iter().map(|&v| (Sym { st_value: v }, format!("sym_{:x}", v))).collect(),
    }
}

/// A module with 64 bytes of code and a global offset table of `slots` slots. The
/// headers: null, the code, its relocations, the table.
fn module(slots: usize) -> (Memory, Vec<SectionHeader>, ModuleArchSpecific) {
    let memory = Memory {
        regions: vec![
            Region { base: TEXT, bytes: vec![0; 64] },
            Region { base: GOT, bytes: vec![0; slots * 8] },
        ],
    };
    let headers = vec![header(0, 0), header(TEXT, 0), header(0, 1), header(GOT, 0)];
    let arch =
        ModuleArchSpecific { got: ModSection { shndx: 3, num_entries: 0, max_entries: slots } };
    (memory, headers, arch)
}

#[test]
fn type_numbers() {
    let numbered = [
        (0, ArchRelocationType::R_X86_64_NONE),
        (1, ArchRelocationType::R_X86_64_64),
        (2, ArchRelocationType::R_X86_64_PC32),
        (3, ArchRelocationType::R_X86_64_GOT32),
        (4, ArchRelocationType::R_X86_64_PLT32),
        (5, ArchRelocationType::R_X86_64_COPY),
        (6, ArchRelocationType::R_X86_64_GLOB_DAT),
        (7, ArchRelocationType::R_X86_64_JUMP_SLOT),
        (8, ArchRelocationType::R_X86_64_RELATIVE),
        (9, ArchRelocationType::R_X86_64_GOTPCREL),
        (10, ArchRelocationType::R_X86_64_32),
        (11, ArchRelocationType::R_X86_64_32S),
        (12, ArchRelocationType::R_X86_64_16),
        (13, ArchRelocationType::R_X86_64_PC16),
        (14, ArchRelocationType::R_X86_64_8),
        (15, ArchRelocationType::R_X86_64_PC8),
        (24, ArchRelocationType::R_X86_64_PC64),
    ];
    for code in 0u32..300 {
        let named = numbered.iter().find(|(c, _)| *c == code);
        match named {
            Some((_, kind)) => {
                assert_eq!(ArchRelocationType::try_from(code), Ok(*kind));
                assert_eq!(u32::from(*kind), code);
            }
            None => assert_eq!(ArchRelocationType::try_from(code), Err(code)),
        }
    }
    assert_eq!(ArchRelocationType::try_from(u32::MAX), Err(u32::MAX));
}

#[test]
fn no_relocation_does_nothing() {
    let mut m = memory(TEXT, 8);
    let kind = ArchRelocationType::R_X86_64_NONE;
    assert_eq!(kind.apply_relocation(&mut m, 0x5555, 0x1234), Ok(()));
    assert_eq!(m.regions[0].bytes, vec![0; 8]);
}

#[test]
fn direct_64_bit() {
    let mut m = memory(TEXT, 16);
    let kind = ArchRelocationType::R_X86_64_64;
    assert_eq!(kind.apply_relocation(&mut m, TEXT + 4, 0xffff_8000_1234_5678), Ok(()));
    assert_eq!(
        m.regions[0].bytes,
        vec![0, 0, 0, 0, 0x78, 0x56, 0x34, 0x12, 0, 0x80, 0xff, 0xff, 0, 0, 0, 0]
    );
}

#[test]
fn direct_32_bit_zero_extended() {
    let kind = ArchRelocationType::R_X86_64_32;
    let mut m = memory(TEXT, 8);
    assert_eq!(kind.apply_relocation(&mut m, TEXT, 0xffff_fffe), Ok(()));
    assert_eq!(Ptr(TEXT).read::<u32>(&m) as u64, 0xffff_fffe);
    assert_eq!(Ptr(TEXT + 4).read::<u32>(&m), 0);
    let mut m = memory(TEXT, 8);
    assert_eq!(kind.apply_relocation(&mut m, TEXT, 0x1_0000_0000), REFUSED);
    assert_eq!(kind.apply_relocation(&mut m, TEXT, 0xffff_ffff_8000_0000), REFUSED);
    assert_eq!(m.regions[0].bytes, vec![0; 8]);
}

#[test]
fn direct_32_bit_sign_extended() {
    let kind = ArchRelocationType::R_X86_64_32S;
    for target in [0u64, 1, 0x7fff_ffff, 0xffff_ffff_8000_0000, 0xffff_ffff_8012_3456, u64::MAX] {
        let mut m = memory(TEXT, 8);
        assert_eq!(kind.apply_relocation(&mut m, TEXT, target), Ok(()));
        assert_eq!(Ptr(TEXT).read::<u32>(&m) as i32 as i64 as u64, target);
    }
    for target in [0x8000_0000u64, 0xffff_ffff, 0x1_0000_0000, 0xffff_ffff_7fff_ffff, 1 << 63] {
        let mut m = memory(TEXT, 8);
        assert_eq!(kind.apply_relocation(&mut m, TEXT, target), REFUSED);
        assert_eq!(m.regions[0].bytes, vec![0; 8]);
    }
}

#[test]
fn relative_32_bit() {
    for kind in [ArchRelocationType::R_X86_64_PC32, ArchRelocationType::R_X86_64_PLT32] {
        let mut m = memory(TEXT, 12);
        assert_eq!(kind.apply_relocation(&mut m, TEXT, TEXT + 0x1234), Ok(()));
        assert_eq!(kind.apply_relocation(&mut m, TEXT + 4, TEXT), Ok(()));
        assert_eq!(Ptr(TEXT).as_slice::<u32>(&m, 2), vec![0x1234, 0xffff_fffc]);
        // Far targets are cut to the low half.
        assert_eq!(kind.apply_relocation(&mut m, TEXT + 8, TEXT + 0x5_0000_0009), Ok(()));
        assert_eq!(Ptr(TEXT + 8).read::<u32>(&m), 1);
    }
}

#[test]
fn relative_64_bit() {
    let kind = ArchRelocationType::R_X86_64_PC64;
    let mut m = memory(TEXT, 16);
    assert_eq!(kind.apply_relocation(&mut m, TEXT + 8, 0x3), Ok(()));
    let field = Ptr(TEXT + 8).read::<u64>(&m);
    assert_eq!(field, 0xffff_ffff_ffef_fffb);
    assert_eq!((TEXT + 8).wrapping_add(field), 3);
}

#[test]
fn types_that_are_not_supported() {
    let mut m = memory(TEXT, 8);
    for kind in [
        ArchRelocationType::R_X86_64_GOT32,
        ArchRelocationType::R_X86_64_COPY,
        ArchRelocationType::R_X86_64_GLOB_DAT,
        ArchRelocationType::R_X86_64_JUMP_SLOT,
        ArchRelocationType::R_X86_64_RELATIVE,
        ArchRelocationType::R_X86_64_GOTPCREL,
        ArchRelocationType::R_X86_64_16,
        ArchRelocationType::R_X86_64_PC16,
        ArchRelocationType::R_X86_64_8,
        ArchRelocationType::R_X86_64_PC8,
    ] {
        assert_eq!(kind.apply_relocation(&mut m, TEXT, 1), REFUSED);
        assert!(matches!(kind.resolve(TEXT, 1), Effect::Refuse));
    }
    assert_eq!(m.regions[0].bytes, vec![0; 8]);
}

#[test]
fn effects() {
    let kind = ArchRelocationType::R_X86_64_PC32;
    assert!(matches!(kind.resolve(0x10, 0x14), Effect::Put { width: 4, value: 4 }));
    assert!(matches!(
        kind.resolve(1, 0),
        Effect::Put { width: 4, value: 0xffff_ffff_ffff_ffff }
    ));
    let kind = ArchRelocationType::R_X86_64_64;
    assert!(matches!(kind.resolve(0x10, 0x14), Effect::Put { width: 8, value: 0x14 }));
    let kind = ArchRelocationType::R_X86_64_NONE;
    assert!(matches!(kind.resolve(0x10, 0x14), Effect::Nothing));
}

#[test]
fn a_place_is_relocated_once() {
    let kind = ArchRelocationType::R_X86_64_64;
    let mut m = memory(TEXT, 8);
    assert_eq!(kind.apply_relocation(&mut m, TEXT, 0xabc), Ok(()));
    assert_eq!(kind.apply_relocation(&mut m, TEXT, 0xabc), REFUSED);
    assert_eq!(kind.apply_relocation(&mut m, TEXT, 0xdef), REFUSED);
    assert_eq!(Ptr(TEXT).read::<u64>(&m), 0xabc);
    // Zeros that were put count as nothing.
    let mut m = memory(TEXT, 8);
    assert_eq!(kind.apply_relocation(&mut m, TEXT, 0), Ok(()));
    assert_eq!(kind.apply_relocation(&mut m, TEXT, 7), Ok(()));
}

#[test]
fn any_byte_of_the_place_counts() {
    for i in 0..8u64 {
        let mut m = memory(TEXT, 8);
        Ptr(TEXT + i).write::<u8>(&mut m, 1);
        let wide = ArchRelocationType::R_X86_64_64.apply_relocation(&mut m, TEXT, 5);
        assert_eq!(wide, REFUSED);
        let half = ArchRelocationType::R_X86_64_32.apply_relocation(&mut m, TEXT, 5);
        assert_eq!(half, if i < 4 { REFUSED } else { Ok(()) });
    }
}

#[test]
fn through_the_got() {
    let (mut m, headers, mut arch) = module(2);
    let kind = ArchRelocationType::R_X86_64_GOTPCREL;
    let symbol = 0xffff_ffff_8000_1000u64;
    let done =
        kind.apply_r_x86_64_gotpcrel(&mut arch, &headers, &mut m, TEXT + 8, symbol, -4);
    assert_eq!(done, Ok(()));
    assert_eq!(arch.got.num_entries, 1);
    let field = Ptr(TEXT + 8).read::<u32>(&m) as i32 as i64;
    assert_eq!(field, (GOT - 4) as i64 - (TEXT + 8) as i64);
    let entry = (TEXT + 8).wrapping_add(field as u64).wrapping_add(4);
    assert_eq!(entry, GOT);
    assert_eq!(Ptr(entry).read::<GotEntry>(&m).symbol_addr, symbol);
}

#[test]
fn through_the_got_twice() {
    let (mut m, headers, mut arch) = module(1);
    let kind = ArchRelocationType::R_X86_64_GOTPCREL;
    let mut apply = |m: &mut Memory, at: u64, symbol: u64| {
        kind.apply_r_x86_64_gotpcrel(&mut arch, &headers, m, at, symbol, 0)
    };
    assert_eq!(apply(&mut m, TEXT, 77), Ok(()));
    assert_eq!(apply(&mut m, TEXT + 4, 77), Ok(()));
    assert_eq!(apply(&mut m, TEXT + 8, 78), REFUSED);
    assert_eq!(Ptr(TEXT).as_slice::<u32>(&m, 3), vec![0x10_0000, 0xf_fffc, 0]);
    assert_eq!(arch.got.num_entries, 1);
}

#[test]
fn a_got_out_of_reach() {
    let far = TEXT + 0x8000_0000;
    let headers = vec![header(far, 0)];
    let mut m = Memory {
        regions: vec![
            Region { base: TEXT, bytes: vec![0; 8] },
            Region { base: far, bytes: vec![0; 8] },
        ],
    };
    let got = ModSection { shndx: 0, num_entries: 0, max_entries: 1 };
    let mut arch = ModuleArchSpecific { got };
    let kind = ArchRelocationType::R_X86_64_GOTPCREL;
    let done = kind.apply_r_x86_64_gotpcrel(&mut arch, &headers, &mut m, TEXT, 9, 0);
    assert_eq!(done, REFUSED);
    assert_eq!(Ptr(TEXT).read::<u64>(&m), 0);
    // The entry was added all the same.
    assert_eq!(arch.got.num_entries, 1);
    assert_eq!(Ptr(far).read::<u64>(&m), 9);
    let done = kind.apply_r_x86_64_gotpcrel(&mut arch, &headers, &mut m, TEXT, 9, -1);
    assert_eq!(done, Ok(()));
    assert_eq!(Ptr(TEXT).read::<u32>(&m), 0x7fff_ffff);
}

#[test]
fn through_the_got_to_a_place_in_use() {
    let (mut m, headers, mut arch) = module(1);
    Ptr(TEXT + 3).write::<u8>(&mut m, 1);
    let kind = ArchRelocationType::R_X86_64_GOTPCREL;
    let done = kind.apply_r_x86_64_gotpcrel(&mut arch, &headers, &mut m, TEXT, 9, 0);
    assert_eq!(done, REFUSED);
    assert_eq!(Ptr(TEXT).read::<u32>(&m), 0x0100_0000);
    let done = kind.apply_r_x86_64_gotpcrel(&mut arch, &headers, &mut m, TEXT + 4, 9, 0);
    assert_eq!(done, Ok(()));
    assert_eq!(arch.got.num_entries, 1);
}

#[test]
fn what_a_relocation_through_the_got_needs() {
    let (m, headers, arch) = module(1);
    let kind = ArchRelocationType::R_X86_64_GOTPCREL;
    assert!(kind.is_gotpcrel_mapped(&arch, &headers, &m, TEXT + 60, 9, 0));
    assert!(!kind.is_gotpcrel_mapped(&arch, &headers, &m, TEXT + 61, 9, 0));
    assert!(kind.is_gotpcrel_mapped(&arch, &headers, &m, TEXT + 61, 9, i64::MAX));
    let full = ModuleArchSpecific { got: ModSection { max_entries: 0, ..arch.got } };
    assert!(kind.is_gotpcrel_mapped(&full, &headers, &m, TEXT + 61, 9, 0));
    let gone = ModuleArchSpecific { got: ModSection { shndx: 4, ..arch.got } };
    assert!(!kind.is_gotpcrel_mapped(&gone, &headers, &m, TEXT, 9, 0));
}

#[test]
fn a_list_of_relocations() {
    let (mut m, headers, mut arch) = module(2);
    let info = load_info(&[0, 0x1234, 0x5678]);
    let relas = [
        rela(0, 1, ArchRelocationType::R_X86_64_64, 2),
        rela(8, 2, ArchRelocationType::R_X86_64_PC32, -4),
        rela(12, 1, ArchRelocationType::R_X86_64_GOTPCREL, -4),
        rela(16, 2, ArchRelocationType::R_X86_64_GOTPCREL, 0),
        rela(20, 1, ArchRelocationType::R_X86_64_GOTPCREL, 0),
        rela(24, 2, ArchRelocationType::R_X86_64_32S, -0x5679),
    ];
    for r in &relas {
        assert!(ArchRelocate::is_applicable(r, &headers[2], &headers, &info, &arch, &m));
    }
    let done = ArchRelocate::apply_relocate_add(
        &relas, &headers[2], &headers, &info, &mut arch, &mut m,
    );
    assert_eq!(done, Ok(()));
    assert_eq!(Ptr(TEXT).read::<u64>(&m), 0x1236);
    assert_eq!(Ptr(TEXT + 8).read::<u32>(&m), 0x5674u32.wrapping_sub(0x10_0008));
    assert_eq!(Ptr(TEXT + 12).read::<u32>(&m), 0x10_0000 - 16);
    assert_eq!(Ptr(TEXT + 16).read::<u32>(&m), 0x10_0000 + 8 - 16);
    assert_eq!(Ptr(TEXT + 20).read::<u32>(&m), 0x10_0000 - 20);
    assert_eq!(Ptr(TEXT + 24).read::<u32>(&m), u32::MAX);
    assert_eq!(Ptr(TEXT + 28).as_slice::<u32>(&m, 9), vec![0; 9]);
    assert_eq!(arch.got.num_entries, 2);
    assert_eq!(Ptr(GOT).as_slice::<u64>(&m, 2), vec![0x1234, 0x5678]);
}

#[test]
fn a_list_stops_where_it_fails() {
    let (mut m, headers, mut arch) = module(1);
    let info = load_info(&[0x1234]);
    let relas = [
        rela(0, 0, ArchRelocationType::R_X86_64_64, 0),
        rela(8, 0, ArchRelocationType::R_X86_64_COPY, 0),
        rela(16, 0, ArchRelocationType::R_X86_64_64, 0),
    ];
    let done = ArchRelocate::apply_relocate_add(
        &relas, &headers[2], &headers, &info, &mut arch, &mut m,
    );
    assert_eq!(done, REFUSED);
    assert_eq!(Ptr(TEXT).as_slice::<u64>(&m, 3), vec![0x1234, 0, 0]);
    let done = ArchRelocate::apply_relocate_add(
        &relas[2..], &headers[2], &headers, &info, &mut arch, &mut m,
    );
    assert_eq!(done, Ok(()));
    assert_eq!(Ptr(TEXT + 16).read::<u64>(&m), 0x1234);
}

#[test]
fn one_list_or_two() {
    let info = load_info(&[0x1234, 0x5678]);
    let relas = [
        rela(0, 0, ArchRelocationType::R_X86_64_GOTPCREL, 0),
        rela(4, 1, ArchRelocationType::R_X86_64_PLT32, -4),
        rela(8, 1, ArchRelocationType::R_X86_64_GOTPCREL, 0),
    ];
    let (mut m1, headers, mut arch1) = module(2);
    let (mut m2, _, mut arch2) = module(2);
    let whole = ArchRelocate::apply_relocate_add(
        &relas, &headers[2], &headers, &info, &mut arch1, &mut m1,
    );
    for split in [&relas[..1], &relas[1..]] {
        let part = ArchRelocate::apply_relocate_add(
            split, &headers[2], &headers, &info, &mut arch2, &mut m2,
        );
        assert_eq!(part, whole);
    }
    assert_eq!(arch1, arch2);
    assert_eq!(m1.regions[0].bytes, m2.regions[0].bytes);
    assert_eq!(m1.regions[1].bytes, m2.regions[1].bytes);
}

#[test]
fn an_empty_list() {
    let (mut m, headers, mut arch) = module(0);
    let info = load_info(&[]);
    let done =
        ArchRelocate::apply_relocate_add(&[], &headers[2], &headers, &info, &mut arch, &mut m);
    assert_eq!(done, Ok(()));
    assert_eq!(m.regions[0].bytes, vec![0; 64]);
}

#[test]
fn a_type_number_that_names_nothing() {
    let (mut m, headers, mut arch) = module(0);
    let info = load_info(&[1]);
    let unknown = Rela { r_offset: 0, r_info: 99, r_addend: 0 };
    assert!(ArchRelocate::is_applicable(&unknown, &headers[2], &headers, &info, &arch, &m));
    let done = ArchRelocate::apply_rela(&unknown, &headers[2], &headers, &info, &mut arch, &mut m);
    assert_eq!(done, REFUSED);
    assert_eq!(m.regions[0].bytes, vec![0; 64]);
}

#[test]
fn relocations_that_cannot_be_applied_at_all() {
    let (m, headers, arch) = module(1);
    let info = load_info(&[1]);
    let ok = |r: Rela, section: &SectionHeader| {
        ArchRelocate::is_applicable(&r, section, &headers, &info, &arch, &m)
    };
    let kind = ArchRelocationType::R_X86_64_64;
    assert!(ok(rela(56, 0, kind, 0), &headers[2]));
    assert!(!ok(rela(57, 0, kind, 0), &headers[2]));
    assert!(!ok(rela(56, 1, kind, 0), &headers[2]));
    assert!(!ok(rela(56, 0, kind, 0), &header(0, 4)));
    assert!(!ok(rela(u64::MAX, 0, kind, 0), &headers[2]));
    assert!(ok(rela(60, 0, ArchRelocationType::R_X86_64_PC32, 0), &headers[2]));
    assert!(ok(rela(1000, 0, ArchRelocationType::R_X86_64_NONE, 0), &headers[2]));
    assert!(ok(rela(1000, 0, ArchRelocationType::R_X86_64_16, 0), &headers[2]));
    assert!(!ok(rela(1000, 0, ArchRelocationType::R_X86_64_GOTPCREL, 0), &headers[2]));
}

#[test]
fn addends_wrap_around() {
    let (mut m, headers, mut arch) = module(0);
    let info = load_info(&[3, u64::MAX]);
    let relas = [
        rela(0, 0, ArchRelocationType::R_X86_64_64, -4),
        rela(8, 1, ArchRelocationType::R_X86_64_64, 3),
    ];
    let done = ArchRelocate::apply_relocate_add(
        &relas, &headers[2], &headers, &info, &mut arch, &mut m,
    );
    assert_eq!(done, Ok(()));
    assert_eq!(Ptr(TEXT).as_slice::<u64>(&m, 2), vec![u64::MAX, 2]);
}

#[test]
fn entries_stay_where_they_are() {
    let (mut m, headers, mut arch) = module(3);
    let first = common_module_emit_got_entry(&mut arch.got, &headers, &mut m, 0x99).unwrap();
    let info = load_info(&[0x1234, 0x99]);
    let relas = [
        rela(0, 0, ArchRelocationType::R_X86_64_GOTPCREL, 0),
        rela(4, 1, ArchRelocationType::R_X86_64_GOTPCREL, 0),
    ];
    let done = ArchRelocate::apply_relocate_add(
        &relas, &headers[2], &headers, &info, &mut arch, &mut m,
    );
    assert_eq!(done, Ok(()));
    assert_eq!(first.read::<u64>(&m), 0x99);
    assert_eq!(arch.got, ModSection { shndx: 3, num_entries: 2, max_entries: 3 });
    assert_eq!(Ptr(GOT).as_slice::<u64>(&m, 3), vec![0x99, 0x1234, 0]);
}

#[test]
fn a_refused_relocation_through_the_got_leaves_the_place() {
    let (mut m, headers, mut arch) = module(2);
    Ptr(TEXT).write::<u32>(&mut m, 0x55);
    let text = m.regions[0].bytes.clone();
    let kind = ArchRelocationType::R_X86_64_GOTPCREL;
    let done = kind.apply_r_x86_64_gotpcrel(&mut arch, &headers, &mut m, TEXT, 9, 0);
    assert_eq!(done, REFUSED);
    assert_eq!(m.regions[0].bytes, text);
    assert_eq!(Ptr(GOT).as_slice::<u64>(&m, 2), vec![9, 0]);
    // Once the entry is there, a refusal changes nothing at all.
    let got = m.regions[1].bytes.clone();
    let done = kind.apply_r_x86_64_gotpcrel(&mut arch, &headers, &mut m, TEXT, 9, 0);
    assert_eq!(done, REFUSED);
    assert_eq!(m.regions[1].bytes, got);
    assert_eq!(arch.got.num_entries, 1);
}

#[test]
fn a_place_in_the_slot_that_is_added() {
    let (mut m, headers, mut arch) = module(1);
    let kind = ArchRelocationType::R_X86_64_GOTPCREL;
    let done = kind.apply_r_x86_64_gotpcrel(&mut arch, &headers, &mut m, GOT, 9, 0);
    assert_eq!(done, REFUSED);
    assert_eq!(Ptr(GOT).read::<u32>(&m), 9);
}

#[test]
fn the_got_grows_by_the_different_symbols() {
    let (mut m, headers, mut arch) = module(8);
    common_module_emit_got_entry(&mut arch.got, &headers, &mut m, 0x30).unwrap();
    // Two names for 0x10, and 0x30 is there already.
    let info = load_info(&[0x10, 0x20, 0x30, 0x10]);
    let kind = ArchRelocationType::R_X86_64_GOTPCREL;
    let relas: Vec<Rela> = [1u64, 0, 1, 2, 3, 0]
        .iter()
        .enumerate()
        .map(|(i, &sym)| rela(4 * i as u64, sym, kind, -4))
        .collect();
    let done = ArchRelocate::apply_relocate_add(
        &relas, &headers[2], &headers, &info, &mut arch, &mut m,
    );
    assert_eq!(done, Ok(()));
    assert_eq!(arch.got.num_entries, 3);
    assert_eq!(Ptr(GOT).as_slice::<u64>(&m, 4), vec![0x30, 0x20, 0x10, 0]);
}

#[test]
fn what_a_failure_leaves() {
    let info = load_info(&[0x10, 0x20]);
    let kind = ArchRelocationType::R_X86_64_GOTPCREL;
    let relas = [rela(0, 0, kind, 0), rela(0, 1, kind, 0), rela(4, 0, kind, 0)];
    let (mut m1, headers, mut arch1) = module(4);
    let (mut m2, _, mut arch2) = module(4);
    let whole = ArchRelocate::apply_relocate_add(
        &relas, &headers[2], &headers, &info, &mut arch1, &mut m1,
    );
    for r in &relas[..2] {
        let _ = ArchRelocate::apply_rela(r, &headers[2], &headers, &info, &mut arch2, &mut m2);
    }
    assert_eq!(whole, REFUSED);
    assert_eq!(arch1, arch2);
    assert_eq!(arch1.got.num_entries, 2);
    assert_eq!(m1.regions[0].bytes, m2.regions[0].bytes);
    assert_eq!(m1.regions[1].bytes, m2.regions[1].bytes);
}
