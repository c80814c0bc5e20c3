//! The global offset table and the procedure linkage table.
use kmod_arch::common::{
    common_module_emit_got_entry, common_module_emit_indexed_plt_entry,
    common_module_emit_plain_plt_entry, emit_got_entry, emit_plt_idx_entry, is_indexed_plt_ready,
    is_plain_plt_ready, is_table_ready, peek_got_entry, GotEntry, IndexedModuleArchSpecific,
    ModSection,
};
use kmod_arch::error::ModuleErr;
use kmod_arch::memory::{Memory, Region};
use kmod_arch::object::SectionHeader;
use kmod_arch::ptr::Ptr;

fn header(sh_addr: u64) -> SectionHeader {
    SectionHeader {
        sh_name: 0,
        sh_type: 0,
        sh_flags: 0,
        sh_addr,
        sh_offset: 0,
        sh_size: 0,
        sh_link: 0,
        sh_info: 0,
        sh_addralign: 0,
        sh_entsize: 0,
    }
}

fn memory(base: u64, len: usize) -> Memory {
    Memory { regions: vec![Region { base, bytes: vec![0; len] }] }
}

fn section(shndx: usize, max_entries: usize) -> ModSection {
    ModSection { shndx, num_entries: 0, max_entries }
}

#[test]
fn defaults_are_empty() {
    let none = ModSection { shndx: 0, num_entries: 0, max_entries: 0 };
    assert_eq!(ModSection::default(), none);
    let arch = IndexedModuleArchSpecific::default();
    assert_eq!(arch.got, none);
    assert_eq!(arch.plt, none);
    assert_eq!(arch.plt_idx, none);
}

#[test]
fn entries_hold_their_address() {
    assert_eq!(emit_got_entry(0x77).symbol_addr, 0x77);
    assert_eq!(emit_plt_idx_entry(0x78).symbol_addr, 0x78);
}

#[test]
fn got_entries_are_added_in_order() {
    let headers = [header(0), header(0x1000)];
    let mut m = memory(0x1000, 24);
    let mut got = section(1, 3);
    let a = common_module_emit_got_entry(&mut got, &headers, &mut m, 0xaaaa).unwrap();
    let b = common_module_emit_got_entry(&mut got, &headers, &mut m, 0xbbbb).unwrap();
    assert_eq!(a, Ptr(0x1000));
    assert_eq!(b, Ptr(0x1008));
    assert_eq!(got, ModSection { shndx: 1, num_entries: 2, max_entries: 3 });
    assert_eq!(a.read::<GotEntry>(&m).symbol_addr, 0xaaaa);
    assert_eq!(b.read::<GotEntry>(&m).symbol_addr, 0xbbbb);
    assert_eq!(Ptr(0x1010).read::<u64>(&m), 0);
}

#[test]
fn a_got_entry_is_found_again() {
    let headers = [header(0x1000)];
    let mut m = memory(0x1000, 16);
    let mut got = section(0, 2);
    let a = common_module_emit_got_entry(&mut got, &headers, &mut m, 5).unwrap();
    let b = common_module_emit_got_entry(&mut got, &headers, &mut m, 6).unwrap();
    assert_ne!(a, b);
    let before = m.regions[0].bytes.clone();
    assert_eq!(common_module_emit_got_entry(&mut got, &headers, &mut m, 5), Ok(a));
    assert_eq!(common_module_emit_got_entry(&mut got, &headers, &mut m, 6), Ok(b));
    assert_eq!(got.num_entries, 2);
    assert_eq!(m.regions[0].bytes, before);
}

#[test]
fn a_full_got_refuses() {
    let headers = [header(0x1000)];
    let mut m = memory(0x1000, 16);
    let mut got = section(0, 1);
    common_module_emit_got_entry(&mut got, &headers, &mut m, 5).unwrap();
    assert_eq!(
        common_module_emit_got_entry(&mut got, &headers, &mut m, 6),
        Err(ModuleErr::ENOEXEC)
    );
    assert_eq!(got, ModSection { shndx: 0, num_entries: 1, max_entries: 1 });
    assert_eq!(Ptr(0x1008).read::<u64>(&m), 0);
    let mut empty = section(0, 0);
    assert_eq!(
        common_module_emit_got_entry(&mut empty, &headers, &mut m, 5),
        Err(ModuleErr::ENOEXEC)
    );
}

#[test]
fn slots_not_in_use_are_not_searched() {
    let headers = [header(0x1000)];
    let mut m = memory(0x1000, 16);
    let mut got = section(0, 2);
    Ptr(0x1008).write::<u64>(&mut m, 9);
    assert_eq!(common_module_emit_got_entry(&mut got, &headers, &mut m, 9), Ok(Ptr(0x1000)));
    assert_eq!(got.num_entries, 1);
}

#[test]
fn the_first_of_equal_entries_is_found() {
    let headers = [header(0x1000)];
    let mut m = memory(0x1000, 24);
    Ptr(0x1008).write::<u64>(&mut m, 3);
    Ptr(0x1010).write::<u64>(&mut m, 3);
    let mut got = ModSection { shndx: 0, num_entries: 3, max_entries: 3 };
    assert_eq!(common_module_emit_got_entry(&mut got, &headers, &mut m, 3), Ok(Ptr(0x1008)));
}

#[test]
fn peeking_changes_nothing() {
    let headers = [header(0x1000)];
    let mut m = memory(0x1000, 16);
    let mut got = section(0, 2);
    assert_eq!(peek_got_entry(&got, &headers, &m, 5), Ok(Ptr(0x1000)));
    common_module_emit_got_entry(&mut got, &headers, &mut m, 5).unwrap();
    assert_eq!(peek_got_entry(&got, &headers, &m, 5), Ok(Ptr(0x1000)));
    assert_eq!(peek_got_entry(&got, &headers, &m, 6), Ok(Ptr(0x1008)));
    common_module_emit_got_entry(&mut got, &headers, &mut m, 6).unwrap();
    assert_eq!(peek_got_entry(&got, &headers, &m, 7), Err(ModuleErr::ENOEXEC));
}

#[test]
fn ready_tables() {
    let headers = [header(0x1000)];
    let m = memory(0x1000, 16);
    assert!(is_table_ready(&m, &headers, &section(0, 2)));
    assert!(is_table_ready(&m, &headers, &section(0, 0)));
    assert!(!is_table_ready(&m, &headers, &section(0, 3)));
    assert!(!is_table_ready(&m, &headers, &section(1, 0)));
    let overfull = ModSection { shndx: 0, num_entries: 2, max_entries: 1 };
    assert!(!is_table_ready(&m, &headers, &overfull));
}

#[test]
fn plain_plt_entries() {
    let headers = [header(0x2000)];
    let mut m = memory(0x2000, 16);
    let mut plt = section(0, 2);
    let make = |address: u64, entry: u64| Ok((address << 16) | entry);
    let a = common_module_emit_plain_plt_entry::<u64, _>(&mut plt, &headers, &mut m, 7, make);
    let b = common_module_emit_plain_plt_entry::<u64, _>(&mut plt, &headers, &mut m, 7, make);
    let c = common_module_emit_plain_plt_entry::<u64, _>(&mut plt, &headers, &mut m, 7, make);
    assert_eq!(a, Ok(Ptr(0x2000)));
    assert_eq!(b, Ok(Ptr(0x2008)));
    assert_eq!(c, Err(ModuleErr::ENOEXEC));
    assert_eq!(plt.num_entries, 2);
    assert_eq!(Ptr(0x2000).read::<u64>(&m), 0x7_2000);
    assert_eq!(Ptr(0x2008).read::<u64>(&m), 0x7_2008);
}

#[test]
fn a_plt_entry_that_cannot_be_made() {
    let headers = [header(0x2000)];
    let mut m = memory(0x2000, 16);
    let mut plt = section(0, 2);
    let refuse = |_: u64, _: u64| Err(ModuleErr::ENOEXEC);
    assert_eq!(
        common_module_emit_plain_plt_entry::<u32, _>(&mut plt, &headers, &mut m, 7, refuse),
        Err(ModuleErr::ENOEXEC)
    );
    assert_eq!(plt.num_entries, 0);
    assert_eq!(m.regions[0].bytes, vec![0; 16]);
}

#[test]
fn indexed_plt_entries() {
    let headers = [header(0x2000), header(0x3000)];
    let mut m = Memory {
        regions: vec![
            Region { base: 0x2000, bytes: vec![0; 8] },
            Region { base: 0x3000, bytes: vec![0; 16] },
        ],
    };
    let mut plt = section(0, 2);
    let mut idx = section(1, 2);
    let make = |address: u64, entry: u64, index: u64| {
        (address as u32) ^ (entry as u32) ^ ((index as u32) << 16)
    };
    let a = common_module_emit_indexed_plt_entry::<u32, _>(
        &mut plt, &mut idx, &headers, &mut m, 0x51, make,
    );
    let b = common_module_emit_indexed_plt_entry::<u32, _>(
        &mut plt, &mut idx, &headers, &mut m, 0x52, make,
    );
    let again = common_module_emit_indexed_plt_entry::<u32, _>(
        &mut plt, &mut idx, &headers, &mut m, 0x51, make,
    );
    let full = common_module_emit_indexed_plt_entry::<u32, _>(
        &mut plt, &mut idx, &headers, &mut m, 0x53, make,
    );
    assert_eq!(a, Ok(Ptr(0x2000)));
    assert_eq!(b, Ok(Ptr(0x2004)));
    assert_eq!(again, a);
    assert_eq!(full, Err(ModuleErr::ENOEXEC));
    assert_eq!(plt, ModSection { shndx: 0, num_entries: 2, max_entries: 2 });
    assert_eq!(idx, ModSection { shndx: 1, num_entries: 2, max_entries: 2 });
    assert_eq!(Ptr(0x3000).as_slice::<u64>(&m, 2), vec![0x51, 0x52]);
    assert_eq!(
        Ptr(0x2000).as_slice::<u32>(&m, 2),
        vec![0x51 ^ 0x2000 ^ 0x3000_0000, 0x52 ^ 0x2004 ^ 0x3008_0000]
    );
}

#[test]
fn an_indexed_plt_stays_in_step_and_without_duplicates() {
    let headers = [header(0x2000), header(0x3000)];
    let mut m = Memory {
        regions: vec![
            Region { base: 0x2000, bytes: vec![0; 16] },
            Region { base: 0x3000, bytes: vec![0; 32] },
        ],
    };
    let mut plt = section(0, 4);
    let mut idx = section(1, 4);
    let mut answered = Vec::new();
    for address in [7u64, 8, 7, 9, 8, 9, 7] {
        assert!(is_indexed_plt_ready::<u32>(&m, &headers, &plt, &idx, address));
        let make = |address: u64, _: u64, _: u64| address as u32;
        let entry = common_module_emit_indexed_plt_entry::<u32, _>(
            &mut plt, &mut idx, &headers, &mut m, address, make,
        );
        assert_eq!(plt.num_entries, idx.num_entries);
        let before = (m.regions[0].bytes.clone(), m.regions[1].bytes.clone());
        let other = |_: u64, _: u64, _: u64| 0xdead_beef;
        let again = common_module_emit_indexed_plt_entry::<u32, _>(
            &mut plt, &mut idx, &headers, &mut m, address, other,
        );
        assert_eq!(again, entry);
        assert_eq!((m.regions[0].bytes.clone(), m.regions[1].bytes.clone()), before);
        answered.push(entry.unwrap().0);
    }
    assert_eq!(answered, vec![0x2000, 0x2004, 0x2000, 0x2008, 0x2004, 0x2008, 0x2000]);
    assert_eq!(Ptr(0x3000).as_slice::<u64>(&m, 4), vec![7, 8, 9, 0]);
    assert_eq!(Ptr(0x2000).as_slice::<u32>(&m, 4), vec![7, 8, 9, 0]);
}

#[test]
fn an_entry_that_overlaps_the_index_is_lost() {
    let headers = [header(0x2000)];
    let mut m = memory(0x2000, 16);
    let mut plt = section(0, 2);
    let mut idx = section(0, 2);
    let make = |_: u64, _: u64, _: u64| 0u64;
    let mut emit = |plt: &mut ModSection, idx: &mut ModSection| {
        common_module_emit_indexed_plt_entry::<u64, _>(plt, idx, &headers, &mut m, 5, make)
    };
    assert_eq!(emit(&mut plt, &mut idx), Ok(Ptr(0x2000)));
    assert_eq!(emit(&mut plt, &mut idx), Ok(Ptr(0x2008)));
}

#[test]
fn a_full_plt_refuses_whatever_its_header() {
    let headers = [header(0x3000)];
    let mut m = memory(0x3000, 16);
    let mut plt = ModSection { shndx: 40, num_entries: 1, max_entries: 1 };
    assert!(is_plain_plt_ready::<u64>(&m, &headers, &plt));
    let plain = |_: u64, _: u64| Ok(0u64);
    assert_eq!(
        common_module_emit_plain_plt_entry::<u64, _>(&mut plt, &headers, &mut m, 7, plain),
        Err(ModuleErr::ENOEXEC)
    );
    let mut idx = section(0, 2);
    assert!(is_indexed_plt_ready::<u64>(&m, &headers, &plt, &idx, 7));
    let indexed = |_: u64, _: u64, _: u64| 0u64;
    assert_eq!(
        common_module_emit_indexed_plt_entry::<u64, _>(
            &mut plt, &mut idx, &headers, &mut m, 7, indexed,
        ),
        Err(ModuleErr::ENOEXEC)
    );
    assert_eq!(m.regions[0].bytes, vec![0; 16]);
}

#[test]
fn ready_procedure_linkage_tables() {
    let headers = [header(0x2000), header(0x3000)];
    let mut m = Memory {
        regions: vec![
            Region { base: 0x2000, bytes: vec![0; 8] },
            Region { base: 0x3000, bytes: vec![0; 16] },
        ],
    };
    assert!(is_plain_plt_ready::<u32>(&m, &headers, &section(0, 2)));
    assert!(!is_plain_plt_ready::<u64>(&m, &headers, &section(0, 2)));
    assert!(!is_plain_plt_ready::<u32>(&m, &headers, &section(2, 2)));
    let ready = |m: &Memory, plt: ModSection, idx: ModSection| {
        is_indexed_plt_ready::<u32>(m, &headers, &plt, &idx, 5)
    };
    assert!(ready(&m, section(0, 2), section(1, 2)));
    assert!(!ready(&m, section(0, 3), section(1, 2)));
    assert!(!ready(&m, section(0, 2), section(1, 3)));
    assert!(!ready(&m, section(0, 2), section(2, 0)));
    // The slot number comes from the table; the index has to have it.
    let used = ModSection { shndx: 0, num_entries: 1, max_entries: 2 };
    assert!(ready(&m, used, section(1, 2)));
    assert!(!ready(&m, used, section(1, 1)));
    // An entry that the index leads to has to be there.
    Ptr(0x3008).write::<u64>(&mut m, 5);
    let found = ModSection { shndx: 1, num_entries: 2, max_entries: 2 };
    assert!(ready(&m, section(0, 2), found));
    assert!(!ready(&m, section(0, 1), found));
}
