//! Memory and addresses.
use kmod_arch::common::{GotEntry, PltIdxEntry};
use kmod_arch::memory::{Memory, Region};
use kmod_arch::ptr::{Pod, Ptr};

fn memory(base: u64, len: usize) -> Memory {
    Memory { regions: vec![Region { base, bytes: vec![0; len] }] }
}

#[test]
fn mapped_ranges() {
    let m = Memory {
        regions: vec![
            Region { base: 0x1000, bytes: vec![0; 16] },
            Region { base: 0x1010, bytes: vec![0; 16] },
            Region { base: 0x2000, bytes: vec![0; 4] },
        ],
    };
    assert!(m.is_mapped(0x1000, 32));
    assert!(m.is_mapped(0x100c, 8));
    assert!(!m.is_mapped(0x1000, 33));
    assert!(!m.is_mapped(0xfff, 1));
    assert!(m.is_mapped(0xfff, 0));
    assert!(m.is_mapped(0x2003, 1));
    assert!(!m.is_mapped(0x2004, 1));
}

#[test]
fn the_top_of_the_address_space() {
    let m = memory(u64::MAX - 3, 8);
    assert!(m.is_mapped(u64::MAX - 3, 4));
    assert!(!m.is_mapped(u64::MAX - 3, 5));
    assert!(!m.is_mapped(u64::MAX, 2));
}

#[test]
fn bytes_read_and_written() {
    let mut m = memory(0x1000, 8);
    m.write_bytes(0x1002, &vec![1, 2, 3]);
    assert_eq!(m.read_bytes(0x1000, 8), vec![0, 0, 1, 2, 3, 0, 0, 0]);
    assert_eq!(m.read_bytes(0x1003, 2), vec![2, 3]);
    assert_eq!(m.read_bytes(0x5555, 0), Vec::<u8>::new());
}

#[test]
fn writes_across_regions() {
    let mut m = Memory {
        regions: vec![
            Region { base: 0x1000, bytes: vec![0; 4] },
            Region { base: 0x1004, bytes: vec![0; 4] },
        ],
    };
    Ptr(0x1002).write::<u32>(&mut m, 0x4433_2211);
    assert_eq!(m.regions[0].bytes, vec![0, 0, 0x11, 0x22]);
    assert_eq!(m.regions[1].bytes, vec![0x33, 0x44, 0, 0]);
    assert_eq!(Ptr(0x1002).read::<u32>(&m), 0x4433_2211);
}

#[test]
fn the_earlier_region_wins() {
    let mut m = Memory {
        regions: vec![
            Region { base: 0x1000, bytes: vec![7; 4] },
            Region { base: 0x1000, bytes: vec![9; 8] },
        ],
    };
    assert_eq!(m.read_bytes(0x1000, 8), vec![7, 7, 7, 7, 9, 9, 9, 9]);
    m.write_bytes(0x1003, &vec![1, 2]);
    assert_eq!(m.regions[1].bytes, vec![9, 9, 9, 9, 2, 9, 9, 9]);
}

#[test]
fn a_read_gives_what_was_written() {
    let mut m = memory(0x4000, 32);
    let at = Ptr(0x4008);
    at.write::<u64>(&mut m, 0x0102_0304_0506_0708);
    assert_eq!(at.read::<u64>(&m), 0x0102_0304_0506_0708);
    assert_eq!(at.read::<u32>(&m), 0x0506_0708);
    assert_eq!(at.read::<u8>(&m), 8);
    at.write::<u8>(&mut m, 0xff);
    assert_eq!(at.read::<u64>(&m), 0x0102_0304_0506_07ff);
    at.write::<GotEntry>(&mut m, GotEntry { symbol_addr: 0xabcd });
    assert_eq!(at.read::<GotEntry>(&m), GotEntry { symbol_addr: 0xabcd });
    assert_eq!(at.read::<PltIdxEntry>(&m), PltIdxEntry { symbol_addr: 0xabcd });
    assert_eq!(at.read::<u64>(&m), 0xabcd);
}

#[test]
fn a_write_leaves_the_rest_alone() {
    let mut m = Memory { regions: vec![Region { base: 0x10, bytes: vec![0xee; 12] }] };
    Ptr(0x14).write::<u32>(&mut m, 0);
    assert_eq!(
        m.regions[0].bytes,
        vec![0xee, 0xee, 0xee, 0xee, 0, 0, 0, 0, 0xee, 0xee, 0xee, 0xee]
    );
}

#[test]
fn slices() {
    let mut m = memory(0x1000, 32);
    Ptr(0x1008).write::<u64>(&mut m, 5);
    Ptr(0x1010).write::<u64>(&mut m, 6);
    assert_eq!(Ptr(0x1000).as_slice::<u64>(&m, 4), vec![0, 5, 6, 0]);
    assert_eq!(Ptr(0x1008).as_slice::<u8>(&m, 3), vec![5, 0, 0]);
    assert_eq!(Ptr(0x9999).as_slice::<u64>(&m, 0), Vec::<u64>::new());
}

#[test]
fn addresses() {
    assert_eq!(Ptr(0x1234).as_ptr(), 0x1234);
    assert_eq!(Ptr(0x1000).add(0x20), Ptr(0x1020));
    assert_eq!(Ptr(u64::MAX - 1).add(1), Ptr(u64::MAX));
}

#[test]
fn sizes_of_values() {
    assert_eq!(u8::size(), 1);
    assert_eq!(u32::size(), 4);
    assert_eq!(u64::size(), 8);
    assert_eq!(GotEntry::size(), std::mem::size_of::<GotEntry>());
    assert_eq!(PltIdxEntry::size(), std::mem::size_of::<PltIdxEntry>());
    assert_eq!(GotEntry { symbol_addr: 0x0201 }.encode(), vec![1, 2, 0, 0, 0, 0, 0, 0]);
    assert_eq!(GotEntry::decode(&vec![1, 2, 0, 0, 0, 0, 0, 0]).symbol_addr, 0x0201);
}
