//! Bits, sign extension, byte images and the `r_info` word.
use kmod_arch::bits::{bit, bit_u64, get_rela_sym_idx, get_rela_type, sign_extend64};
use kmod_arch::bytes::{decode_le, encode_le, is_all_zero};

#[test]
fn sign_extension_of_a_byte() {
    assert_eq!(sign_extend64(0x7f, 7), 127);
    assert_eq!(sign_extend64(0x80, 7), -128);
    assert_eq!(sign_extend64(0xff, 7), -1);
    assert_eq!(sign_extend64(0x1234, 7), 0x34);
    assert_eq!(sign_extend64(0xab_cdef, 11), -0x211);
}

#[test]
fn sign_extension_at_the_ends() {
    assert_eq!(sign_extend64(0, 0), 0);
    assert_eq!(sign_extend64(1, 0), -1);
    assert_eq!(sign_extend64(2, 0), 0);
    assert_eq!(sign_extend64(u64::MAX, 63), -1);
    assert_eq!(sign_extend64(1u64 << 63, 63), i64::MIN);
    assert_eq!(sign_extend64(i64::MAX as u64, 63), i64::MAX);
    assert_eq!(sign_extend64(1u64 << 62, 62), -(1i64 << 62));
    assert_eq!(sign_extend64(0xffff_ffff, 31), -1);
}

#[test]
fn sign_extension_is_idempotent_and_in_range() {
    for index in 0u32..64 {
        for value in [0u64, 1, 0x80, 0x1234_5678_9abc_def0, u64::MAX, 1u64 << index] {
            let once = sign_extend64(value, index);
            assert_eq!(sign_extend64(once as u64, index), once);
            let half = 1i128 << index;
            assert!(-half <= once as i128 && (once as i128) < half);
            assert_eq!((value as i128 - once as i128) % (2 * half), 0);
        }
    }
}

#[test]
fn single_bits() {
    assert_eq!(bit(0), 1);
    assert_eq!(bit(5), 32);
    assert_eq!(bit(31), 0x8000_0000);
    assert_eq!(bit_u64(0), 1);
    assert_eq!(bit_u64(32), 0x1_0000_0000);
    assert_eq!(bit_u64(63), 0x8000_0000_0000_0000);
}

#[test]
fn halves_of_r_info() {
    let r_info: u64 = 0x0000_0012_0000_0009;
    assert_eq!(get_rela_type(r_info), 9);
    assert_eq!(get_rela_sym_idx(r_info), 0x12);
    assert_eq!(get_rela_type(u64::MAX), u32::MAX);
    assert_eq!(get_rela_sym_idx(u64::MAX), 0xffff_ffff);
    assert_eq!(get_rela_sym_idx(0xffff_ffff), 0);
}

#[test]
fn little_endian_images() {
    assert_eq!(encode_le(0x1122_3344_5566_7788, 4), vec![0x88, 0x77, 0x66, 0x55]);
    assert_eq!(
        encode_le(0x1122_3344_5566_7788, 8),
        vec![0x88, 0x77, 0x66, 0x55, 0x44, 0x33, 0x22, 0x11]
    );
    assert_eq!(encode_le(7, 0), Vec::<u8>::new());
    assert_eq!(encode_le(7, 10), vec![7, 0, 0, 0, 0, 0, 0, 0, 0, 0]);
    assert_eq!(decode_le(&vec![0x88, 0x77]), 0x7788);
    assert_eq!(decode_le(&vec![]), 0);
    assert_eq!(decode_le(&vec![0xff; 8]), u64::MAX);
    for value in [0u64, 1, 255, 256, 0xdead_beef, u64::MAX] {
        assert_eq!(decode_le(&encode_le(value, 8)), value);
    }
}

#[test]
fn zero_bytes() {
    assert!(is_all_zero(&vec![]));
    assert!(is_all_zero(&vec![0, 0, 0]));
    assert!(!is_all_zero(&vec![0, 0, 1]));
    assert!(!is_all_zero(&vec![9, 0, 0]));
}
