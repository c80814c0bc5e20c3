//! Integer helpers: single bits, sign extension, and the `r_info` word of a
//! relocation.
use vstd::arithmetic::div_mod::*;
use vstd::arithmetic::power2::*;
use vstd::bits::*;
use vstd::prelude::*;

verus! {

/// The 32-bit word in which bit `nr` alone is set.
pub fn bit(nr: u32) -> (word: u32)
    requires
        nr < 32,
    ensures
        word == pow2(nr as nat),
{
    proof {
        lemma_u32_pow2_no_overflow(nr as nat);
        lemma_u32_shl_is_mul(1, nr);
    }
    1u32 << nr
}

/// The 64-bit word in which bit `nr` alone is set.
pub fn bit_u64(nr: u32) -> (word: u64)
    requires
        nr < 64,
    ensures
        word == pow2(nr as nat),
{
    proof {
        lemma_u64_pow2_no_overflow(nr as nat);
        lemma_u64_shl_is_mul(1, nr as u64);
    }
    1u64 << nr
}

/// The integer in `-2^(bits-1) .. 2^(bits-1)` that agrees with `value` modulo
/// `2^bits`: the low `bits` bits of `value` read as two's complement.
pub open spec fn signed(value: int, bits: nat) -> int
    recommends
        bits > 0,
{
    let low = value % (pow2(bits) as int);
    if low < pow2((bits - 1) as nat) {
        low
    } else {
        low - pow2(bits)
    }
}

/// Sign extension keeps the value modulo `2^bits` and gives the only such number in
/// range, so that extending again from the same bit changes nothing.
pub proof fn law_signed(value: int, bits: nat)
    requires
        bits > 0,
    ensures
        -pow2((bits - 1) as nat) <= signed(value, bits) < pow2((bits - 1) as nat),
        signed(value, bits) % (pow2(bits) as int) == value % (pow2(bits) as int),
        signed(signed(value, bits), bits) == signed(value, bits),
{
    let m = pow2(bits) as int;
    lemma_pow2_unfold(bits);
    lemma_pow2_pos(bits);
    lemma_mod_bound(value, m);
    let low = value % m;
    lemma_mod_twice(value, m);
    lemma_mod_sub_multiples_vanish(low, m);
}

/// A number in range that agrees with `value` modulo `2^64` is `value` read as two's
/// complement.
pub proof fn lemma_signed64(number: int, value: int, turns: int)
    requires
        i64::MIN <= number <= i64::MAX,
        number == value + turns * 0x1_0000_0000_0000_0000,
    ensures
        signed(value, 64) == number,
{
    lemma2_to64();
    lemma2_to64_rest();
    let m: int = 0x1_0000_0000_0000_0000;
    lemma_mod_multiples_vanish(turns, value, m);
    assert(m * turns + value == number) by (nonlinear_arith)
        requires
            number == value + turns * m,
    ;
    if number >= 0 {
        lemma_small_mod(number as nat, m as nat);
    } else {
        lemma_mod_add_multiples_vanish(number, m);
        lemma_small_mod((number + m) as nat, m as nat);
    }
}

/// Sign extends `value`, taking bit `index` (counted from zero) as the sign bit.
pub fn sign_extend64(value: u64, index: u32) -> (extended: i64)
    requires
        index < 64,
    ensures
        extended == signed(value as int, (index + 1) as nat),
{
    let shift: u32 = 63 - index;
    let extended: i64 = ((value << shift) as i64) >> shift;
    proof {
        let low: u64 = (value << shift) >> shift;
        let sign: u64 = 1u64 << index;
        assert(low & sign == 0 ==> extended == low && low < sign) by (bit_vector)
            requires
                index < 64,
                shift == 63 - index,
                low == (value << shift) >> shift,
                sign == 1u64 << index,
                extended == ((value << shift) as i64) >> shift,
        ;
        assert(low & sign != 0 ==> extended == low - sign - sign && low >= sign) by (bit_vector)
            requires
                index < 64,
                shift == 63 - index,
                low == (value << shift) >> shift,
                sign == 1u64 << index,
                extended == ((value << shift) as i64) >> shift,
        ;
        let bits: nat = (index + 1) as nat;
        lemma_pow2_unfold(bits);
        assert(sign == pow2(index as nat)) by {
            lemma_u64_pow2_no_overflow(index as nat);
            lemma_u64_shl_is_mul(1, index as u64);
        }
        assert(low == value as int % (pow2(bits) as int)) by {
            if index == 63 {
                lemma2_to64_rest();
                assert(low == value) by (bit_vector)
                    requires
                        shift == 0u32,
                        low == (value << shift) >> shift,
                ;
            } else {
                lemma_u64_pow2_no_overflow(bits);
                lemma_u64_low_bits_mask_is_mod(value, bits);
                let mask: u64 = low_bits_mask(bits) as u64;
                assert(low == value & mask) by (bit_vector)
                    requires
                        index < 63,
                        shift == 63 - index,
                        low == (value << shift) >> shift,
                        sign == 1u64 << index,
                        mask == sign + sign - 1,
                ;
            }
        }
    }
    extended
}

/// The relocation type: the low half of the `r_info` word of an ELF64 `Rela`.
pub fn get_rela_type(r_info: u64) -> (rel_type: u32)
    ensures
        rel_type == r_info as int % 0x1_0000_0000,
{
    assert((r_info & 0xffffffff) as u32 == r_info % 0x1_0000_0000) by (bit_vector);
    (r_info & 0xffffffff) as u32
}

/// The symbol index: the high half of the `r_info` word of an ELF64 `Rela`.
pub fn get_rela_sym_idx(r_info: u64) -> (sym_idx: usize)
    ensures
        sym_idx == r_info as int / 0x1_0000_0000,
{
    assert(r_info >> 32 == r_info / 0x1_0000_0000 && r_info >> 32 <= 0xffff_ffff) by (bit_vector);
    (r_info >> 32) as usize
}

} // verus!
