//! Little-endian byte images of integers.
use vstd::arithmetic::div_mod::*;
use vstd::arithmetic::power2::*;
use vstd::prelude::*;

verus! {

/// The `count` lowest base-256 digits of `value`, least significant first.
pub open spec fn le_bytes(value: nat, count: nat) -> Seq<u8>
    decreases count,
{
    if count == 0 {
        Seq::empty()
    } else {
        seq![(value % 256) as u8] + le_bytes(value / 256, (count - 1) as nat)
    }
}

/// The integer whose base-256 digits, least significant first, are `bytes`.
pub open spec fn le_value(bytes: Seq<u8>) -> nat
    decreases bytes.len(),
{
    if bytes.len() == 0 {
        0
    } else {
        bytes[0] as nat + 256 * le_value(bytes.drop_first())
    }
}

/// Whether every byte is zero.
pub open spec fn all_zero(bytes: Seq<u8>) -> bool {
    forall|i: int| 0 <= i < bytes.len() ==> bytes[i] == 0
}

/// `le_bytes` gives as many bytes as it was asked for.
pub proof fn lemma_le_bytes_len(value: nat, count: nat)
    ensures
        le_bytes(value, count).len() == count,
    decreases count,
{
    if count > 0 {
        lemma_le_bytes_len(value / 256, (count - 1) as nat);
    }
}

/// Decoding what was encoded gives the value back, when it fits in the bytes.
pub proof fn lemma_decode_encode(value: nat, count: nat)
    requires
        value < pow2(8 * count),
    ensures
        le_value(le_bytes(value, count)) == value,
    decreases count,
{
    if count == 0 {
        lemma2_to64();
    } else {
        let rest = (count - 1) as nat;
        lemma_pow2_adds(8, 8 * rest);
        lemma2_to64();
        assert(pow2(8 * count) == 256 * pow2(8 * rest));
        lemma_decode_encode(value / 256, rest);
        assert(le_bytes(value, count).drop_first() =~= le_bytes(value / 256, rest));
    }
}

/// Encoding what was decoded gives the bytes back.
pub proof fn lemma_encode_decode(bytes: Seq<u8>)
    ensures
        le_bytes(le_value(bytes), bytes.len()) == bytes,
        le_value(bytes) < pow2(8 * bytes.len()),
    decreases bytes.len(),
{
    lemma2_to64();
    if bytes.len() > 0 {
        let rest = bytes.drop_first();
        lemma_encode_decode(rest);
        lemma_pow2_adds(8, 8 * rest.len());
        assert(pow2(8 * bytes.len()) == 256 * pow2(8 * rest.len()));
        assert(le_value(bytes) % 256 == bytes[0] && le_value(bytes) / 256 == le_value(rest));
        assert(seq![bytes[0]] + rest =~= bytes);
    }
}

/// Only the value modulo `2^(8 * count)` shows in `count` bytes.
pub proof fn lemma_le_bytes_mod(value: nat, count: nat)
    ensures
        le_bytes(value % pow2(8 * count), count) == le_bytes(value, count),
    decreases count,
{
    lemma_pow2_pos(8 * count);
    if count > 0 {
        let rest = (count - 1) as nat;
        lemma_pow2_pos(8 * rest);
        lemma_pow2_adds(8, 8 * rest);
        lemma2_to64();
        let m = pow2(8 * rest) as int;
        assert(pow2(8 * count) == 256 * m);
        lemma_mod_breakdown(value as int, 256, m);
        let low: nat = value % pow2(8 * count);
        assert(low == 256 * ((value as int / 256) % m) + value as int % 256);
        assert(low / 256 == (value / 256) % pow2(8 * rest));
        lemma_le_bytes_mod(value / 256, rest);
    }
}

/// Bytes are all zero exactly when they encode zero.
pub proof fn lemma_all_zero(bytes: Seq<u8>)
    ensures
        all_zero(bytes) <==> le_value(bytes) == 0,
    decreases bytes.len(),
{
    if bytes.len() > 0 {
        let rest = bytes.drop_first();
        lemma_all_zero(rest);
        assert(all_zero(bytes) ==> all_zero(rest));
        if le_value(bytes) == 0 {
            assert forall|i: int| 0 <= i < bytes.len() implies bytes[i] == 0 by {
                if i > 0 {
                    assert(rest[i - 1] == 0);
                }
            }
        }
    }
}

/// The `count` lowest bytes of `value`, least significant first.
pub fn encode_le(value: u64, count: usize) -> (bytes: Vec<u8>)
    ensures
        bytes@ == le_bytes(value as nat, count as nat),
{
    let mut bytes: Vec<u8> = Vec::new();
    let mut rest: u64 = value;
    let mut i: usize = 0;
    while i < count
        invariant
            i <= count,
            bytes@ + le_bytes(rest as nat, (count - i) as nat) == le_bytes(
                value as nat,
                count as nat,
            ),
        decreases count - i,
    {
        let ghost before = bytes@;
        let ghost tail = le_bytes(rest as nat / 256, (count - i - 1) as nat);
        bytes.push((rest % 256) as u8);
        assert(before + (seq![(rest as nat % 256) as u8] + tail) =~= bytes@ + tail);
        rest = rest / 256;
        i = i + 1;
    }
    bytes
}

/// The integer that at most eight little-endian bytes encode.
pub fn decode_le(bytes: &Vec<u8>) -> (value: u64)
    requires
        bytes@.len() <= 8,
    ensures
        value == le_value(bytes@),
{
    let mut value: u64 = 0;
    let mut i: usize = bytes.len();
    assert(bytes@.skip(i as int) =~= Seq::empty());
    while i > 0
        invariant
            i <= bytes@.len() <= 8,
            value == le_value(bytes@.skip(i as int)),
        decreases i,
    {
        i = i - 1;
        proof {
            let tail = bytes@.skip(i as int);
            assert(tail.drop_first() =~= bytes@.skip(i + 1));
            lemma_encode_decode(tail);
            lemma2_to64_rest();
            if tail.len() < 8 {
                lemma_pow2_strictly_increases(8 * tail.len(), 64);
            }
        }
        value = 256 * value + bytes[i] as u64;
    }
    assert(bytes@.skip(0) =~= bytes@);
    value
}

/// Whether every byte is zero.
pub fn is_all_zero(bytes: &Vec<u8>) -> (yes: bool)
    ensures
        yes == all_zero(bytes@),
{
    let mut i: usize = 0;
    while i < bytes.len()
        invariant
            i <= bytes@.len(),
            forall|j: int| 0 <= j < i ==> bytes@[j] == 0,
        decreases bytes@.len() - i,
    {
        if bytes[i] != 0 {
            return false;
        }
        i = i + 1;
    }
    true
}

/// Byte `i` of an image is the digit of the value that counts `256^i`.
pub proof fn law_le_bytes_digit(value: nat, count: nat, i: int)
    requires
        0 <= i < count,
    ensures
        le_bytes(value, count).len() == count,
        le_bytes(value, count)[i] == (value as int / pow2((8 * i) as nat) as int) % 256,
    decreases count,
{
    lemma_le_bytes_len(value, count);
    lemma2_to64();
    let rest = (count - 1) as nat;
    lemma_le_bytes_len(value / 256, rest);
    if i == 0 {
        assert(value as int / 1 == value);
        assert(le_bytes(value, count)[0] == (value % 256) as u8);
    } else {
        law_le_bytes_digit(value / 256, rest, i - 1);
        let low = pow2((8 * (i - 1)) as nat);
        lemma_pow2_pos((8 * (i - 1)) as nat);
        lemma_pow2_adds(8, (8 * (i - 1)) as nat);
        assert(pow2((8 * i) as nat) == 256 * low);
        lemma_div_denominator(value as int, 256, low as int);
        assert(le_bytes(value, count)[i] == le_bytes(value / 256, rest)[i - 1]);
    }
}

/// The number that bytes encode is the sum of the bytes, byte `i` counting `256^i`:
/// taking away the last byte takes away what it counts.
pub proof fn law_le_value_sum(bytes: Seq<u8>)
    ensures
        le_value(Seq::<u8>::empty()) == 0,
        bytes.len() > 0 ==> le_value(bytes) == le_value(bytes.drop_last()) + bytes.last() * pow2(
            (8 * (bytes.len() - 1)) as nat,
        ),
    decreases bytes.len(),
{
    lemma2_to64();
    if bytes.len() == 1 {
        assert(bytes.drop_first() =~= Seq::empty());
        assert(bytes.drop_last() =~= Seq::empty());
        assert(bytes.last() * 1 == bytes[0]);
    } else if bytes.len() > 1 {
        let rest = bytes.drop_first();
        law_le_value_sum(rest);
        assert(rest.drop_last() =~= bytes.drop_last().drop_first());
        let high = pow2((8 * (rest.len() - 1)) as nat);
        lemma_pow2_adds(8, (8 * (rest.len() - 1)) as nat);
        assert(pow2((8 * (bytes.len() - 1)) as nat) == 256 * high);
        let last = rest.last() as nat;
        assert(256 * (last * high) == last * (256 * high)) by (nonlinear_arith);
        assert(le_value(bytes) == bytes[0] as nat + 256 * le_value(rest));
        assert(le_value(bytes.drop_last()) == bytes[0] as nat + 256 * le_value(rest.drop_last()));
    }
}

/// Bytes are all zero exactly when none of them is another number.
pub proof fn law_all_zero(bytes: Seq<u8>)
    ensures
        all_zero(bytes) <==> !exists|i: int| 0 <= i < bytes.len() && #[trigger] bytes[i] != 0,
{
    if !exists|i: int| 0 <= i < bytes.len() && #[trigger] bytes[i] != 0 {
        assert forall|i: int| 0 <= i < bytes.len() implies bytes[i] == 0 by {}
    }
}

} // verus!
