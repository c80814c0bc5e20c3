//! Addresses, and the values that memory holds at them.
use crate::bytes;
use crate::memory;
use crate::memory::Memory;
use vstd::arithmetic::power2::*;
use vstd::prelude::*;

verus! {

/// A value that memory holds as a fixed number of bytes, every combination of
/// which stands for exactly one value.
pub trait Pod: Sized {
    /// The number of bytes that a value takes.
    spec fn width() -> nat;

    /// The bytes of a value, in address order.
    spec fn image(self) -> Seq<u8>;

    /// Every value takes `width` bytes.
    proof fn lemma_image_len(self)
        ensures
            self.image().len() == Self::width(),
    ;

    /// Different values have different bytes.
    proof fn lemma_image_injective(self, other: Self)
        requires
            self.image() == other.image(),
        ensures
            self == other,
    ;

    /// The number of bytes that a value takes.
    fn size() -> (size: usize)
        ensures
            size == Self::width(),
    ;

    /// The bytes of the value, in address order.
    fn encode(&self) -> (image: Vec<u8>)
        ensures
            image@ == self.image(),
    ;

    /// The value that has the given bytes.
    fn decode(image: &Vec<u8>) -> (value: Self)
        requires
            image@.len() == Self::width(),
        ensures
            value.image() == image@,
    ;
}

impl Pod for u8 {
    open spec fn width() -> nat {
        1
    }

    open spec fn image(self) -> Seq<u8> {
        seq![self]
    }

    proof fn lemma_image_len(self) {
    }

    proof fn lemma_image_injective(self, other: u8) {
        assert(self.image()[0] == self && other.image()[0] == other);
    }

    fn size() -> (size: usize) {
        1
    }

    fn encode(&self) -> (image: Vec<u8>) {
        let mut image: Vec<u8> = Vec::new();
        image.push(*self);
        image
    }

    fn decode(image: &Vec<u8>) -> (value: u8) {
        assert(seq![image@[0]] =~= image@);
        image[0]
    }
}

impl Pod for u32 {
    open spec fn width() -> nat {
        4
    }

    open spec fn image(self) -> Seq<u8> {
        bytes::le_bytes(self as nat, 4)
    }

    proof fn lemma_image_len(self) {
        bytes::lemma_le_bytes_len(self as nat, 4);
    }

    proof fn lemma_image_injective(self, other: u32) {
        lemma2_to64();
        bytes::lemma_decode_encode(self as nat, 4);
        bytes::lemma_decode_encode(other as nat, 4);
    }

    fn size() -> (size: usize) {
        4
    }

    fn encode(&self) -> (image: Vec<u8>) {
        bytes::encode_le(*self as u64, 4)
    }

    fn decode(image: &Vec<u8>) -> (value: u32) {
        proof {
            lemma2_to64();
            bytes::lemma_encode_decode(image@);
        }
        bytes::decode_le(image) as u32
    }
}

impl Pod for u64 {
    open spec fn width() -> nat {
        8
    }

    open spec fn image(self) -> Seq<u8> {
        bytes::le_bytes(self as nat, 8)
    }

    proof fn lemma_image_len(self) {
        bytes::lemma_le_bytes_len(self as nat, 8);
    }

    proof fn lemma_image_injective(self, other: u64) {
        lemma2_to64_rest();
        bytes::lemma_decode_encode(self as nat, 8);
        bytes::lemma_decode_encode(other as nat, 8);
    }

    fn size() -> (size: usize) {
        8
    }

    fn encode(&self) -> (image: Vec<u8>) {
        bytes::encode_le(*self, 8)
    }

    fn decode(image: &Vec<u8>) -> (value: u64) {
        proof {
            bytes::lemma_encode_decode(image@);
        }
        bytes::decode_le(image)
    }
}

/// An address in module memory.
#[derive(Debug, Clone, Copy, PartialEq, Eq, Structural)]
pub struct Ptr(pub u64);

impl Ptr {
    /// The address as a number.
    pub fn as_ptr(&self) -> (addr: u64)
        ensures
            addr == self.0,
    {
        self.0
    }

    /// Writes a value to the pointer location.
    pub fn write<T: Pod>(&self, memory: &mut Memory, value: T)
        requires
            memory::mapped(old(memory)@, self.0 as int, T::width() as int),
        ensures
            final(memory)@ == memory::store(old(memory)@, self.0 as int, value.image()),
    {
        proof {
            value.lemma_image_len();
        }
        memory.write_bytes(self.0, &value.encode());
    }

    /// Reads the value at the pointer location.
    pub fn read<T: Pod>(&self, memory: &Memory) -> (value: T)
        requires
            memory::mapped(memory@, self.0 as int, T::width() as int),
        ensures
            value.image() == memory::load(memory@, self.0 as int, T::width()),
    {
        T::decode(&memory.read_bytes(self.0, T::size()))
    }

    /// The address `offset` bytes further on.
    pub fn add(&self, offset: usize) -> (ptr: Ptr)
        requires
            self.0 + offset <= u64::MAX,
        ensures
            ptr.0 == self.0 + offset,
    {
        Ptr(self.0 + offset as u64)
    }

    /// The `len` consecutive values from the pointer location on.
    pub fn as_slice<T: Pod>(&self, memory: &Memory, len: usize) -> (values: Vec<T>)
        requires
            memory::mapped(memory@, self.0 as int, len * T::width()),
        ensures
            values@.len() == len,
            forall|i: int|
                0 <= i < len ==> (#[trigger] values@[i]).image() == memory::load(
                    memory@,
                    self.0 + i * T::width(),
                    T::width(),
                ),
    {
        let mut values: Vec<T> = Vec::new();
        let mut i: usize = 0;
        while i < len
            invariant
                i <= len,
                memory::mapped(memory@, self.0 as int, len * T::width()),
                values@.len() == i,
                forall|j: int|
                    0 <= j < i ==> (#[trigger] values@[j]).image() == memory::load(
                        memory@,
                        self.0 + j * T::width(),
                        T::width(),
                    ),
            decreases len - i,
        {
            let size: usize = T::size();
            proof {
                lemma_slot_mapped(memory, self.0, i as int, len as int, size as int);
            }
            let at: u64 = self.0 + i as u64 * size as u64;
            values.push(Ptr(at).read::<T>(memory));
            i = i + 1;
        }
        values
    }
}

/// Slot `i` of a mapped table of `len` slots is mapped, and has a 64-bit address.
pub proof fn lemma_slot_mapped(memory: &Memory, base: u64, i: int, len: int, width: int)
    requires
        0 <= i < len,
        0 <= width,
        memory::mapped(memory@, base as int, len * width),
    ensures
        memory::mapped(memory@, base + i * width, width),
        0 <= i * width <= u64::MAX,
        base + i * width <= u64::MAX,
{
    assert(0 <= i * width && i * width + width <= len * width) by (nonlinear_arith)
        requires
            0 <= i < len,
            0 <= width,
    ;
    if width > 0 {
        assert(memory@.contains_key(base + i * width));
        memory.lemma_mapped_in_range(base + i * width);
    } else {
        assert(i * width == 0) by (nonlinear_arith)
            requires
                width == 0,
        ;
    }
}

/// Reading a location that was just written gives the value written: it is the
/// only value that has the bytes found there.
pub proof fn law_read_after_write<T: Pod>(memory: Map<int, u8>, at: Ptr, written: T, read: T)
    requires
        memory::mapped(memory, at.0 as int, T::width() as int),
        read.image() == memory::load(
            memory::store(memory, at.0 as int, written.image()),
            at.0 as int,
            T::width(),
        ),
    ensures
        read == written,
{
    written.lemma_image_len();
    memory::law_load_after_store(memory, at.0 as int, written.image());
    read.lemma_image_injective(written);
}

/// Writing a value leaves every byte outside of it as it was, and maps and
/// unmaps nothing.
pub proof fn law_write_frame<T: Pod>(memory: Map<int, u8>, at: Ptr, written: T)
    ensures
        memory::store(memory, at.0 as int, written.image()).dom() == memory.dom(),
        forall|addr: int|
            memory.contains_key(addr) && !(at.0 <= addr < at.0 + T::width())
                ==> #[trigger] memory::store(memory, at.0 as int, written.image())[addr]
                == memory[addr],
{
    written.lemma_image_len();
    memory::law_store_frame(memory, at.0 as int, written.image());
}

/// What is written is the number itself, the lowest byte first, and what is read is
/// the number that stands there.
pub proof fn law_integer_images(memory: Map<int, u8>, at: Ptr, byte: u8, half: u32, word: u64)
    requires
        memory::mapped(memory, at.0 as int, 8),
    ensures
        u8::width() == 1 && u32::width() == 4 && u64::width() == 8,
        memory::store(memory, at.0 as int, byte.image())[at.0 as int] == byte,
        memory::u32_at(memory::store(memory, at.0 as int, half.image()), at.0 as int) == half,
        memory::u64_at(memory::store(memory, at.0 as int, word.image()), at.0 as int) == word,
        byte.image() == memory::load(memory, at.0 as int, 1) <==> byte == memory[at.0 as int],
        half.image() == memory::load(memory, at.0 as int, 4) <==> half == memory::u32_at(
            memory,
            at.0 as int,
        ),
        word.image() == memory::load(memory, at.0 as int, 8) <==> word == memory::u64_at(
            memory,
            at.0 as int,
        ),
{
    let addr = at.0 as int;
    lemma2_to64();
    lemma2_to64_rest();
    assert(memory.contains_key(addr));
    assert(forall|a: int| addr <= a < addr + 4 ==> #[trigger] memory.contains_key(a));
    half.lemma_image_len();
    word.lemma_image_len();
    memory::law_load_after_store(memory, addr, half.image());
    memory::law_load_after_store(memory, addr, word.image());
    memory::law_numbers_at(memory::store(memory, addr, half.image()), addr);
    memory::law_numbers_at(memory::store(memory, addr, word.image()), addr);
    memory::law_numbers_at(memory, addr);
    bytes::lemma_decode_encode(half as nat, 4);
    bytes::lemma_decode_encode(word as nat, 8);
    bytes::lemma_encode_decode(memory::load(memory, addr, 4));
    bytes::lemma_encode_decode(memory::load(memory, addr, 8));
    let one = memory::load(memory, addr, 1);
    assert(byte.image()[0] == byte && one[0] == memory[addr]);
    if byte == memory[addr] {
        assert(byte.image() =~= one);
    }
}

} // verus!
