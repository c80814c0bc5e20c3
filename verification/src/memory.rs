//! The memory that module sections live in, and typed access to it.
use crate::bytes;
use vstd::prelude::*;

verus! {

/// A run of bytes at consecutive addresses, the first of them at `base`.
pub struct Region {
    pub base: u64,
    pub bytes: Vec<u8>,
}

impl Region {
    /// Whether the region holds the byte at `addr`.
    pub open spec fn covers(self, addr: int) -> bool {
        self.base <= addr < self.base + self.bytes@.len() && addr <= u64::MAX
    }
}

/// Memory as a list of regions. Where two regions share an address, the byte
/// there is that of the earlier one.
pub struct Memory {
    pub regions: Vec<Region>,
}

/// The index of the first region that covers `addr`, or `regions.len()`.
pub open spec fn first_cover(regions: Seq<Region>, addr: int) -> int
    decreases regions.len(),
{
    if regions.len() == 0 || regions[0].covers(addr) {
        0
    } else {
        1 + first_cover(regions.drop_first(), addr)
    }
}

impl View for Memory {
    type V = Map<int, u8>;

    /// The byte at each mapped address.
    open spec fn view(&self) -> Map<int, u8> {
        Map::new(
            |addr: int| first_cover(self.regions@, addr) < self.regions@.len(),
            |addr: int|
                {
                    let region = self.regions@[first_cover(self.regions@, addr)];
                    region.bytes@[addr - region.base]
                },
        )
    }
}

/// Whether each of the `len` addresses from `addr` on is mapped.
pub open spec fn mapped(memory: Map<int, u8>, addr: int, len: int) -> bool {
    forall|a: int| addr <= a < addr + len ==> #[trigger] memory.contains_key(a)
}

/// Whether only 64-bit addresses are mapped.
pub open spec fn addressable(memory: Map<int, u8>) -> bool {
    forall|a: int| #[trigger] memory.contains_key(a) ==> 0 <= a <= u64::MAX
}

/// The `len` bytes from `addr` on.
pub open spec fn load(memory: Map<int, u8>, addr: int, len: nat) -> Seq<u8> {
    Seq::new(len, |i: int| memory[addr + i])
}

/// The memory with the bytes from `addr` on replaced by `bytes`, as far as they
/// are mapped.
pub open spec fn store(memory: Map<int, u8>, addr: int, bytes: Seq<u8>) -> Map<int, u8> {
    Map::new(
        |a: int| memory.contains_key(a),
        |a: int|
            if addr <= a < addr + bytes.len() {
                bytes[a - addr]
            } else {
                memory[a]
            },
    )
}

/// What was stored at mapped addresses is what is loaded from them.
pub proof fn law_load_after_store(memory: Map<int, u8>, addr: int, bytes: Seq<u8>)
    requires
        mapped(memory, addr, bytes.len() as int),
    ensures
        load(store(memory, addr, bytes), addr, bytes.len()) == bytes,
{
    let loaded = load(store(memory, addr, bytes), addr, bytes.len());
    assert forall|i: int| 0 <= i < bytes.len() implies loaded[i] == bytes[i] by {
        assert(memory.contains_key(addr + i));
    }
    assert(loaded =~= bytes);
}

/// Storing bytes maps and unmaps nothing, and changes no byte elsewhere.
pub proof fn law_store_frame(memory: Map<int, u8>, addr: int, bytes: Seq<u8>)
    ensures
        store(memory, addr, bytes).dom() == memory.dom(),
        forall|a: int|
            memory.contains_key(a) && !(addr <= a < addr + bytes.len()) ==> #[trigger] store(
                memory,
                addr,
                bytes,
            )[a] == memory[a],
{
    assert(store(memory, addr, bytes).dom() =~= memory.dom());
}

/// A region that is found for an address covers it.
proof fn lemma_first_cover(regions: Seq<Region>, addr: int)
    ensures
        0 <= first_cover(regions, addr) <= regions.len(),
        first_cover(regions, addr) < regions.len() ==> regions[first_cover(
            regions,
            addr,
        )].covers(addr),
    decreases regions.len(),
{
    if regions.len() > 0 {
        lemma_first_cover(regions.drop_first(), addr);
    }
}

/// Which region covers an address depends on where the regions are alone.
proof fn lemma_same_shape(before: Seq<Region>, after: Seq<Region>, addr: int)
    requires
        before.len() == after.len(),
        forall|i: int|
            0 <= i < before.len() ==> before[i].base == (#[trigger] after[i]).base
                && before[i].bytes@.len() == after[i].bytes@.len(),
    ensures
        first_cover(before, addr) == first_cover(after, addr),
    decreases before.len(),
{
    if before.len() > 0 {
        lemma_same_shape(before.drop_first(), after.drop_first(), addr);
    }
}

impl Memory {
    /// A mapped address has 64 bits.
    pub proof fn lemma_mapped_in_range(&self, addr: int)
        requires
            self@.contains_key(addr),
        ensures
            0 <= addr <= u64::MAX,
    {
        lemma_first_cover(self.regions@, addr);
    }

    /// Only 64-bit addresses are mapped.
    pub proof fn law_addressable(&self)
        ensures
            addressable(self@),
    {
        assert forall|a: int| #[trigger] self@.contains_key(a) implies 0 <= a <= u64::MAX by {
            self.lemma_mapped_in_range(a);
        }
    }

    /// The index of the first region that covers `addr`, or the number of regions.
    fn find_region(&self, addr: u64) -> (index: usize)
        ensures
            index == first_cover(self.regions@, addr as int),
    {
        let mut i: usize = 0;
        assert(self.regions@.skip(0) =~= self.regions@);
        while i < self.regions.len()
            invariant
                i <= self.regions@.len(),
                first_cover(self.regions@, addr as int) == i + first_cover(
                    self.regions@.skip(i as int),
                    addr as int,
                ),
            decreases self.regions@.len() - i,
        {
            let region = &self.regions[i];
            if region.base <= addr && addr - region.base < region.bytes.len() as u64 {
                return i;
            }
            assert(self.regions@.skip(i as int).drop_first() =~= self.regions@.skip(i + 1));
            i = i + 1;
        }
        i
    }

    /// Whether each of the `len` addresses from `addr` on is mapped.
    pub fn is_mapped(&self, addr: u64, len: u128) -> (yes: bool)
        ensures
            yes == mapped(self@, addr as int, len as int),
    {
        let mut i: u128 = 0;
        while i < len
            invariant
                i <= len,
                mapped(self@, addr as int, i as int),
            decreases len - i,
        {
            if i > (u64::MAX - addr) as u128 {
                proof {
                    if self@.contains_key(addr + i) {
                        self.lemma_mapped_in_range(addr + i);
                    }
                }
                return false;
            }
            if self.find_region(addr + i as u64) == self.regions.len() {
                assert(!self@.contains_key(addr + i));
                return false;
            }
            proof {
                lemma_first_cover(self.regions@, addr + i);
            }
            i = i + 1;
        }
        true
    }

    /// The `len` bytes from `addr` on.
    pub fn read_bytes(&self, addr: u64, len: usize) -> (out: Vec<u8>)
        requires
            mapped(self@, addr as int, len as int),
        ensures
            out@ == load(self@, addr as int, len as nat),
    {
        let mut out: Vec<u8> = Vec::new();
        let mut i: usize = 0;
        while i < len
            invariant
                i <= len,
                mapped(self@, addr as int, len as int),
                out@ == load(self@, addr as int, i as nat),
            decreases len - i,
        {
            assert(self@.contains_key(addr + i));
            proof {
                lemma_first_cover(self.regions@, addr + i);
            }
            let at: u64 = addr + i as u64;
            let index: usize = self.find_region(at);
            let region = &self.regions[index];
            assert(at - region.base < region.bytes.len());
            out.push(region.bytes[(at - region.base) as usize]);
            assert(out@ =~= load(self@, addr as int, (i + 1) as nat));
            i = i + 1;
        }
        out
    }

    /// Replaces the byte at `addr`.
    fn write_byte(&mut self, addr: u64, byte: u8)
        requires
            old(self)@.contains_key(addr as int),
        ensures
            final(self)@ == store(old(self)@, addr as int, seq![byte]),
    {
        proof {
            lemma_first_cover(self.regions@, addr as int);
        }
        let index: usize = self.find_region(addr);
        assert(addr - self.regions@[index as int].base < self.regions@[index as int].bytes.len());
        let offset: usize = (addr - self.regions[index].base) as usize;
        self.regions[index].bytes[offset] = byte;
        proof {
            let expected = store(old(self)@, addr as int, seq![byte]);
            assert forall|a: int|
                #![trigger self@.dom().contains(a)]
                #![trigger self@[a]]
                self@.dom().contains(a) == expected.dom().contains(a) && (self@.dom().contains(a)
                    ==> self@[a] == expected[a]) by {
                lemma_same_shape(old(self).regions@, self.regions@, a);
                lemma_first_cover(self.regions@, a);
                lemma_first_cover(old(self).regions@, a);
            }
            assert(self@ =~= expected);
        }
    }

    /// Replaces the bytes from `addr` on.
    pub fn write_bytes(&mut self, addr: u64, bytes: &Vec<u8>)
        requires
            mapped(old(self)@, addr as int, bytes@.len() as int),
        ensures
            final(self)@ == store(old(self)@, addr as int, bytes@),
    {
        let mut i: usize = 0;
        assert(self@ =~= store(self@, addr as int, bytes@.take(0)));
        while i < bytes.len()
            invariant
                i <= bytes@.len(),
                mapped(old(self)@, addr as int, bytes@.len() as int),
                self@ == store(old(self)@, addr as int, bytes@.take(i as int)),
            decreases bytes@.len() - i,
        {
            assert(old(self)@.contains_key(addr + i));
            proof {
                old(self).lemma_mapped_in_range(addr + i);
            }
            self.write_byte(addr + i as u64, bytes[i]);
            assert(self@ =~= store(old(self)@, addr as int, bytes@.take(i + 1)));
            i = i + 1;
        }
        assert(bytes@.take(i as int) =~= bytes@);
    }
}

/// An address is mapped exactly when a region reaches it, and holds the byte of the
/// first region in the list that does.
pub proof fn law_view(memory: &Memory, addr: int, k: int)
    requires
        0 <= addr <= u64::MAX,
        0 <= k <= memory.regions@.len(),
        forall|j: int|
            0 <= j < k ==> {
                let region = #[trigger] memory.regions@[j];
                addr < region.base || region.base + region.bytes@.len() <= addr
            },
        k < memory.regions@.len() ==> {
            let region = memory.regions@[k];
            region.base <= addr < region.base + region.bytes@.len()
        },
    ensures
        memory@.contains_key(addr) <==> k < memory.regions@.len(),
        k < memory.regions@.len() ==> memory@[addr] == memory.regions@[k].bytes@[addr
            - memory.regions@[k].base],
{
    lemma_first_cover_at(memory.regions@, addr, k);
}

/// The first region that covers an address is found.
proof fn lemma_first_cover_at(regions: Seq<Region>, addr: int, k: int)
    requires
        0 <= k <= regions.len(),
        forall|j: int| 0 <= j < k ==> !(#[trigger] regions[j]).covers(addr),
        k < regions.len() ==> regions[k].covers(addr),
    ensures
        first_cover(regions, addr) == k,
    decreases regions.len(),
{
    if k > 0 {
        let rest = regions.drop_first();
        assert(!regions[0].covers(addr));
        assert forall|j: int| 0 <= j < k - 1 implies !(#[trigger] rest[j]).covers(addr) by {
            assert(rest[j] == regions[j + 1]);
        }
        lemma_first_cover_at(rest, addr, k - 1);
    }
}

/// A range is mapped exactly when each of its addresses is.
pub proof fn law_mapped(memory: Map<int, u8>, addr: int, len: int)
    ensures
        mapped(memory, addr, len) <==> !exists|i: int|
            0 <= i < len && !#[trigger] memory.contains_key(addr + i),
{
    if !exists|i: int| 0 <= i < len && !#[trigger] memory.contains_key(addr + i) {
        assert forall|a: int| addr <= a < addr + len implies #[trigger] memory.contains_key(a) by {
            assert(memory.contains_key(addr + (a - addr)));
        }
    }
}

/// Byte `i` of what is loaded is the byte at the `i`-th address. Byte `i` of what is
/// stored goes to the `i`-th address, if that is mapped.
pub proof fn law_load_store_bytes(
    memory: Map<int, u8>,
    addr: int,
    len: nat,
    bytes: Seq<u8>,
    i: int,
)
    ensures
        load(memory, addr, len).len() == len,
        0 <= i < len ==> load(memory, addr, len)[i] == memory[addr + i],
        0 <= i < bytes.len() && memory.contains_key(addr + i) ==> store(memory, addr, bytes)[addr
            + i] == bytes[i],
{
}

/// The number in the four bytes at `addr`, the lowest byte first.
pub open spec fn u32_at(memory: Map<int, u8>, addr: int) -> int {
    memory[addr] + 0x100 * memory[addr + 1] + 0x1_0000 * memory[addr + 2] + 0x100_0000
        * memory[addr + 3]
}

/// The number in the eight bytes at `addr`, the lowest byte first.
pub open spec fn u64_at(memory: Map<int, u8>, addr: int) -> int {
    u32_at(memory, addr) + 0x1_0000_0000 * u32_at(memory, addr + 4)
}

/// Loaded bytes encode the number that stands there.
pub proof fn law_numbers_at(memory: Map<int, u8>, addr: int)
    ensures
        bytes::le_value(load(memory, addr, 4)) == u32_at(memory, addr),
        bytes::le_value(load(memory, addr, 8)) == u64_at(memory, addr),
{
    reveal_with_fuel(bytes::le_value, 9);
    let four = load(memory, addr, 4);
    assert(four.drop_first().drop_first().drop_first().drop_first() =~= Seq::empty());
    let eight = load(memory, addr, 8);
    let half = eight.drop_first().drop_first().drop_first().drop_first();
    assert(half.drop_first().drop_first().drop_first().drop_first() =~= Seq::empty());
    assert(half =~= load(memory, addr + 4, 4));
}

/// Whether the `len` bytes at `addr` are all zero.
pub open spec fn zeros_at(memory: Map<int, u8>, addr: int, len: int) -> bool {
    forall|a: int| addr <= a < addr + len ==> #[trigger] memory[a] == 0
}

/// The 32 bits at `addr` as a number with sign.
pub open spec fn i32_at(memory: Map<int, u8>, addr: int) -> int {
    let half = u32_at(memory, addr);
    if half < 0x8000_0000 {
        half
    } else {
        half - 0x1_0000_0000
    }
}


} // verus!
