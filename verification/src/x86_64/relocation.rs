//! What each relocation does to memory.
use crate::bits;
use crate::bytes;
use crate::bytes::is_all_zero;
use crate::common;
use crate::common::{common_module_emit_got_entry, is_table_ready, peek_got_entry, ModSection};
use crate::error::ModuleErr;
use crate::memory;
use crate::memory::Memory;
use crate::object::SectionHeader;
use crate::ptr::{Pod, Ptr};
use crate::x86_64::reloc_type::ArchRelocationType;
use crate::x86_64::ModuleArchSpecific;
use vstd::arithmetic::power2::*;
use vstd::prelude::*;

verus! {

/// What a relocation does to the place that it is for.
pub enum Effect {
    /// It leaves the place alone.
    Nothing,
    /// It cannot be applied.
    Refuse,
    /// It puts the low `width` bytes of `value` there.
    Put { width: usize, value: u64 },
}

/// What a relocation that does not go through the global offset table does, from
/// the place it is for and the address (symbol and addend) it refers to.
pub open spec fn effect(reloc_type: ArchRelocationType, location: u64, target: u64) -> Effect {
    let relative = ((target - location) % 0x1_0000_0000_0000_0000) as u64;
    match reloc_type {
        ArchRelocationType::R_X86_64_NONE => Effect::Nothing,
        ArchRelocationType::R_X86_64_64 => Effect::Put { width: 8, value: target },
        ArchRelocationType::R_X86_64_32 => if target <= u32::MAX {
            Effect::Put { width: 4, value: target }
        } else {
            Effect::Refuse
        },
        ArchRelocationType::R_X86_64_32S => if i32::MIN <= bits::signed(target as int, 64)
            <= i32::MAX {
            Effect::Put { width: 4, value: target }
        } else {
            Effect::Refuse
        },
        ArchRelocationType::R_X86_64_PC32 | ArchRelocationType::R_X86_64_PLT32 => Effect::Put {
            width: 4,
            value: relative,
        },
        ArchRelocationType::R_X86_64_PC64 => Effect::Put { width: 8, value: relative },
        _ => Effect::Refuse,
    }
}

/// The memory after a relocation with the given effect was applied at `location`,
/// and what was answered. Only a place that holds zeros is written.
pub open spec fn relocated(memory: Map<int, u8>, location: u64, effect: Effect) -> (
    Map<int, u8>,
    Result<(), ModuleErr>,
) {
    match effect {
        Effect::Nothing => (memory, Ok(())),
        Effect::Refuse => (memory, Err(ModuleErr::ENOEXEC)),
        Effect::Put { width, value } => if bytes::all_zero(
            memory::load(memory, location as int, width as nat),
        ) {
            (
                memory::store(
                    memory,
                    location as int,
                    bytes::le_bytes(value as nat, width as nat),
                ),
                Ok(()),
            )
        } else {
            (memory, Err(ModuleErr::ENOEXEC))
        },
    }
}

/// Whether the place that an effect reads and writes is mapped.
pub open spec fn place_mapped(memory: Map<int, u8>, location: u64, effect: Effect) -> bool {
    effect matches Effect::Put { width, .. } ==> memory::mapped(
        memory,
        location as int,
        width as int,
    )
}

/// The distance from `location` to `addend` bytes past the entry at `entry`, as a
/// signed 64-bit number.
pub open spec fn displacement(entry: u64, addend: i64, location: u64) -> int {
    bits::signed(entry + addend - location, 64)
}

/// The memory and the global offset table after a relocation that goes through the
/// table at `base` was applied at `location`, and what was answered. The table gets
/// an entry for the symbol; the place gets the distance to it.
pub open spec fn gotpcrel(
    memory: Map<int, u8>,
    got: ModSection,
    base: int,
    location: u64,
    symbol_addr: u64,
    addend: i64,
) -> (Map<int, u8>, ModSection, Result<(), ModuleErr>) {
    let (memory, got, entry) = common::emit_got(memory, got, base, symbol_addr);
    match entry {
        Err(e) => (memory, got, Err(e)),
        Ok(at) => {
            let distance = displacement(at.0, addend, location);
            if i32::MIN <= distance <= i32::MAX && bytes::all_zero(
                memory::load(memory, location as int, 4),
            ) {
                (
                    memory::store(
                        memory,
                        location as int,
                        bytes::le_bytes((distance % 0x1_0000_0000) as nat, 4),
                    ),
                    got,
                    Ok(()),
                )
            } else {
                (memory, got, Err(ModuleErr::ENOEXEC))
            }
        },
    }
}

/// Whether the memory that `gotpcrel` reads and writes is mapped.
pub open spec fn gotpcrel_mapped(
    memory: Map<int, u8>,
    headers: Seq<SectionHeader>,
    got: ModSection,
    location: u64,
    symbol_addr: u64,
    addend: i64,
) -> bool {
    let base = headers[got.shndx as int].sh_addr as int;
    &&& common::table_ready(memory, headers, got)
    &&& common::emit_got(memory, got, base, symbol_addr).2 matches Ok(at) ==> {
        i32::MIN <= displacement(at.0, addend, location) <= i32::MAX ==> memory::mapped(
            memory,
            location as int,
            4,
        )
    }
}

/// Whether all of the `size` bytes at `location` are zero.
fn is_zeroed(memory: &Memory, location: Ptr, size: usize) -> (yes: bool)
    requires
        memory::mapped(memory@, location.0 as int, size as int),
    ensures
        yes == bytes::all_zero(memory::load(memory@, location.0 as int, size as nat)),
{
    let place: Vec<u8> = location.as_slice::<u8>(memory, size);
    proof {
        let found = memory::load(memory@, location.0 as int, size as nat);
        assert forall|i: int| 0 <= i < size implies #[trigger] place@[i] == found[i] by {
            assert(place@[i].image()[0] == place@[i]);
            assert(memory::load(memory@, location.0 + i * 1, 1)[0] == found[i]);
        }
        assert(place@ =~= found);
    }
    is_all_zero(&place)
}

impl ArchRelocationType {
    /// Applies a relocation that goes through the global offset table.
    pub fn apply_r_x86_64_gotpcrel(
        &self,
        module: &mut ModuleArchSpecific,
        sechdrs: &[SectionHeader],
        memory: &mut Memory,
        location: u64,
        symbol_addr: u64,
        addend: i64,
    ) -> (done: Result<(), ModuleErr>)
        requires
            gotpcrel_mapped(
                old(memory)@,
                sechdrs@,
                old(module).got,
                location,
                symbol_addr,
                addend,
            ),
        ensures
            (final(memory)@, final(module).got, done) == gotpcrel(
                old(memory)@,
                old(module).got,
                sechdrs@[old(module).got.shndx as int].sh_addr as int,
                location,
                symbol_addr,
                addend,
            ),
    {
        let location = Ptr(location);
        let got: Ptr = match common_module_emit_got_entry(
            &mut module.got,
            sechdrs,
            memory,
            symbol_addr,
        ) {
            Ok(got) => got,
            Err(e) => {
                return Err(e);
            },
        };
        let value: i64 = got_displacement(got, addend, location.0);
        proof {
            lemma_signed_halves(value);
        }
        if value != value as i32 as i64 {
            return Err(ModuleErr::ENOEXEC);
        }
        if !is_zeroed(memory, location, 4) {
            return Err(ModuleErr::ENOEXEC);
        }
        location.write::<u32>(memory, value as u32);
        Ok(())
    }

    /// Applies a relocation that does not go through the global offset table.
    pub fn apply_relocation(
        &self,
        memory: &mut Memory,
        location: u64,
        target_addr: u64,
    ) -> (done: Result<(), ModuleErr>)
        requires
            place_mapped(old(memory)@, location, effect(*self, location, target_addr)),
        ensures
            (final(memory)@, done) == relocated(
                old(memory)@,
                location,
                effect(*self, location, target_addr),
            ),
    {
        let (size, value): (usize, u64) = match self.resolve(location, target_addr) {
            Effect::Nothing => {
                return Ok(());
            },
            Effect::Refuse => {
                return Err(ModuleErr::ENOEXEC);
            },
            Effect::Put { width, value } => (width, value),
        };
        let location = Ptr(location);
        if !is_zeroed(memory, location, size) {
            return Err(ModuleErr::ENOEXEC);
        }
        if size == 4 {
            proof {
                lemma2_to64();
                bytes::lemma_le_bytes_mod(value as nat, 4);
                assert(value as u32 == value % 0x1_0000_0000) by (bit_vector);
            }
            location.write::<u32>(memory, value as u32);
        } else {
            location.write::<u64>(memory, value);
        }
        Ok(())
    }

    /// What a relocation that does not go through the global offset table does.
    pub fn resolve(&self, location: u64, target_addr: u64) -> (found: Effect)
        ensures
            found == effect(*self, location, target_addr),
    {
        match self {
            ArchRelocationType::R_X86_64_NONE => Effect::Nothing,
            ArchRelocationType::R_X86_64_64 => Effect::Put { width: 8, value: target_addr },
            ArchRelocationType::R_X86_64_32 => {
                assert(target_addr as u32 as u64 == target_addr <==> target_addr <= 0xffff_ffff)
                    by (bit_vector);
                if target_addr != target_addr as u32 as u64 {
                    Effect::Refuse
                } else {
                    Effect::Put { width: 4, value: target_addr }
                }
            },
            ArchRelocationType::R_X86_64_32S => {
                // The value has to be its own low half, sign extended.
                proof {
                    lemma_fits_signed32(target_addr);
                }
                if (target_addr as i64) != ((target_addr as i32) as i64) {
                    Effect::Refuse
                } else {
                    Effect::Put { width: 4, value: target_addr }
                }
            },
            ArchRelocationType::R_X86_64_PC32 | ArchRelocationType::R_X86_64_PLT32 => Effect::Put {
                width: 4,
                value: target_addr.wrapping_sub(location),
            },
            ArchRelocationType::R_X86_64_PC64 => Effect::Put {
                width: 8,
                value: target_addr.wrapping_sub(location),
            },
            _ => Effect::Refuse,
        }
    }

    /// Whether the memory that `apply_r_x86_64_gotpcrel` reads and writes is mapped.
    pub fn is_gotpcrel_mapped(
        &self,
        module: &ModuleArchSpecific,
        sechdrs: &[SectionHeader],
        memory: &Memory,
        location: u64,
        symbol_addr: u64,
        addend: i64,
    ) -> (yes: bool)
        ensures
            yes == gotpcrel_mapped(
                memory@,
                sechdrs@,
                module.got,
                location,
                symbol_addr,
                addend,
            ),
    {
        if !is_table_ready(memory, sechdrs, &module.got) {
            return false;
        }
        match peek_got_entry(&module.got, sechdrs, memory, symbol_addr) {
            Ok(got) => {
                let value: i64 = got_displacement(got, addend, location);
                value < i32::MIN as i64 || value > i32::MAX as i64 || memory.is_mapped(location, 4)
            },
            Err(_) => true,
        }
    }
}

/// The distance from `location` to `addend` bytes past an entry of the global
/// offset table.
fn got_displacement(got: Ptr, addend: i64, location: u64) -> (value: i64)
    ensures
        value == displacement(got.0, addend, location),
{
    let value: i64 = (got.0 as i64).wrapping_add(addend).wrapping_sub(location as i64);
    proof {
        lemma_displacement(got.0, addend, location, value);
    }
    value
}

/// Casting to a signed number of the same width reads the bits as two's complement.
proof fn lemma_as_i64(value: u64)
    ensures
        value as i64 == bits::signed(value as int, 64),
        value as i64 == value || value as i64 == value - 0x1_0000_0000_0000_0000,
{
    assert(value < 0x8000_0000_0000_0000 ==> value as i64 == value) by (bit_vector);
    assert(value >= 0x8000_0000_0000_0000 ==> value as i64 == value - 0x1_0000_0000_0000_0000)
        by (bit_vector);
    if value < 0x8000_0000_0000_0000 {
        bits::lemma_signed64(value as int, value as int, 0);
    } else {
        bits::lemma_signed64(value - 0x1_0000_0000_0000_0000, value as int, -1);
    }
}

proof fn lemma_fits_signed32(value: u64)
    ensures
        value as i64 == value as i32 as i64 <==> i32::MIN <= bits::signed(value as int, 64)
            <= i32::MAX,
{
    lemma_as_i64(value);
    let wide: i64 = value as i64;
    assert(value as i64 == value as i32 as i64 <==> -0x8000_0000 <= wide <= 0x7fff_ffff)
        by (bit_vector)
        requires
            wide == value as i64,
    ;
}

/// The wrapping computation of a displacement gives the displacement.
proof fn lemma_displacement(entry: u64, addend: i64, location: u64, value: i64)
    requires
        value == (entry as i64).wrapping_add(addend).wrapping_sub(location as i64),
    ensures
        value == displacement(entry, addend, location),
{
    lemma_as_i64(entry);
    lemma_as_i64(location);
    let m: int = 0x1_0000_0000_0000_0000;
    let w = entry + addend - location;
    assert(value == w || value == w + m || value == w - m || value == w + 2 * m || value == w - 2
        * m);
    if value == w {
        bits::lemma_signed64(value as int, w, 0);
    } else if value == w + m {
        bits::lemma_signed64(value as int, w, 1);
    } else if value == w - m {
        bits::lemma_signed64(value as int, w, -1);
    } else if value == w + 2 * m {
        bits::lemma_signed64(value as int, w, 2);
    } else {
        bits::lemma_signed64(value as int, w, -2);
    }
}

/// Which numbers fit in a signed half, and what the low half of a number is.
proof fn lemma_signed_halves(value: i64)
    ensures
        value == value as i32 as i64 <==> i32::MIN <= value <= i32::MAX,
        value as u32 == value as int % 0x1_0000_0000,
{
    assert(value == value as i32 as i64 <==> -0x8000_0000 <= value <= 0x7fff_ffff) by (bit_vector);
    assert(value >= 0 ==> value as u32 == value % 0x1_0000_0000) by (bit_vector);
    assert(value < 0 ==> value as u32 as int == (value + 0x1_0000_0000_0000_0000)
        % 0x1_0000_0000) by (bit_vector);
}

/// The number that the `width` bytes at `location` encode.
pub open spec fn field(memory: Map<int, u8>, location: u64, width: nat) -> nat {
    bytes::le_value(memory::load(memory, location as int, width))
}

/// Whether an address lies in the `width` bytes at `location`.
pub open spec fn in_place(addr: int, location: u64, width: int) -> bool {
    location <= addr < location + width
}

/// A relocation that is refused leaves memory as it was.
pub proof fn law_refused_changes_nothing(memory: Map<int, u8>, location: u64, effect: Effect)
    ensures
        relocated(memory, location, effect).1 is Err ==> relocated(memory, location, effect).0
            == memory,
{
}

/// A relocation maps and unmaps nothing, and changes no byte outside of its place.
pub proof fn law_relocated_frame(memory: Map<int, u8>, location: u64, effect: Effect)
    ensures
        relocated(memory, location, effect).0.dom() == memory.dom(),
        forall|a: int|
            memory.contains_key(a) && !(effect matches Effect::Put { width, .. } && in_place(
                a,
                location,
                width as int,
            )) ==> #[trigger] relocated(memory, location, effect).0[a] == memory[a],
{
    assert(relocated(memory, location, effect).0.dom() =~= memory.dom());
    if let Effect::Put { width, value } = effect {
        bytes::lemma_le_bytes_len(value as nat, width as nat);
    }
}

/// The low bytes that a relocation puts encode its value modulo their range.
pub proof fn law_relocated_field(memory: Map<int, u8>, location: u64, width: usize, value: u64)
    requires
        memory::mapped(memory, location as int, width as int),
    ensures
        ({
            let (after, done) = relocated(memory, location, Effect::Put { width, value });
            done is Ok ==> field(after, location, width as nat) == value as nat % pow2(
                (8 * width) as nat,
            )
        }),
{
    let image = bytes::le_bytes(value as nat, width as nat);
    let range = pow2((8 * width) as nat);
    bytes::lemma_le_bytes_len(value as nat, width as nat);
    memory::law_load_after_store(memory, location as int, image);
    lemma_pow2_pos((8 * width) as nat);
    bytes::lemma_le_bytes_mod(value as nat, width as nat);
    vstd::arithmetic::div_mod::lemma_mod_bound(value as int, range as int);
    bytes::lemma_decode_encode(value as nat % range, width as nat);
}

/// Once a relocation has put something other than zeros, none that is as wide can
/// be applied to the same place.
pub proof fn law_relocated_once(
    memory: Map<int, u8>,
    location: u64,
    width: usize,
    value: u64,
    width_again: usize,
    value_again: u64,
)
    requires
        memory::mapped(memory, location as int, width as int),
        relocated(memory, location, Effect::Put { width, value }).1 is Ok,
        value as nat % pow2((8 * width) as nat) != 0,
        width <= width_again,
    ensures
        ({
            let after = relocated(memory, location, Effect::Put { width, value }).0;
            relocated(
                after,
                location,
                Effect::Put { width: width_again, value: value_again },
            ) == (after, Err::<(), ModuleErr>(ModuleErr::ENOEXEC))
        }),
{
    let after = relocated(memory, location, Effect::Put { width, value }).0;
    let narrow = memory::load(after, location as int, width as nat);
    let wide = memory::load(after, location as int, width_again as nat);
    law_relocated_field(memory, location, width, value);
    bytes::lemma_all_zero(narrow);
    let i = choose|i: int| 0 <= i < narrow.len() && narrow[i] != 0;
    assert(wide[i] == narrow[i]);
}

/// A place that was relocated leads to the address that the relocation refers to:
/// directly, by zero or sign extension of its half, or counted from the place
/// itself.
pub proof fn law_relocated_resolves(
    memory: Map<int, u8>,
    reloc_type: ArchRelocationType,
    location: u64,
    target: u64,
)
    requires
        place_mapped(memory, location, effect(reloc_type, location, target)),
        relocated(memory, location, effect(reloc_type, location, target)).1 is Ok,
    ensures
        ({
            let after = relocated(memory, location, effect(reloc_type, location, target)).0;
            let word = field(after, location, 8);
            let half = field(after, location, 4);
            match reloc_type {
                ArchRelocationType::R_X86_64_NONE => after == memory,
                ArchRelocationType::R_X86_64_64 => word == target,
                ArchRelocationType::R_X86_64_32 => half == target,
                ArchRelocationType::R_X86_64_32S => bits::signed(half as int, 32) == bits::signed(
                    target as int,
                    64,
                ),
                ArchRelocationType::R_X86_64_PC32 | ArchRelocationType::R_X86_64_PLT32 => (location
                    + half) % 0x1_0000_0000 == target as int % 0x1_0000_0000,
                ArchRelocationType::R_X86_64_PC64 => (location + word) % 0x1_0000_0000_0000_0000
                    == target,
                _ => false,
            }
        }),
{
    lemma2_to64();
    lemma2_to64_rest();
    if let Effect::Put { width, value } = effect(reloc_type, location, target) {
        law_relocated_field(memory, location, width, value);
        if reloc_type == ArchRelocationType::R_X86_64_32S {
            let number = bits::signed(target as int, 64);
            assert(number == target || number == target - 0x1_0000_0000_0000_0000);
            assert(target as int % 0x1_0000_0000 == number % 0x1_0000_0000);
            lemma_signed32(number, target as int % 0x1_0000_0000);
        } else if width == 4 {
            let after = relocated(memory, location, effect(reloc_type, location, target)).0;
            assert(field(after, location, 4) == value as int % 0x1_0000_0000);
        }
    }
}

/// The half of a number that fits in one is that number, sign extended.
proof fn lemma_signed32(number: int, half: int)
    requires
        i32::MIN <= number <= i32::MAX,
        half == number % 0x1_0000_0000,
    ensures
        bits::signed(half, 32) == number,
{
    lemma2_to64();
}

/// A relocation through the global offset table that is refused changes nothing but
/// for the entry that it may have added to the table: every byte outside of the slot
/// of that entry is as it was, and so is the place, unless it lies in that slot.
pub proof fn law_gotpcrel_refused(
    memory: Map<int, u8>,
    got: ModSection,
    base: int,
    location: u64,
    symbol_addr: u64,
    addend: i64,
)
    ensures
        ({
            let (after, kept, done) = gotpcrel(memory, got, base, location, symbol_addr, addend);
            let (emitted, grown, entry) = common::emit_got(memory, got, base, symbol_addr);
            let slot = base + got.num_entries * 8;
            done is Err ==> {
                &&& after == emitted
                &&& kept == grown
                &&& after.dom() == memory.dom()
                &&& kept.num_entries == got.num_entries ==> after == memory && kept == got
                &&& forall|a: int|
                    memory.contains_key(a) && !(slot <= a < slot + 8) ==> #[trigger] after[a]
                        == memory[a]
                &&& memory::mapped(memory, location as int, 4) && (location + 4 <= slot || slot + 8
                    <= location) ==> memory::load(after, location as int, 4) == memory::load(
                    memory,
                    location as int,
                    4,
                )
            }
        }),
{
    let (after, kept, done) = gotpcrel(memory, got, base, location, symbol_addr, addend);
    let slot = base + got.num_entries * 8;
    if done is Err {
        bytes::lemma_le_bytes_len(symbol_addr as nat, 8);
        assert(after.dom() =~= memory.dom());
        if memory::mapped(memory, location as int, 4) && (location + 4 <= slot || slot + 8
            <= location) {
            let found = memory::load(after, location as int, 4);
            let before = memory::load(memory, location as int, 4);
            assert forall|i: int| 0 <= i < 4 implies found[i] == before[i] by {
                assert(memory.contains_key(location + i));
            }
            assert(found =~= before);
        }
    }
}

/// A relocation through the global offset table of a module at `base` adds at most
/// one entry, moves nothing, and changes no byte outside of the table and its place.
pub proof fn lemma_gotpcrel_frame(
    memory: Map<int, u8>,
    got: ModSection,
    base: int,
    location: u64,
    symbol_addr: u64,
    addend: i64,
)
    ensures
        ({
            let (after, kept, done) = gotpcrel(memory, got, base, location, symbol_addr, addend);
            &&& kept.shndx == got.shndx
            &&& kept.max_entries == got.max_entries
            &&& got.num_entries <= kept.num_entries <= got.num_entries + 1
            &&& got.num_entries <= got.max_entries ==> kept.num_entries <= kept.max_entries
            &&& after.dom() == memory.dom()
            &&& forall|a: int|
                memory.contains_key(a) && !(base <= a < base + got.max_entries * 8) && !in_place(
                    a,
                    location,
                    4,
                ) ==> #[trigger] after[a] == memory[a]
        }),
{
    let (emitted, grown, entry) = common::emit_got(memory, got, base, symbol_addr);
    let (after, kept, done) = gotpcrel(memory, got, base, location, symbol_addr, addend);
    assert(emitted.dom() =~= memory.dom());
    assert(after.dom() =~= memory.dom());
    bytes::lemma_le_bytes_len(symbol_addr as nat, 8);
    if let Ok(at) = entry {
        let distance = displacement(at.0, addend, location);
        bytes::lemma_le_bytes_len((distance % 0x1_0000_0000) as nat, 4);
    }
    assert forall|a: int|
        memory.contains_key(a) && !(base <= a < base + got.max_entries * 8) && !in_place(
            a,
            location,
            4,
        ) implies #[trigger] after[a] == memory[a] by {
        assert(emitted[a] == memory[a]);
        assert(emitted.dom().contains(a));
    }
}

/// Outside of its place, a relocation through the global offset table leaves what
/// asking for the entry leaves.
pub proof fn lemma_gotpcrel_place(
    memory: Map<int, u8>,
    got: ModSection,
    base: int,
    location: u64,
    symbol_addr: u64,
    addend: i64,
    addr: int,
)
    requires
        memory.contains_key(addr),
        !in_place(addr, location, 4),
    ensures
        gotpcrel(memory, got, base, location, symbol_addr, addend).0[addr] == common::emit_got(
            memory,
            got,
            base,
            symbol_addr,
        ).0[addr],
{
    let (emitted, grown, entry) = common::emit_got(memory, got, base, symbol_addr);
    assert(emitted.contains_key(addr));
    if let Ok(at) = entry {
        let distance = displacement(at.0, addend, location);
        bytes::lemma_le_bytes_len((distance % 0x1_0000_0000) as nat, 4);
    }
}

/// A relocation through the global offset table keeps the table ready, maps and
/// unmaps nothing, and changes no byte outside of the table and its place.
pub proof fn law_gotpcrel_frame(
    memory: Map<int, u8>,
    headers: Seq<SectionHeader>,
    got: ModSection,
    location: u64,
    symbol_addr: u64,
    addend: i64,
)
    requires
        common::table_ready(memory, headers, got),
    ensures
        ({
            let base = headers[got.shndx as int].sh_addr as int;
            let (after, kept, done) = gotpcrel(memory, got, base, location, symbol_addr, addend);
            &&& common::table_ready(after, headers, kept)
            &&& kept.shndx == got.shndx
            &&& kept.max_entries == got.max_entries
            &&& got.num_entries <= kept.num_entries <= got.num_entries + 1
            &&& after.dom() == memory.dom()
            &&& forall|a: int|
                memory.contains_key(a) && !(base <= a < base + got.max_entries * 8) && !in_place(
                    a,
                    location,
                    4,
                ) ==> #[trigger] after[a] == memory[a]
        }),
{
    let base = headers[got.shndx as int].sh_addr as int;
    let (after, kept, done) = gotpcrel(memory, got, base, location, symbol_addr, addend);
    lemma_gotpcrel_frame(memory, got, base, location, symbol_addr, addend);
    assert forall|a: int|
        base <= a < base + got.max_entries * 8 implies #[trigger] after.contains_key(a) by {
        assert(memory.contains_key(a));
        assert(after.dom().contains(a));
    }
}

/// A place that was relocated through the global offset table leads, counted from
/// the place itself, to the entry for the symbol, and `addend` bytes on. The entry
/// holds the symbol, unless the place lies in it.
pub proof fn law_gotpcrel_resolves(
    memory: Map<int, u8>,
    headers: Seq<SectionHeader>,
    got: ModSection,
    location: u64,
    symbol_addr: u64,
    addend: i64,
)
    requires
        memory::addressable(memory),
        gotpcrel_mapped(memory, headers, got, location, symbol_addr, addend),
        gotpcrel(
            memory,
            got,
            headers[got.shndx as int].sh_addr as int,
            location,
            symbol_addr,
            addend,
        ).2 is Ok,
    ensures
        ({
            let base = headers[got.shndx as int].sh_addr as int;
            let after = gotpcrel(memory, got, base, location, symbol_addr, addend).0;
            common::emit_got(memory, got, base, symbol_addr).2 matches Ok(at) && {
                &&& (location + bits::signed(field(after, location, 4) as int, 32))
                    % 0x1_0000_0000_0000_0000 == (at.0 + addend) % 0x1_0000_0000_0000_0000
                &&& at.0 + 8 <= location || location + 4 <= at.0 ==> field(after, at.0, 8)
                    == symbol_addr
            }
        }),
{
    let base = headers[got.shndx as int].sh_addr as int;
    let (emitted, grown, entry) = common::emit_got(memory, got, base, symbol_addr);
    let (after, kept, done) = gotpcrel(memory, got, base, location, symbol_addr, addend);
    let at = entry->Ok_0;
    let distance = displacement(at.0, addend, location);
    let half = (distance % 0x1_0000_0000) as nat;
    let image = bytes::le_bytes(half, 4);
    common::law_got_ready(memory, headers, got, symbol_addr);
    bytes::lemma_le_bytes_len(half, 4);
    assert forall|a: int| location <= a < location + 4 implies #[trigger] emitted.contains_key(
        a,
    ) by {
        assert(memory.contains_key(a));
    }
    memory::law_load_after_store(emitted, location as int, image);
    lemma2_to64();
    lemma2_to64_rest();
    bytes::lemma_decode_encode(half, 4);
    lemma_signed32(distance, half as int);
    common::law_got_entry_holds_symbol(memory, headers, got, symbol_addr);
    if at.0 + 8 <= location || location + 4 <= at.0 {
        let kept_entry = memory::load(emitted, at.0 as int, 8);
        let entry_after = memory::load(after, at.0 as int, 8);
        let i = choose|i: int| 0 <= i < grown.num_entries && at.0 == #[trigger] (base + i * 8);
        assert forall|j: int| 0 <= j < 8 implies entry_after[j] == kept_entry[j] by {
            assert(memory.contains_key(base + i * 8 + j));
            assert(memory.dom().contains(at.0 + j));
        }
        assert(entry_after =~= kept_entry);
        bytes::lemma_decode_encode(symbol_addr as nat, 8);
    }
}

/// Whether a number, modulo `2^64`, is one of 32 bits with sign.
pub open spec fn fits_signed_half(number: int) -> bool {
    let word = number % 0x1_0000_0000_0000_0000;
    word < 0x8000_0000 || word >= 0xffff_ffff_8000_0000
}

/// Whether a number, modulo `2^64`, is one of 32 bits without sign.
pub open spec fn fits_half(number: int) -> bool {
    number % 0x1_0000_0000_0000_0000 < 0x1_0000_0000
}

/// A place is zero byte by byte exactly when all that is loaded from it is.
pub proof fn lemma_zeros_at(memory: Map<int, u8>, addr: int, len: nat)
    ensures
        bytes::all_zero(memory::load(memory, addr, len)) <==> memory::zeros_at(
            memory,
            addr,
            len as int,
        ),
{
    let loaded = memory::load(memory, addr, len);
    if bytes::all_zero(loaded) {
        assert forall|a: int| addr <= a < addr + len implies #[trigger] memory[a] == 0 by {
            assert(loaded[a - addr] == 0);
        }
    }
    if memory::zeros_at(memory, addr, len as int) {
        assert forall|i: int| 0 <= i < loaded.len() implies loaded[i] == 0 by {
            assert(memory[addr + i] == 0);
        }
    }
}

/// Putting the low bytes of a value gives a place that holds the value modulo their
/// range, where it held zeros, and is refused elsewhere.
proof fn lemma_put(memory: Map<int, u8>, location: u64, width: usize, value: u64)
    requires
        width == 4 || width == 8,
        memory::mapped(memory, location as int, width as int),
    ensures
        ({
            let (after, done) = relocated(
                memory,
                location,
                Effect::Put { width, value },
            );
            &&& done is Ok <==> memory::zeros_at(memory, location as int, width as int)
            &&& done is Err ==> after == memory
            &&& done is Ok && width == 4 ==> memory::u32_at(after, location as int) == value as int
                % 0x1_0000_0000
            &&& done is Ok && width == 8 ==> memory::u64_at(after, location as int) == value
        }),
{
    lemma2_to64();
    lemma2_to64_rest();
    lemma_zeros_at(memory, location as int, width as nat);
    law_relocated_field(memory, location, width, value);
    let after = relocated(memory, location, Effect::Put { width, value }).0;
    memory::law_numbers_at(after, location as int);
    if width == 4 {
        assert(pow2((8 * width) as nat) == 0x1_0000_0000);
        assert(field(after, location, 4) == memory::u32_at(after, location as int));
    } else {
        assert(pow2((8 * width) as nat) == 0x1_0000_0000_0000_0000);
        assert(field(after, location, 8) == memory::u64_at(after, location as int));
    }
}

/// What a relocation that does not go through the global offset table does, type by
/// type, to the place at `location` for the address `target`. It succeeds, wherever the
/// place is, exactly when its type is supported, the address fits, and the place holds
/// zeros: any address fits in 64 bits and, as a distance from the place, in all types
/// that are relative. A place then leads to the address, and a failure changes nothing.
pub proof fn law_relocation(
    memory: Map<int, u8>,
    reloc_type: ArchRelocationType,
    location: u64,
    target: u64,
)
    requires
        forall|a: int|
            location <= a < location + kind_bytes(reloc_type) ==> #[trigger] memory.contains_key(a),
    ensures
        place_mapped(memory, location, effect(reloc_type, location, target)),
        ({
            let (after, done) = relocated(memory, location, effect(reloc_type, location, target));
            let at = location as int;
            let zeros = memory::zeros_at(memory, at, kind_bytes(reloc_type));
            let m32: int = 0x1_0000_0000;
            let m64: int = 0x1_0000_0000_0000_0000;
            &&& done matches Err(e) ==> e == ModuleErr::ENOEXEC && after == memory
            &&& after.dom() == memory.dom()
            &&& forall|a: int|
                memory.contains_key(a) && !(at <= a < at + kind_bytes(reloc_type))
                    ==> #[trigger] after[a] == memory[a]
            &&& match reloc_type {
                ArchRelocationType::R_X86_64_NONE => done is Ok && after == memory,
                ArchRelocationType::R_X86_64_64 => {
                    &&& done is Ok <==> zeros
                    &&& done is Ok ==> memory::u64_at(after, at) == target
                },
                ArchRelocationType::R_X86_64_32 => {
                    &&& done is Ok <==> zeros && target < m32
                    &&& done is Ok ==> memory::u32_at(after, at) == target
                },
                ArchRelocationType::R_X86_64_32S => {
                    &&& done is Ok <==> zeros && (target < 0x8000_0000 || target
                        >= 0xffff_ffff_8000_0000)
                    &&& done is Ok ==> memory::i32_at(after, at) % m64 == target
                },
                ArchRelocationType::R_X86_64_PC32 | ArchRelocationType::R_X86_64_PLT32 => {
                    &&& done is Ok <==> zeros
                    &&& done is Ok ==> (at + memory::u32_at(after, at)) % m32 == target as int % m32
                },
                ArchRelocationType::R_X86_64_PC64 => {
                    &&& done is Ok <==> zeros
                    &&& done is Ok ==> (at + memory::u64_at(after, at)) % m64 == target
                },
                _ => done is Err,
            }
        }),
{
    let at = location as int;
    let found = effect(reloc_type, location, target);
    law_relocated_frame(memory, location, found);
    lemma_effect(reloc_type, location, target);
    if let Effect::Put { width, value } = found {
        lemma_put(memory, location, width, value);
    }
}

/// How many bytes a relocation that does not go through the global offset table puts.
pub open spec fn kind_bytes(reloc_type: ArchRelocationType) -> int {
    match reloc_type {
        ArchRelocationType::R_X86_64_64 | ArchRelocationType::R_X86_64_PC64 => 8,
        ArchRelocationType::R_X86_64_32 | ArchRelocationType::R_X86_64_32S => 4,
        ArchRelocationType::R_X86_64_PC32 | ArchRelocationType::R_X86_64_PLT32 => 4,
        _ => 0,
    }
}

/// What is put for each type, as arithmetic.
proof fn lemma_effect(reloc_type: ArchRelocationType, location: u64, target: u64)
    ensures
        match effect(reloc_type, location, target) {
            Effect::Nothing => reloc_type == ArchRelocationType::R_X86_64_NONE,
            Effect::Put { width, value } => {
                let m32: int = 0x1_0000_0000;
                let m64: int = 0x1_0000_0000_0000_0000;
                let low = value as int % m32;
                &&& width == kind_bytes(reloc_type)
                &&& match reloc_type {
                    ArchRelocationType::R_X86_64_64 => value == target,
                    ArchRelocationType::R_X86_64_32 => target < m32 && low == target,
                    ArchRelocationType::R_X86_64_32S => {
                        &&& target < 0x8000_0000 || target >= 0xffff_ffff_8000_0000
                        &&& (if low < 0x8000_0000 {
                            low
                        } else {
                            low - m32
                        }) % m64 == target
                    },
                    ArchRelocationType::R_X86_64_PC32 | ArchRelocationType::R_X86_64_PLT32 => (
                    location + low) % m32 == target as int % m32,
                    ArchRelocationType::R_X86_64_PC64 => (location + value) % m64 == target,
                    _ => false,
                }
            },
            Effect::Refuse => match reloc_type {
                ArchRelocationType::R_X86_64_NONE => false,
                ArchRelocationType::R_X86_64_32 => target >= 0x1_0000_0000,
                ArchRelocationType::R_X86_64_32S => 0x8000_0000 <= target < 0xffff_ffff_8000_0000,
                _ => kind_bytes(reloc_type) == 0,
            },
        },
{
    if reloc_type == ArchRelocationType::R_X86_64_32S {
        lemma2_to64();
        lemma2_to64_rest();
        assert(bits::signed(target as int, 64) == if target < 0x8000_0000_0000_0000 {
            target as int
        } else {
            target - 0x1_0000_0000_0000_0000
        });
    }
}

} // verus!
