//! Applying the relocations of a section.
use crate::bits;
use crate::bits::{get_rela_sym_idx, get_rela_type};
use crate::bytes;
use crate::common;
use crate::error::ModuleErr;
use crate::memory;
use crate::memory::Memory;
use crate::object::{ModuleLoadInfo, Rela, SectionHeader, Sym};
use crate::x86_64::reloc_type;
use crate::x86_64::reloc_type::ArchRelocationType;
use crate::x86_64::relocation;
use crate::x86_64::relocation::Effect;
use crate::x86_64::ModuleArchSpecific;
use vstd::arithmetic::div_mod::*;
use vstd::arithmetic::power2::*;
use vstd::prelude::*;

verus! {

/// The address of the place that a relocation is for.
pub open spec fn rela_location(
    headers: Seq<SectionHeader>,
    rel_section: SectionHeader,
    rela: Rela,
) -> int {
    headers[rel_section.sh_info as int].sh_addr + rela.r_offset
}

/// The index of the symbol that a relocation refers to.
pub open spec fn rela_sym(rela: Rela) -> int {
    rela.r_info as int / 0x1_0000_0000
}

/// The type of a relocation, if its number names one.
pub open spec fn rela_type(rela: Rela) -> Option<ArchRelocationType> {
    reloc_type::type_of_code((rela.r_info as int % 0x1_0000_0000) as u32)
}

/// The address that a relocation refers to: symbol and addend.
pub open spec fn rela_target(symbol_addr: u64, rela: Rela) -> u64 {
    ((symbol_addr + rela.r_addend) % 0x1_0000_0000_0000_0000) as u64
}

/// The memory and the tables of the module after one relocation, and what was
/// answered.
pub open spec fn applied(
    memory: Map<int, u8>,
    module: ModuleArchSpecific,
    headers: Seq<SectionHeader>,
    rel_section: SectionHeader,
    syms: Seq<(Sym, String)>,
    rela: Rela,
) -> (Map<int, u8>, ModuleArchSpecific, Result<(), ModuleErr>) {
    let location = rela_location(headers, rel_section, rela) as u64;
    let symbol_addr = syms[rela_sym(rela)].0.st_value;
    match rela_type(rela) {
        None => (memory, module, Err(ModuleErr::ENOEXEC)),
        Some(ArchRelocationType::R_X86_64_GOTPCREL) => {
            let (memory, got, done) = relocation::gotpcrel(
                memory,
                module.got,
                headers[module.got.shndx as int].sh_addr as int,
                location,
                symbol_addr,
                rela.r_addend,
            );
            (memory, ModuleArchSpecific { got }, done)
        },
        Some(other) => {
            let effect = relocation::effect(other, location, rela_target(symbol_addr, rela));
            let (memory, done) = relocation::relocated(memory, location, effect);
            (memory, module, done)
        },
    }
}

/// Whether one relocation can be applied at all: what it refers to is there, and
/// the memory that it reads and writes is mapped.
pub open spec fn applicable(
    memory: Map<int, u8>,
    module: ModuleArchSpecific,
    headers: Seq<SectionHeader>,
    rel_section: SectionHeader,
    syms: Seq<(Sym, String)>,
    rela: Rela,
) -> bool {
    let location = rela_location(headers, rel_section, rela) as u64;
    let symbol_addr = syms[rela_sym(rela)].0.st_value;
    &&& rel_section.sh_info < headers.len()
    &&& rela_location(headers, rel_section, rela) <= u64::MAX
    &&& rela_sym(rela) < syms.len()
    &&& match rela_type(rela) {
        None => true,
        Some(ArchRelocationType::R_X86_64_GOTPCREL) => relocation::gotpcrel_mapped(
            memory,
            headers,
            module.got,
            location,
            symbol_addr,
            rela.r_addend,
        ),
        Some(other) => relocation::place_mapped(
            memory,
            location,
            relocation::effect(other, location, rela_target(symbol_addr, rela)),
        ),
    }
}

/// The memory and the tables of the module after the relocations were applied in
/// order, up to the first that fails, and what was answered.
pub open spec fn all_applied(
    memory: Map<int, u8>,
    module: ModuleArchSpecific,
    headers: Seq<SectionHeader>,
    rel_section: SectionHeader,
    syms: Seq<(Sym, String)>,
    relas: Seq<Rela>,
) -> (Map<int, u8>, ModuleArchSpecific, Result<(), ModuleErr>)
    decreases relas.len(),
{
    if relas.len() == 0 {
        (memory, module, Ok(()))
    } else {
        let (next, after, done) = applied(memory, module, headers, rel_section, syms, relas[0]);
        if done is Err {
            (next, after, done)
        } else {
            all_applied(next, after, headers, rel_section, syms, relas.drop_first())
        }
    }
}

/// Whether the relocations can be applied in order, each to what the ones before
/// it leave, up to the first that fails.
pub open spec fn all_applicable(
    memory: Map<int, u8>,
    module: ModuleArchSpecific,
    headers: Seq<SectionHeader>,
    rel_section: SectionHeader,
    syms: Seq<(Sym, String)>,
    relas: Seq<Rela>,
) -> bool
    decreases relas.len(),
{
    relas.len() > 0 ==> {
        let (next, after, done) = applied(memory, module, headers, rel_section, syms, relas[0]);
        &&& applicable(memory, module, headers, rel_section, syms, relas[0])
        &&& done is Ok ==> all_applicable(
            next,
            after,
            headers,
            rel_section,
            syms,
            relas.drop_first(),
        )
    }
}

/// Applies relocations to the sections of a module.
pub struct ArchRelocate;

impl ArchRelocate {
    /// Applies one relocation.
    pub fn apply_rela(
        rela: &Rela,
        rel_section: &SectionHeader,
        sechdrs: &[SectionHeader],
        load_info: &ModuleLoadInfo,
        module: &mut ModuleArchSpecific,
        memory: &mut Memory,
    ) -> (done: Result<(), ModuleErr>)
        requires
            applicable(
                old(memory)@,
                *old(module),
                sechdrs@,
                *rel_section,
                load_info.syms@,
                *rela,
            ),
        ensures
            (final(memory)@, *final(module), done) == applied(
                old(memory)@,
                *old(module),
                sechdrs@,
                *rel_section,
                load_info.syms@,
                *rela,
            ),
    {
        let rel_type: u32 = get_rela_type(rela.r_info);
        let sym_idx: usize = get_rela_sym_idx(rela.r_info);
        // This is where to make the change
        let location: u64 = sechdrs[rel_section.sh_info as usize].sh_addr + rela.r_offset;
        let sym: Sym = load_info.syms[sym_idx].0;
        let reloc_type: ArchRelocationType = match ArchRelocationType::try_from(rel_type) {
            Ok(reloc_type) => reloc_type,
            Err(_) => {
                return Err(ModuleErr::ENOEXEC);
            },
        };
        proof {
            lemma_addend(rela.r_addend);
        }
        let target_addr: u64 = sym.st_value.wrapping_add(rela.r_addend as u64);
        match reloc_type {
            ArchRelocationType::R_X86_64_GOTPCREL => reloc_type.apply_r_x86_64_gotpcrel(
                module,
                sechdrs,
                memory,
                location,
                sym.st_value,
                rela.r_addend,
            ),
            _ => reloc_type.apply_relocation(memory, location, target_addr),
        }
    }

    /// Whether one relocation can be applied at all.
    pub fn is_applicable(
        rela: &Rela,
        rel_section: &SectionHeader,
        sechdrs: &[SectionHeader],
        load_info: &ModuleLoadInfo,
        module: &ModuleArchSpecific,
        memory: &Memory,
    ) -> (yes: bool)
        ensures
            yes == applicable(
                memory@,
                *module,
                sechdrs@,
                *rel_section,
                load_info.syms@,
                *rela,
            ),
    {
        let sym_idx: usize = get_rela_sym_idx(rela.r_info);
        let section: usize = rel_section.sh_info as usize;
        if section >= sechdrs.len() || sym_idx >= load_info.syms.len() {
            return false;
        }
        if rela.r_offset > u64::MAX - sechdrs[section].sh_addr {
            return false;
        }
        let location: u64 = sechdrs[section].sh_addr + rela.r_offset;
        let sym: Sym = load_info.syms[sym_idx].0;
        let reloc_type: ArchRelocationType = match ArchRelocationType::try_from(
            get_rela_type(rela.r_info),
        ) {
            Ok(reloc_type) => reloc_type,
            Err(_) => {
                return true;
            },
        };
        match reloc_type {
            ArchRelocationType::R_X86_64_GOTPCREL => reloc_type.is_gotpcrel_mapped(
                module,
                sechdrs,
                memory,
                location,
                sym.st_value,
                rela.r_addend,
            ),
            _ => {
                proof {
                    lemma_addend(rela.r_addend);
                }
                let target_addr: u64 = sym.st_value.wrapping_add(rela.r_addend as u64);
                match reloc_type.resolve(location, target_addr) {
                    Effect::Put { width, .. } => memory.is_mapped(location, width as u128),
                    _ => true,
                }
            },
        }
    }

    /// Applies relocations in order, up to the first that fails.
    /// See <https://elixir.bootlin.com/linux/v6.6/source/arch/x86/kernel/module.c#L252>
    pub fn apply_relocate_add(
        rela_list: &[Rela],
        rel_section: &SectionHeader,
        sechdrs: &[SectionHeader],
        load_info: &ModuleLoadInfo,
        module: &mut ModuleArchSpecific,
        memory: &mut Memory,
    ) -> (done: Result<(), ModuleErr>)
        requires
            all_applicable(
                old(memory)@,
                *old(module),
                sechdrs@,
                *rel_section,
                load_info.syms@,
                rela_list@,
            ),
        ensures
            (final(memory)@, *final(module), done) == all_applied(
                old(memory)@,
                *old(module),
                sechdrs@,
                *rel_section,
                load_info.syms@,
                rela_list@,
            ),
    {
        let mut i: usize = 0;
        assert(rela_list@.skip(0) =~= rela_list@);
        while i < rela_list.len()
            invariant
                i <= rela_list@.len(),
                all_applicable(
                    memory@,
                    *module,
                    sechdrs@,
                    *rel_section,
                    load_info.syms@,
                    rela_list@.skip(i as int),
                ),
                all_applied(
                    memory@,
                    *module,
                    sechdrs@,
                    *rel_section,
                    load_info.syms@,
                    rela_list@.skip(i as int),
                ) == all_applied(
                    old(memory)@,
                    *old(module),
                    sechdrs@,
                    *rel_section,
                    load_info.syms@,
                    rela_list@,
                ),
            decreases rela_list@.len() - i,
        {
            assert(rela_list@.skip(i as int)[0] == rela_list@[i as int]);
            assert(rela_list@.skip(i as int).drop_first() =~= rela_list@.skip(i + 1));
            match Self::apply_rela(
                &rela_list[i],
                rel_section,
                sechdrs,
                load_info,
                module,
                memory,
            ) {
                Ok(()) => {},
                Err(e) => {
                    return Err(e);
                },
            }
            i = i + 1;
        }
        Ok(())
    }
}

/// An addend as an unsigned number is the addend modulo `2^64`.
proof fn lemma_addend(addend: i64)
    ensures
        addend as u64 == if addend >= 0 {
            addend as int
        } else {
            addend + 0x1_0000_0000_0000_0000
        },
{
    assert(addend >= 0 ==> addend as u64 == addend) by (bit_vector);
    assert(addend < 0 ==> addend as u64 == addend + 0x1_0000_0000_0000_0000) by (bit_vector);
}

/// How many bytes a relocation puts at its place, by the number of its type.
pub open spec fn put_bytes(rela: Rela) -> int {
    let code = rela.r_info as int % 0x1_0000_0000;
    if code == 1 || code == 24 {
        8
    } else if code == 2 || code == 4 || code == 9 || code == 10 || code == 11 {
        4
    } else {
        0
    }
}

/// A list of one relocation is that relocation.
proof fn lemma_single(
    memory: Map<int, u8>,
    module: ModuleArchSpecific,
    headers: Seq<SectionHeader>,
    rel_section: SectionHeader,
    syms: Seq<(Sym, String)>,
    rela: Rela,
)
    ensures
        all_applied(memory, module, headers, rel_section, syms, seq![rela]) == applied(
            memory,
            module,
            headers,
            rel_section,
            syms,
            rela,
        ),
        all_applicable(memory, module, headers, rel_section, syms, seq![rela]) == applicable(
            memory,
            module,
            headers,
            rel_section,
            syms,
            rela,
        ),
{
    let one = seq![rela];
    assert(one[0] == rela);
    assert(one.drop_first() =~= Seq::empty());
    reveal_with_fuel(all_applied, 2);
    reveal_with_fuel(all_applicable, 2);
}

/// A number modulo `2^64` is the number modulo `2^32`, too.
proof fn lemma_target(number: int)
    ensures
        (number % 0x1_0000_0000_0000_0000) % 0x1_0000_0000 == number % 0x1_0000_0000,
{
    lemma_mod_mod(number, 0x1_0000_0000, 0x1_0000_0000);
}

/// What one relocation that does not go through the global offset table does, from
/// the numbers in it: `location` is where its section is loaded plus its offset, and
/// what it refers to is the value of its symbol plus its addend, modulo `2^64`.
///
/// It succeeds exactly when its type is supported, what it refers to fits, and the
/// place holds zeros; nothing else is asked, of the location or of anything. After a
/// success the place leads to what it refers to. In any case nothing else changes, and
/// a failure changes nothing at all.
pub proof fn law_direct_relocation(
    memory: Map<int, u8>,
    module: ModuleArchSpecific,
    headers: Seq<SectionHeader>,
    rel_section: SectionHeader,
    syms: Seq<(Sym, String)>,
    rela: Rela,
)
    requires
        rel_section.sh_info < headers.len(),
        rela.r_info as int / 0x1_0000_0000 < syms.len(),
        headers[rel_section.sh_info as int].sh_addr + rela.r_offset <= u64::MAX,
        rela.r_info as int % 0x1_0000_0000 != 9,
        forall|a: int|
            headers[rel_section.sh_info as int].sh_addr + rela.r_offset <= a
                < headers[rel_section.sh_info as int].sh_addr + rela.r_offset + put_bytes(rela)
                ==> #[trigger] memory.contains_key(a),
    ensures
        all_applicable(memory, module, headers, rel_section, syms, seq![rela]),
        ({
            let code = rela.r_info as int % 0x1_0000_0000;
            let location = headers[rel_section.sh_info as int].sh_addr + rela.r_offset;
            let target = syms[rela.r_info as int / 0x1_0000_0000].0.st_value + rela.r_addend;
            let (after, kept, done) = all_applied(
                memory,
                module,
                headers,
                rel_section,
                syms,
                seq![rela],
            );
            let m32: int = 0x1_0000_0000;
            let m64: int = 0x1_0000_0000_0000_0000;
            &&& kept == module
            &&& done matches Err(e) ==> e == ModuleErr::ENOEXEC && after == memory
            &&& after.dom() == memory.dom()
            &&& forall|a: int|
                memory.contains_key(a) && !(location <= a < location + put_bytes(rela))
                    ==> #[trigger] after[a] == memory[a]
            &&& done is Ok <==> {
                ||| code == 0
                ||| (code == 1 || code == 24) && memory::zeros_at(memory, location, 8)
                ||| (code == 2 || code == 4) && memory::zeros_at(memory, location, 4)
                ||| code == 10 && relocation::fits_half(target) && memory::zeros_at(
                    memory,
                    location,
                    4,
                )
                ||| code == 11 && relocation::fits_signed_half(target) && memory::zeros_at(
                    memory,
                    location,
                    4,
                )
            }
            &&& done is Ok && code == 1 ==> memory::u64_at(after, location) == target % m64
            &&& done is Ok && code == 10 ==> memory::u32_at(after, location) == target % m64
            &&& done is Ok && code == 11 ==> memory::i32_at(after, location) % m64 == target % m64
            &&& done is Ok && (code == 2 || code == 4) ==> (location + memory::u32_at(
                after,
                location,
            )) % m32 == target % m32
            &&& done is Ok && code == 24 ==> (location + memory::u64_at(after, location)) % m64
                == target % m64
        }),
{
    let location = (headers[rel_section.sh_info as int].sh_addr + rela.r_offset) as u64;
    let symbol_addr = syms[rela.r_info as int / 0x1_0000_0000].0.st_value;
    let code = rela.r_info as int % 0x1_0000_0000;
    lemma_single(memory, module, headers, rel_section, syms, rela);
    reloc_type::law_type_numbers(code as u32);
    if code <= 15 || code == 24 {
        let effect = relocation::effect(
            reloc_type::type_of_code(code as u32)->0,
            location,
            rela_target(symbol_addr, rela),
        );
        relocation::law_relocated_frame(memory, location, effect);
        relocation::law_relocation(
            memory,
            reloc_type::type_of_code(code as u32)->0,
            location,
            rela_target(symbol_addr, rela),
        );
        lemma_target(symbol_addr + rela.r_addend);
    }
}

/// The place of a relocation through the global offset table, as arithmetic.
proof fn lemma_got_place(mid: Map<int, u8>, entry: u64, addend: i64, location: u64)
    requires
        memory::mapped(mid, location as int, 4),
    ensures
        ({
            let distance = relocation::displacement(entry, addend, location);
            let put = memory::store(
                mid,
                location as int,
                bytes::le_bytes((distance % 0x1_0000_0000) as nat, 4),
            );
            let m64: int = 0x1_0000_0000_0000_0000;
            &&& i32::MIN <= distance <= i32::MAX <==> relocation::fits_signed_half(
                entry + addend - location,
            )
            &&& i32::MIN <= distance <= i32::MAX ==> (location + memory::i32_at(
                put,
                location as int,
            )) % m64 == (entry + addend) % m64
        }),
{
    let distance = relocation::displacement(entry, addend, location);
    let half = (distance % 0x1_0000_0000) as nat;
    let image = bytes::le_bytes(half, 4);
    let put = memory::store(mid, location as int, image);
    lemma2_to64();
    lemma2_to64_rest();
    bytes::lemma_le_bytes_len(half, 4);
    memory::law_load_after_store(mid, location as int, image);
    memory::law_numbers_at(put, location as int);
    bytes::lemma_decode_encode(half, 4);
    assert(memory::u32_at(put, location as int) == half);
}

/// What one relocation through the global offset table does, from the numbers in it,
/// after the table was asked for the value of its symbol and left `mid`. It fails when
/// the table has no entry for it. Otherwise it succeeds exactly when the distance from
/// its location to its addend past the entry fits in 32 bits with sign, and the place
/// holds zeros. The place then leads from its location to there, and nothing else than
/// the place changes.
pub proof fn law_got_relocation(
    memory: Map<int, u8>,
    module: ModuleArchSpecific,
    headers: Seq<SectionHeader>,
    rel_section: SectionHeader,
    syms: Seq<(Sym, String)>,
    rela: Rela,
)
    requires
        rel_section.sh_info < headers.len(),
        rela.r_info as int / 0x1_0000_0000 < syms.len(),
        headers[rel_section.sh_info as int].sh_addr + rela.r_offset <= u64::MAX,
        rela.r_info as int % 0x1_0000_0000 == 9,
        module.got.shndx < headers.len(),
        module.got.num_entries <= module.got.max_entries,
        forall|a: int|
            headers[rel_section.sh_info as int].sh_addr + rela.r_offset <= a
                < headers[rel_section.sh_info as int].sh_addr + rela.r_offset + 4
                ==> #[trigger] memory.contains_key(a),
        forall|a: int|
            headers[module.got.shndx as int].sh_addr <= a
                < headers[module.got.shndx as int].sh_addr + module.got.max_entries * 8
                ==> #[trigger] memory.contains_key(a),
    ensures
        all_applicable(memory, module, headers, rel_section, syms, seq![rela]),
        ({
            let location = headers[rel_section.sh_info as int].sh_addr + rela.r_offset;
            let (mid, grown, entry) = common::emit_got(
                memory,
                module.got,
                headers[module.got.shndx as int].sh_addr as int,
                syms[rela.r_info as int / 0x1_0000_0000].0.st_value,
            );
            let (after, kept, done) = all_applied(
                memory,
                module,
                headers,
                rel_section,
                syms,
                seq![rela],
            );
            let m64: int = 0x1_0000_0000_0000_0000;
            &&& kept.got == grown
            &&& done matches Err(e) ==> e == ModuleErr::ENOEXEC && after == mid
            &&& entry is Err ==> done is Err
            &&& entry matches Ok(at) ==> {
                &&& done is Ok <==> relocation::fits_signed_half(at.0 + rela.r_addend - location)
                    && memory::zeros_at(mid, location, 4)
                &&& done is Ok ==> (location + memory::i32_at(after, location)) % m64 == (at.0
                    + rela.r_addend) % m64
            }
            &&& after.dom() == memory.dom()
            &&& forall|a: int|
                memory.contains_key(a) && !(location <= a < location + 4) ==> #[trigger] after[a]
                    == mid[a]
        }),
{
    let location = (headers[rel_section.sh_info as int].sh_addr + rela.r_offset) as u64;
    let symbol_addr = syms[rela.r_info as int / 0x1_0000_0000].0.st_value;
    let base = headers[module.got.shndx as int].sh_addr as int;
    lemma_single(memory, module, headers, rel_section, syms, rela);
    reloc_type::law_type_numbers(9);
    let (mid, grown, entry) = common::emit_got(memory, module.got, base, symbol_addr);
    let (after, kept, done) = applied(memory, module, headers, rel_section, syms, rela);
    common::law_got_ready(memory, headers, module.got, symbol_addr);
    relocation::lemma_zeros_at(mid, location as int, 4);
    assert forall|a: int| location <= a < location + 4 implies #[trigger] mid.contains_key(a) by {
        assert(memory.contains_key(a));
        assert(mid.dom().contains(a));
    }
    relocation::lemma_gotpcrel_frame(
        memory,
        module.got,
        base,
        location,
        symbol_addr,
        rela.r_addend,
    );
    assert forall|a: int|
        memory.contains_key(a) && !(location <= a < location + 4) implies #[trigger] after[a]
        == mid[a] by {
        relocation::lemma_gotpcrel_place(
            memory,
            module.got,
            base,
            location,
            symbol_addr,
            rela.r_addend,
            a,
        );
    }
    if let Ok(at) = entry {
        lemma_got_place(mid, at.0, rela.r_addend, location);
    }
}

/// A list of relocations without any is applied, and does nothing. Two lists one after
/// the other can be applied as one exactly when the first can, and, if it succeeds, the
/// second can be applied to what it leaves.
pub proof fn law_applicable_in_turn(
    memory: Map<int, u8>,
    module: ModuleArchSpecific,
    headers: Seq<SectionHeader>,
    rel_section: SectionHeader,
    syms: Seq<(Sym, String)>,
    first: Seq<Rela>,
    second: Seq<Rela>,
)
    ensures
        all_applied(memory, module, headers, rel_section, syms, Seq::empty()) == (
            memory,
            module,
            Ok::<(), ModuleErr>(()),
        ),
        all_applicable(memory, module, headers, rel_section, syms, Seq::empty()),
        all_applicable(memory, module, headers, rel_section, syms, first + second) <==> {
            let (mid, kept, done) = all_applied(memory, module, headers, rel_section, syms, first);
            &&& all_applicable(memory, module, headers, rel_section, syms, first)
            &&& done is Ok ==> all_applicable(mid, kept, headers, rel_section, syms, second)
        },
    decreases first.len(),
{
    if first.len() == 0 {
        assert(first + second =~= second);
    } else {
        let (next, after, done) = applied(memory, module, headers, rel_section, syms, first[0]);
        assert((first + second).drop_first() =~= first.drop_first() + second);
        assert((first + second)[0] == first[0]);
        law_applicable_in_turn(
            next,
            after,
            headers,
            rel_section,
            syms,
            first.drop_first(),
            second,
        );
    }
}

/// When one relocation can be applied at all, from the numbers in it. What it refers
/// to has to be there, and its place has to be mapped where it gets as far as looking
/// at it. One through the global offset table needs that table too.
pub proof fn law_applicable(
    memory: Map<int, u8>,
    module: ModuleArchSpecific,
    headers: Seq<SectionHeader>,
    rel_section: SectionHeader,
    syms: Seq<(Sym, String)>,
    rela: Rela,
)
    ensures
        applicable(memory, module, headers, rel_section, syms, rela) <==> {
            let code = rela.r_info as int % 0x1_0000_0000;
            let location = headers[rel_section.sh_info as int].sh_addr + rela.r_offset;
            let symbol_addr = syms[rela.r_info as int / 0x1_0000_0000].0.st_value;
            let target = symbol_addr + rela.r_addend;
            let looks = {
                ||| code == 1 || code == 24 || code == 2 || code == 4
                ||| code == 10 && relocation::fits_half(target)
                ||| code == 11 && relocation::fits_signed_half(target)
                ||| code == 9 && (common::emit_got(
                    memory,
                    module.got,
                    headers[module.got.shndx as int].sh_addr as int,
                    symbol_addr,
                ).2 matches Ok(at) && relocation::fits_signed_half(at.0 + rela.r_addend - location))
            };
            &&& rel_section.sh_info < headers.len()
            &&& location <= u64::MAX
            &&& rela.r_info as int / 0x1_0000_0000 < syms.len()
            &&& code == 9 ==> common::table_ready(memory, headers, module.got)
            &&& looks ==> !exists|i: int|
                0 <= i < put_bytes(rela) && !#[trigger] memory.contains_key(location + i)
        },
{
    let code = rela.r_info as int % 0x1_0000_0000;
    let location = headers[rel_section.sh_info as int].sh_addr + rela.r_offset;
    let symbol_addr = syms[rela.r_info as int / 0x1_0000_0000].0.st_value;
    reloc_type::law_type_numbers(code as u32);
    lemma2_to64();
    lemma2_to64_rest();
    memory::law_mapped(memory, location, put_bytes(rela));
    bits::law_signed(rela_target(symbol_addr, rela) as int, 64);
    if let Ok(at) = common::emit_got(
        memory,
        module.got,
        headers[module.got.shndx as int].sh_addr as int,
        symbol_addr,
    ).2 {
        bits::law_signed(at.0 + rela.r_addend - location, 64);
    }
}

} // verus!
