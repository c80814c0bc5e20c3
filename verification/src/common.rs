//! What the architectures share: the global offset table and the procedure
//! linkage table of a module.
use crate::bytes;
use crate::error::ModuleErr;
use crate::memory;
use crate::memory::Memory;
use crate::object;
use crate::object::{read_relocs, Reloc, SectionHeader};
use crate::ptr;
use crate::ptr::{Pod, Ptr};
use crate::search;
use goblin::elf::RelocSection;
use vstd::arithmetic::power2::*;
use vstd::prelude::*;

verus! {

/// A section that holds a table which is filled while the module is loaded.
#[derive(Debug, Clone, Copy, PartialEq, Eq, Structural)]
pub struct ModSection {
    /// The index of the section's header.
    pub shndx: usize,
    /// How many slots are in use.
    pub num_entries: usize,
    /// How many slots there are.
    pub max_entries: usize,
}

impl Default for ModSection {
    fn default() -> (section: ModSection)
        ensures
            section == (ModSection { shndx: 0, num_entries: 0, max_entries: 0 }),
    {
        ModSection { shndx: 0, num_entries: 0, max_entries: 0 }
    }
}

/// An entry of the global offset table: the address of a symbol.
#[derive(Debug, Clone, Copy, PartialEq, Eq, Structural)]
pub struct GotEntry {
    pub symbol_addr: u64,
}

/// An entry of the table that says which symbol a procedure linkage entry is for.
#[derive(Debug, Clone, Copy, PartialEq, Eq, Structural)]
pub struct PltIdxEntry {
    pub symbol_addr: u64,
}

/// The tables of a module on an architecture whose procedure linkage table has an
/// index.
#[derive(Debug, Clone, Copy, PartialEq, Eq, Structural)]
pub struct IndexedModuleArchSpecific {
    pub got: ModSection,
    pub plt: ModSection,
    pub plt_idx: ModSection,
}

impl Default for IndexedModuleArchSpecific {
    fn default() -> (arch: IndexedModuleArchSpecific)
        ensures
            arch.got == (ModSection { shndx: 0, num_entries: 0, max_entries: 0 }),
            arch.plt == arch.got,
            arch.plt_idx == arch.got,
    {
        IndexedModuleArchSpecific {
            got: ModSection::default(),
            plt: ModSection::default(),
            plt_idx: ModSection::default(),
        }
    }
}

impl Pod for GotEntry {
    open spec fn width() -> nat {
        8
    }

    open spec fn image(self) -> Seq<u8> {
        bytes::le_bytes(self.symbol_addr as nat, 8)
    }

    proof fn lemma_image_len(self) {
        self.symbol_addr.lemma_image_len();
    }

    proof fn lemma_image_injective(self, other: GotEntry) {
        self.symbol_addr.lemma_image_injective(other.symbol_addr);
    }

    fn size() -> (size: usize) {
        8
    }

    fn encode(&self) -> (image: Vec<u8>) {
        self.symbol_addr.encode()
    }

    fn decode(image: &Vec<u8>) -> (value: GotEntry) {
        GotEntry { symbol_addr: u64::decode(image) }
    }
}

impl Pod for PltIdxEntry {
    open spec fn width() -> nat {
        8
    }

    open spec fn image(self) -> Seq<u8> {
        bytes::le_bytes(self.symbol_addr as nat, 8)
    }

    proof fn lemma_image_len(self) {
        self.symbol_addr.lemma_image_len();
    }

    proof fn lemma_image_injective(self, other: PltIdxEntry) {
        self.symbol_addr.lemma_image_injective(other.symbol_addr);
    }

    fn size() -> (size: usize) {
        8
    }

    fn encode(&self) -> (image: Vec<u8>) {
        self.symbol_addr.encode()
    }

    fn decode(image: &Vec<u8>) -> (value: PltIdxEntry) {
        PltIdxEntry { symbol_addr: u64::decode(image) }
    }
}

/// Whether two relocations ask for the same thing, wherever it is to be put.
pub open spec fn rela_equal(a: Reloc, b: Reloc) -> bool {
    a.r_addend == b.r_addend && a.r_type == b.r_type && a.r_sym == b.r_sym
}

/// Whether two relocations ask for the same thing, wherever it is to be put.
pub fn is_rela_equal(rela1: &Reloc, rela2: &Reloc) -> (yes: bool)
    ensures
        yes == rela_equal(*rela1, *rela2),
{
    let same_addend: bool = match (rela1.r_addend, rela2.r_addend) {
        (Some(a), Some(b)) => a == b,
        (None, None) => true,
        _ => false,
    };
    same_addend && rela1.r_type == rela2.r_type && rela1.r_sym == rela2.r_sym
}

/// Whether a relocation before the one at `idx` asks for the same thing.
pub open spec fn is_duplicate(relocs: Seq<Reloc>, idx: int) -> bool {
    exists|i: int| 0 <= i < idx && rela_equal(relocs[idx], #[trigger] relocs[i])
}

/// Whether a relocation before the one at `idx` asks for the same thing.
pub fn duplicate_reloc(relocs: &Vec<Reloc>, idx: usize) -> (yes: bool)
    requires
        idx < relocs@.len(),
    ensures
        yes == is_duplicate(relocs@, idx as int),
{
    let mut i: usize = 0;
    while i < idx
        invariant
            i <= idx < relocs@.len(),
            forall|j: int| 0 <= j < i ==> !rela_equal(relocs@[idx as int], #[trigger] relocs@[j]),
        decreases idx - i,
    {
        if is_rela_equal(&relocs[idx], &relocs[i]) {
            return true;
        }
        i = i + 1;
    }
    false
}

/// Whether a relocation of the section before the one at `idx` asks for the same
/// thing.
pub fn duplicate_rela(rela_sec: &RelocSection<'_>, idx: usize) -> (yes: bool)
    requires
        idx < object::reloc_entries(*rela_sec).len(),
    ensures
        yes == is_duplicate(object::reloc_entries(*rela_sec), idx as int),
{
    let relocs = read_relocs(rela_sec);
    duplicate_reloc(&relocs, idx)
}

/// Whether a relocation of the section before the one at `idx` asks for the same
/// thing, or nothing where the section has none at `idx`.
pub fn try_duplicate_rela(rela_sec: &RelocSection<'_>, idx: usize) -> (yes: Option<bool>)
    ensures
        yes == if idx < object::reloc_entries(*rela_sec).len() {
            Some(is_duplicate(object::reloc_entries(*rela_sec), idx as int))
        } else {
            None
        },
{
    if idx < read_relocs(rela_sec).len() {
        Some(duplicate_rela(rela_sec, idx))
    } else {
        None
    }
}

/// Every relocation asks for the same thing as one at or before it that is not a
/// duplicate: leaving the duplicates out leaves out no request.
pub proof fn law_duplicates_can_go(relocs: Seq<Reloc>, idx: int)
    requires
        0 <= idx < relocs.len(),
    ensures
        exists|i: int|
            0 <= i <= idx && !is_duplicate(relocs, i) && rela_equal(
                relocs[idx],
                #[trigger] relocs[i],
            ),
    decreases idx,
{
    if is_duplicate(relocs, idx) {
        let j = choose|j: int| 0 <= j < idx && rela_equal(relocs[idx], #[trigger] relocs[j]);
        law_duplicates_can_go(relocs, j);
        let i = choose|i: int|
            0 <= i <= j && !is_duplicate(relocs, i) && rela_equal(relocs[j], #[trigger] relocs[i]);
        assert(rela_equal(relocs[idx], relocs[i]));
    } else {
        assert(rela_equal(relocs[idx], relocs[idx]));
    }
}

/// Of two relocations that are no duplicates, each asks for something else.
pub proof fn law_non_duplicates_differ(relocs: Seq<Reloc>, i: int, j: int)
    requires
        0 <= i < j < relocs.len(),
        !is_duplicate(relocs, j),
    ensures
        !rela_equal(relocs[i], relocs[j]),
{
}

/// The symbol addresses in the first `count` slots of the table of addresses at
/// `base`.
pub open spec fn table_symbols(memory: Map<int, u8>, base: int, count: nat) -> Seq<nat> {
    Seq::new(count, |i: int| bytes::le_value(memory::load(memory, base + i * 8, 8)))
}

/// Whether a section holds a table of addresses that can be read and filled: its
/// header is there, its slots are mapped, and not more are in use than there are.
pub open spec fn table_ready(
    memory: Map<int, u8>,
    headers: Seq<SectionHeader>,
    section: ModSection,
) -> bool {
    &&& section.shndx < headers.len()
    &&& section.num_entries <= section.max_entries
    &&& memory::mapped(
        memory,
        headers[section.shndx as int].sh_addr as int,
        section.max_entries * 8,
    )
}

/// What is left after an entry for `address` was asked of the global offset table
/// at `base`, and what was answered. The entry that is there already is answered,
/// or a new one, or an error when all slots are in use.
pub open spec fn emit_got(
    memory: Map<int, u8>,
    section: ModSection,
    base: int,
    address: u64,
) -> (Map<int, u8>, ModSection, Result<Ptr, ModuleErr>) {
    let symbols = table_symbols(memory, base, section.num_entries as nat);
    match search::first_index(symbols, address as nat) {
        Some(i) => (memory, section, Ok(Ptr((base + i * 8) as u64))),
        None => if section.num_entries >= section.max_entries {
            (memory, section, Err(ModuleErr::ENOEXEC))
        } else {
            let at = base + section.num_entries * 8;
            (
                memory::store(memory, at, bytes::le_bytes(address as nat, 8)),
                ModSection { num_entries: (section.num_entries + 1) as usize, ..section },
                Ok(Ptr(at as u64)),
            )
        },
    }
}

/// A slot with the bytes of an address holds that address.
proof fn lemma_slot_symbol(memory: Map<int, u8>, base: int, count: nat, i: int, symbol: u64)
    requires
        0 <= i < count,
        memory::load(memory, base + i * 8, 8) == bytes::le_bytes(symbol as nat, 8),
    ensures
        table_symbols(memory, base, count)[i] == symbol,
{
    lemma2_to64_rest();
    bytes::lemma_decode_encode(symbol as nat, 8);
}

/// The first of the `count` slots of the table of addresses at `base` that holds
/// `address`.
fn find_symbol(memory: &Memory, base: u64, count: usize, address: u64) -> (found: Option<usize>)
    requires
        memory::mapped(memory@, base as int, count * 8),
    ensures
        object::index_int(found) == search::first_index(
            table_symbols(memory@, base as int, count as nat),
            address as nat,
        ),
{
    let slots: Vec<u64> = Ptr(base).as_slice::<u64>(memory, count);
    let ghost symbols = table_symbols(memory@, base as int, count as nat);
    proof {
        search::law_first_index(symbols, address as nat);
        assert forall|i: int| 0 <= i < slots@.len() implies symbols[i] == #[trigger] slots@[i] by {
            lemma_slot_symbol(memory@, base as int, count as nat, i, slots@[i]);
        }
    }
    let mut i: usize = 0;
    while i < slots.len() && slots[i] != address
        invariant
            i <= slots@.len() == symbols.len(),
            forall|j: int| 0 <= j < slots@.len() ==> symbols[j] == #[trigger] slots@[j],
            forall|j: int| 0 <= j < i ==> symbols[j] != address,
        decreases slots@.len() - i,
    {
        i = i + 1;
    }
    if i < slots.len() {
        assert(symbols[i as int] == address);
        Some(i)
    } else {
        None
    }
}

/// Finds the entry for an address in the global offset table.
fn get_got_entry(
    address: u64,
    sechdrs: &[SectionHeader],
    sec: &ModSection,
    memory: &Memory,
) -> (found: Option<Ptr>)
    requires
        table_ready(memory@, sechdrs@, *sec),
    ensures
        ({
            let base = sechdrs@[sec.shndx as int].sh_addr as int;
            let symbols = table_symbols(memory@, base, sec.num_entries as nat);
            found == match search::first_index(symbols, address as nat) {
                Some(i) => Some(Ptr((base + i * 8) as u64)),
                None => None,
            }
        }),
{
    let base: u64 = sechdrs[sec.shndx].sh_addr;
    match find_symbol(memory, base, sec.num_entries, address) {
        Some(i) => {
            proof {
                let symbols = table_symbols(memory@, base as int, sec.num_entries as nat);
                search::law_first_index(symbols, address as nat);
                ptr::lemma_slot_mapped(memory, base, i as int, sec.max_entries as int, 8);
            }
            Some(Ptr(base + i as u64 * 8))
        },
        None => None,
    }
}

/// The entry for an address.
pub fn emit_got_entry(address: u64) -> (entry: GotEntry)
    ensures
        entry.symbol_addr == address,
{
    GotEntry { symbol_addr: address }
}

/// Answers where the global offset table holds the entry for an address, and adds
/// the entry if there is none yet.
pub fn common_module_emit_got_entry(
    got_sec: &mut ModSection,
    sechdrs: &[SectionHeader],
    memory: &mut Memory,
    address: u64,
) -> (entry: Result<Ptr, ModuleErr>)
    requires
        table_ready(old(memory)@, sechdrs@, *old(got_sec)),
    ensures
        (final(memory)@, *final(got_sec), entry) == emit_got(
            old(memory)@,
            *old(got_sec),
            sechdrs@[old(got_sec).shndx as int].sh_addr as int,
            address,
        ),
{
    if let Some(got) = get_got_entry(address, sechdrs, got_sec, memory) {
        return Ok(got);
    }
    if got_sec.num_entries >= got_sec.max_entries {
        return Err(ModuleErr::ENOEXEC);
    }
    let idx: usize = got_sec.num_entries;
    let base: u64 = sechdrs[got_sec.shndx].sh_addr;
    proof {
        ptr::lemma_slot_mapped(memory, base, idx as int, got_sec.max_entries as int, 8);
    }
    let slot = Ptr(base + idx as u64 * 8);
    slot.write::<GotEntry>(memory, emit_got_entry(address));
    got_sec.num_entries = got_sec.num_entries + 1;
    Ok(slot)
}

/// Whether a section holds a table of addresses that can be read and filled.
pub fn is_table_ready(memory: &Memory, sechdrs: &[SectionHeader], section: &ModSection) -> (yes:
    bool)
    ensures
        yes == table_ready(memory@, sechdrs@, *section),
{
    if section.shndx >= sechdrs.len() || section.num_entries > section.max_entries {
        return false;
    }
    memory.is_mapped(sechdrs[section.shndx].sh_addr, section.max_entries as u128 * 8)
}

/// The answer that `common_module_emit_got_entry` would give.
pub fn peek_got_entry(
    got_sec: &ModSection,
    sechdrs: &[SectionHeader],
    memory: &Memory,
    address: u64,
) -> (entry: Result<Ptr, ModuleErr>)
    requires
        table_ready(memory@, sechdrs@, *got_sec),
    ensures
        entry == emit_got(
            memory@,
            *got_sec,
            sechdrs@[got_sec.shndx as int].sh_addr as int,
            address,
        ).2,
{
    if let Some(got) = get_got_entry(address, sechdrs, got_sec, memory) {
        return Ok(got);
    }
    if got_sec.num_entries >= got_sec.max_entries {
        return Err(ModuleErr::ENOEXEC);
    }
    let base: u64 = sechdrs[got_sec.shndx].sh_addr;
    proof {
        ptr::lemma_slot_mapped(
            memory,
            base,
            got_sec.num_entries as int,
            got_sec.max_entries as int,
            8,
        );
    }
    Ok(Ptr(base + got_sec.num_entries as u64 * 8))
}

/// The address of slot `i` of a table of `width`-byte entries at `base`.
pub open spec fn slot_addr(base: int, i: int, width: nat) -> u64 {
    (base + i * width) as u64
}

/// Whether a procedure linkage table of `width`-byte entries has a header, and its
/// slots are mapped.
pub open spec fn plt_mapped(
    memory: Map<int, u8>,
    headers: Seq<SectionHeader>,
    plt_sec: ModSection,
    width: nat,
) -> bool {
    &&& plt_sec.shndx < headers.len()
    &&& memory::mapped(
        memory,
        headers[plt_sec.shndx as int].sh_addr as int,
        plt_sec.max_entries * width,
    )
}

/// Whether a procedure linkage table has a header, and its slots are mapped.
fn is_plt_mapped<P: Pod>(memory: &Memory, sechdrs: &[SectionHeader], plt_sec: &ModSection) -> (yes:
    bool)
    ensures
        yes == plt_mapped(memory@, sechdrs@, *plt_sec, P::width()),
{
    if plt_sec.shndx >= sechdrs.len() {
        return false;
    }
    let slots: usize = plt_sec.max_entries;
    let size: usize = P::size();
    assert(0 <= slots * size <= u128::MAX) by (nonlinear_arith)
        requires
            0 <= slots <= u64::MAX,
            0 <= size <= u64::MAX,
    ;
    memory.is_mapped(sechdrs[plt_sec.shndx].sh_addr, slots as u128 * size as u128)
}

/// Whether an entry can be asked of a procedure linkage table without an index: it
/// is full, or its slots are there.
pub open spec fn plain_plt_ready(
    memory: Map<int, u8>,
    headers: Seq<SectionHeader>,
    plt_sec: ModSection,
    width: nat,
) -> bool {
    plt_sec.num_entries < plt_sec.max_entries ==> plt_mapped(memory, headers, plt_sec, width)
}

/// Whether an entry can be asked of a procedure linkage table without an index.
pub fn is_plain_plt_ready<P: Pod>(
    memory: &Memory,
    sechdrs: &[SectionHeader],
    plt_sec: &ModSection,
) -> (yes: bool)
    ensures
        yes == plain_plt_ready(memory@, sechdrs@, *plt_sec, P::width()),
{
    plt_sec.num_entries >= plt_sec.max_entries || is_plt_mapped::<P>(memory, sechdrs, plt_sec)
}

/// Adds an entry that the architecture makes to the procedure linkage table, and
/// answers where it is. The architecture is told the address that the entry is to
/// lead to and the address of the entry itself.
pub fn common_module_emit_plain_plt_entry<P: Pod, F: Fn(u64, u64) -> Result<P, ModuleErr>>(
    plt_sec: &mut ModSection,
    sechdrs: &[SectionHeader],
    memory: &mut Memory,
    address: u64,
    arch_emit_plt_entry_func: F,
) -> (entry: Result<Ptr, ModuleErr>)
    requires
        plain_plt_ready(old(memory)@, sechdrs@, *old(plt_sec), P::width()),
        old(plt_sec).num_entries < old(plt_sec).max_entries ==> {
            let base = sechdrs@[old(plt_sec).shndx as int].sh_addr as int;
            call_requires(
                arch_emit_plt_entry_func,
                (address, slot_addr(base, old(plt_sec).num_entries as int, P::width())),
            )
        },
    ensures
        old(plt_sec).num_entries >= old(plt_sec).max_entries ==> {
            &&& entry == Err::<Ptr, ModuleErr>(ModuleErr::ENOEXEC)
            &&& final(memory)@ == old(memory)@
            &&& *final(plt_sec) == *old(plt_sec)
        },
        old(plt_sec).num_entries < old(plt_sec).max_entries ==> {
            let base = sechdrs@[old(plt_sec).shndx as int].sh_addr as int;
            let slot = slot_addr(base, old(plt_sec).num_entries as int, P::width());
            exists|made: Result<P, ModuleErr>| #[trigger]
                call_ensures(arch_emit_plt_entry_func, (address, slot), made) && match made {
                    Ok(plt) => {
                        &&& entry == Ok::<Ptr, ModuleErr>(Ptr(slot))
                        &&& final(memory)@ == memory::store(
                            old(memory)@,
                            slot as int,
                            plt.image(),
                        )
                        &&& *final(plt_sec) == (ModSection {
                            num_entries: (old(plt_sec).num_entries + 1) as usize,
                            ..*old(plt_sec)
                        })
                    },
                    Err(e) => {
                        &&& entry == Err::<Ptr, ModuleErr>(e)
                        &&& final(memory)@ == old(memory)@
                        &&& *final(plt_sec) == *old(plt_sec)
                    },
                }
        },
{
    if plt_sec.num_entries >= plt_sec.max_entries {
        return Err(ModuleErr::ENOEXEC);
    }
    let idx: usize = plt_sec.num_entries;
    let base: u64 = sechdrs[plt_sec.shndx].sh_addr;
    let size: usize = P::size();
    proof {
        ptr::lemma_slot_mapped(
            memory,
            base,
            idx as int,
            plt_sec.max_entries as int,
            size as int,
        );
    }
    let slot = Ptr(base + idx as u64 * size as u64);
    match arch_emit_plt_entry_func(address, slot.0) {
        Ok(plt) => {
            slot.write::<P>(memory, plt);
            plt_sec.num_entries = plt_sec.num_entries + 1;
            Ok(slot)
        },
        Err(e) => Err(e),
    }
}

/// Finds the number of the procedure linkage entry for an address.
fn get_plt_idx(
    address: u64,
    sechdrs: &[SectionHeader],
    sec: &ModSection,
    memory: &Memory,
) -> (found: Option<usize>)
    requires
        table_ready(memory@, sechdrs@, *sec),
    ensures
        object::index_int(found) == plt_index(memory@, sechdrs@, *sec, address),
{
    find_symbol(memory, sechdrs[sec.shndx].sh_addr, sec.num_entries, address)
}

/// The number of the procedure linkage entry for an address, as the index table
/// has it.
pub open spec fn plt_index(
    memory: Map<int, u8>,
    headers: Seq<SectionHeader>,
    plt_idx_sec: ModSection,
    address: u64,
) -> Option<int> {
    search::first_index(
        table_symbols(
            memory,
            headers[plt_idx_sec.shndx as int].sh_addr as int,
            plt_idx_sec.num_entries as nat,
        ),
        address as nat,
    )
}

/// Finds the procedure linkage entry for an address.
fn get_indexed_plt_entry<P: Pod>(
    address: u64,
    sechdrs: &[SectionHeader],
    plt_sec: &ModSection,
    plt_idx_sec: &ModSection,
    memory: &Memory,
) -> (found: Option<Ptr>)
    requires
        table_ready(memory@, sechdrs@, *plt_idx_sec),
        plt_index(memory@, sechdrs@, *plt_idx_sec, address) matches Some(i) ==> {
            &&& i < plt_sec.max_entries
            &&& plt_mapped(memory@, sechdrs@, *plt_sec, P::width())
        },
    ensures
        found == match plt_index(memory@, sechdrs@, *plt_idx_sec, address) {
            Some(i) => Some(
                Ptr(slot_addr(sechdrs@[plt_sec.shndx as int].sh_addr as int, i, P::width())),
            ),
            None => None,
        },
{
    match get_plt_idx(address, sechdrs, plt_idx_sec, memory) {
        Some(i) => {
            let base: u64 = sechdrs[plt_sec.shndx].sh_addr;
            let size: usize = P::size();
            proof {
                ptr::lemma_slot_mapped(
                    memory,
                    base,
                    i as int,
                    plt_sec.max_entries as int,
                    size as int,
                );
            }
            Some(Ptr(base + i as u64 * size as u64))
        },
        None => None,
    }
}

/// The index entry for an address.
pub fn emit_plt_idx_entry(address: u64) -> (entry: PltIdxEntry)
    ensures
        entry.symbol_addr == address,
{
    PltIdxEntry { symbol_addr: address }
}

/// Whether an entry for an address can be asked of a procedure linkage table with an
/// index: the index can be read, and the slots that are answered or written are there.
pub open spec fn indexed_plt_ready(
    memory: Map<int, u8>,
    headers: Seq<SectionHeader>,
    plt_sec: ModSection,
    plt_idx_sec: ModSection,
    address: u64,
    width: nat,
) -> bool {
    &&& table_ready(memory, headers, plt_idx_sec)
    &&& match plt_index(memory, headers, plt_idx_sec, address) {
        Some(i) => i < plt_sec.max_entries && plt_mapped(memory, headers, plt_sec, width),
        None => plt_sec.num_entries < plt_sec.max_entries ==> {
            &&& plt_sec.num_entries < plt_idx_sec.max_entries
            &&& plt_idx_sec.num_entries < usize::MAX
            &&& plt_mapped(memory, headers, plt_sec, width)
        },
    }
}

/// Whether an entry for an address can be asked of a procedure linkage table with an
/// index.
pub fn is_indexed_plt_ready<P: Pod>(
    memory: &Memory,
    sechdrs: &[SectionHeader],
    plt_sec: &ModSection,
    plt_idx_sec: &ModSection,
    address: u64,
) -> (yes: bool)
    ensures
        yes == indexed_plt_ready(
            memory@,
            sechdrs@,
            *plt_sec,
            *plt_idx_sec,
            address,
            P::width(),
        ),
{
    if !is_table_ready(memory, sechdrs, plt_idx_sec) {
        return false;
    }
    match get_plt_idx(address, sechdrs, plt_idx_sec, memory) {
        Some(i) => i < plt_sec.max_entries && is_plt_mapped::<P>(memory, sechdrs, plt_sec),
        None => plt_sec.num_entries >= plt_sec.max_entries || (plt_sec.num_entries
            < plt_idx_sec.max_entries && plt_idx_sec.num_entries < usize::MAX && is_plt_mapped::<P>(
            memory,
            sechdrs,
            plt_sec,
        )),
    }
}

/// Whether asking for an entry for an address adds one: the index has none, and
/// there is a free slot.
pub open spec fn adds_plt_entry(
    memory: Map<int, u8>,
    headers: Seq<SectionHeader>,
    plt_sec: ModSection,
    plt_idx_sec: ModSection,
    address: u64,
) -> bool {
    &&& plt_index(memory, headers, plt_idx_sec, address) is None
    &&& plt_sec.num_entries < plt_sec.max_entries
}

/// The address of the slot that the next procedure linkage entry takes.
pub open spec fn next_plt_slot(
    headers: Seq<SectionHeader>,
    plt_sec: ModSection,
    width: nat,
) -> u64 {
    slot_addr(headers[plt_sec.shndx as int].sh_addr as int, plt_sec.num_entries as int, width)
}

/// The address of the slot that the index entry of the next procedure linkage entry
/// takes: the slot with the same number.
pub open spec fn next_plt_idx_slot(
    headers: Seq<SectionHeader>,
    plt_sec: ModSection,
    plt_idx_sec: ModSection,
) -> u64 {
    slot_addr(headers[plt_idx_sec.shndx as int].sh_addr as int, plt_sec.num_entries as int, 8)
}

/// What is left after an entry for `address` was asked of the procedure linkage
/// table, and what was answered. The entry that is there already is answered, or a
/// new one with the bytes `plt`, or an error when all slots are in use.
pub open spec fn emit_indexed_plt(
    memory: Map<int, u8>,
    headers: Seq<SectionHeader>,
    plt_sec: ModSection,
    plt_idx_sec: ModSection,
    address: u64,
    width: nat,
    plt: Seq<u8>,
) -> (Map<int, u8>, ModSection, ModSection, Result<Ptr, ModuleErr>) {
    match plt_index(memory, headers, plt_idx_sec, address) {
        Some(i) => {
            let plt_base = headers[plt_sec.shndx as int].sh_addr as int;
            (memory, plt_sec, plt_idx_sec, Ok(Ptr(slot_addr(plt_base, i, width))))
        },
        None => if plt_sec.num_entries >= plt_sec.max_entries {
            (memory, plt_sec, plt_idx_sec, Err(ModuleErr::ENOEXEC))
        } else {
            let plt_slot = next_plt_slot(headers, plt_sec, width);
            let idx_slot = next_plt_idx_slot(headers, plt_sec, plt_idx_sec);
            (
                indexed_plt_written(memory, address, plt_slot as int, idx_slot as int, plt),
                ModSection { num_entries: (plt_sec.num_entries + 1) as usize, ..plt_sec },
                ModSection { num_entries: (plt_idx_sec.num_entries + 1) as usize, ..plt_idx_sec },
                Ok(Ptr(plt_slot)),
            )
        },
    }
}

/// Answers where the procedure linkage table holds the entry for an address, and
/// adds the entry, and the index entry that goes with it, if there is none yet.
/// The architecture makes the entry from the address that it is to lead to, its
/// own address and that of the index entry.
pub fn common_module_emit_indexed_plt_entry<P: Pod, F: Fn(u64, u64, u64) -> P>(
    plt_sec: &mut ModSection,
    plt_idx_sec: &mut ModSection,
    sechdrs: &[SectionHeader],
    memory: &mut Memory,
    address: u64,
    arch_emit_plt_entry_func: F,
) -> (entry: Result<Ptr, ModuleErr>)
    requires
        indexed_plt_ready(
            old(memory)@,
            sechdrs@,
            *old(plt_sec),
            *old(plt_idx_sec),
            address,
            P::width(),
        ),
        adds_plt_entry(old(memory)@, sechdrs@, *old(plt_sec), *old(plt_idx_sec), address)
            ==> call_requires(
            arch_emit_plt_entry_func,
            (
                address,
                next_plt_slot(sechdrs@, *old(plt_sec), P::width()),
                next_plt_idx_slot(sechdrs@, *old(plt_sec), *old(plt_idx_sec)),
            ),
        ),
    ensures
        exists|plt: P|
            {
                &&& adds_plt_entry(
                    old(memory)@,
                    sechdrs@,
                    *old(plt_sec),
                    *old(plt_idx_sec),
                    address,
                ) ==> call_ensures(
                    arch_emit_plt_entry_func,
                    (
                        address,
                        next_plt_slot(sechdrs@, *old(plt_sec), P::width()),
                        next_plt_idx_slot(sechdrs@, *old(plt_sec), *old(plt_idx_sec)),
                    ),
                    plt,
                )
                &&& (final(memory)@, *final(plt_sec), *final(plt_idx_sec), entry)
                    == emit_indexed_plt(
                    old(memory)@,
                    sechdrs@,
                    *old(plt_sec),
                    *old(plt_idx_sec),
                    address,
                    P::width(),
                    #[trigger] plt.image(),
                )
            },
{
    if let Some(plt) = get_indexed_plt_entry::<P>(address, sechdrs, plt_sec, plt_idx_sec, memory) {
        proof {
            // No entry is made, so any will do.
            let image = arbitrary::<P>().image();
        }
        return Ok(plt);
    }
    if plt_sec.num_entries >= plt_sec.max_entries {
        proof {
            // No entry is made, so any will do.
            let image = arbitrary::<P>().image();
        }
        return Err(ModuleErr::ENOEXEC);
    }
    let nr: usize = plt_sec.num_entries;
    let idx_base: u64 = sechdrs[plt_idx_sec.shndx].sh_addr;
    let plt_base: u64 = sechdrs[plt_sec.shndx].sh_addr;
    let size: usize = P::size();
    proof {
        ptr::lemma_slot_mapped(memory, idx_base, nr as int, plt_idx_sec.max_entries as int, 8);
        ptr::lemma_slot_mapped(
            memory,
            plt_base,
            nr as int,
            plt_sec.max_entries as int,
            size as int,
        );
    }
    let idx_slot = Ptr(idx_base + nr as u64 * 8);
    idx_slot.write::<PltIdxEntry>(memory, emit_plt_idx_entry(address));
    let plt_slot = Ptr(plt_base + nr as u64 * size as u64);
    let plt = arch_emit_plt_entry_func(address, plt_slot.0, idx_slot.0);
    plt_slot.write::<P>(memory, plt);
    plt_sec.num_entries = plt_sec.num_entries + 1;
    plt_idx_sec.num_entries = plt_idx_sec.num_entries + 1;
    Ok(plt_slot)
}

/// The memory after an index entry for `address`, and then a procedure linkage
/// entry, were written.
pub open spec fn indexed_plt_written(
    memory: Map<int, u8>,
    address: u64,
    plt_slot: int,
    idx_slot: int,
    plt: Seq<u8>,
) -> Map<int, u8> {
    memory::store(
        memory::store(memory, idx_slot, bytes::le_bytes(address as nat, 8)),
        plt_slot,
        plt,
    )
}

/// The bytes of a slot are those of the address that it holds.
proof fn lemma_slot_image(memory: Map<int, u8>, base: int, count: nat, i: int, symbol: u64)
    requires
        0 <= i < count,
        table_symbols(memory, base, count)[i] == symbol,
    ensures
        memory::load(memory, base + i * 8, 8) == bytes::le_bytes(symbol as nat, 8),
{
    bytes::lemma_encode_decode(memory::load(memory, base + i * 8, 8));
}

/// Storing an address in a slot changes no earlier slot.
proof fn lemma_store_slot(memory: Map<int, u8>, base: int, count: nat, symbol: u64)
    requires
        memory::mapped(memory, base + count * 8, 8),
        memory::mapped(memory, base, (count * 8) as int),
    ensures
        ({
            let after = memory::store(
                memory,
                base + count * 8,
                bytes::le_bytes(symbol as nat, 8),
            );
            table_symbols(after, base, count + 1) == table_symbols(memory, base, count).push(
                symbol as nat,
            )
        }),
{
    let image = bytes::le_bytes(symbol as nat, 8);
    let after = memory::store(memory, base + count * 8, image);
    bytes::lemma_le_bytes_len(symbol as nat, 8);
    assert forall|i: int| 0 <= i <= count implies table_symbols(after, base, count + 1)[i]
        == table_symbols(memory, base, count).push(symbol as nat)[i] by {
        let slot = memory::load(after, base + i * 8, 8);
        if i == count {
            assert forall|j: int| 0 <= j < 8 implies slot[j] == image[j] by {
                assert(memory.contains_key(base + count * 8 + j));
            }
            assert(slot =~= image);
            lemma_slot_symbol(after, base, count + 1, i, symbol);
        } else {
            assert forall|j: int| 0 <= j < 8 implies slot[j] == memory::load(
                memory,
                base + i * 8,
                8,
            )[j] by {
                assert(memory.contains_key(base + i * 8 + j));
            }
            assert(slot =~= memory::load(memory, base + i * 8, 8));
        }
    }
    assert(table_symbols(after, base, count + 1) =~= table_symbols(memory, base, count).push(
        symbol as nat,
    ));
}

/// Asking for an entry leaves the symbols of the table as they were, except that
/// one the table does not hold is added at the end while there is a free slot.
pub proof fn law_got_symbols(
    memory: Map<int, u8>,
    headers: Seq<SectionHeader>,
    section: ModSection,
    address: u64,
)
    requires
        table_ready(memory, headers, section),
    ensures
        ({
            let base = headers[section.shndx as int].sh_addr as int;
            let before = table_symbols(memory, base, section.num_entries as nat);
            let (after, kept, entry) = emit_got(memory, section, base, address);
            table_symbols(after, base, kept.num_entries as nat) == if before.contains(
                address as nat,
            ) || section.num_entries == section.max_entries {
                before
            } else {
                before.push(address as nat)
            }
        }),
{
    let base = headers[section.shndx as int].sh_addr as int;
    let before = table_symbols(memory, base, section.num_entries as nat);
    search::law_first_index(before, address as nat);
    if !before.contains(address as nat) && section.num_entries < section.max_entries {
        assert forall|a: int|
            base + section.num_entries * 8 <= a < base + section.num_entries * 8
                + 8 implies #[trigger] memory.contains_key(a) by {}
        assert forall|a: int|
            base <= a < base + section.num_entries * 8 implies #[trigger] memory.contains_key(
            a,
        ) by {}
        lemma_store_slot(memory, base, section.num_entries as nat, address);
    }
}

/// Asking for an entry keeps the table ready: its header, its room and the mapped
/// addresses stay as they are, and the entries in use stay within the room. No
/// byte outside of the table changes.
pub proof fn law_got_ready(
    memory: Map<int, u8>,
    headers: Seq<SectionHeader>,
    section: ModSection,
    address: u64,
)
    requires
        table_ready(memory, headers, section),
    ensures
        ({
            let base = headers[section.shndx as int].sh_addr as int;
            let (after, kept, entry) = emit_got(memory, section, base, address);
            &&& table_ready(after, headers, kept)
            &&& after.dom() == memory.dom()
            &&& kept.shndx == section.shndx
            &&& kept.max_entries == section.max_entries
            &&& section.num_entries <= kept.num_entries <= section.num_entries + 1
            &&& forall|a: int|
                memory.contains_key(a) && !(base <= a < base + section.max_entries * 8)
                    ==> #[trigger] after[a] == memory[a]
        }),
{
    let base = headers[section.shndx as int].sh_addr as int;
    let (after, kept, entry) = emit_got(memory, section, base, address);
    assert(after.dom() =~= memory.dom());
    bytes::lemma_le_bytes_len(address as nat, 8);
    assert forall|a: int|
        base <= a < base + section.max_entries * 8 implies #[trigger] after.contains_key(a) by {
        assert(memory.contains_key(a));
    }
}

/// The entry that is answered holds the address that was asked for, in one of the
/// slots in use.
pub proof fn law_got_entry_holds_symbol(
    memory: Map<int, u8>,
    headers: Seq<SectionHeader>,
    section: ModSection,
    address: u64,
)
    requires
        table_ready(memory, headers, section),
        memory::addressable(memory),
    ensures
        ({
            let base = headers[section.shndx as int].sh_addr as int;
            let (after, kept, entry) = emit_got(memory, section, base, address);
            entry matches Ok(at) ==> {
                &&& memory::load(after, at.0 as int, 8) == (GotEntry {
                    symbol_addr: address,
                }).image()
                &&& exists|i: int| 0 <= i < kept.num_entries && at.0 == #[trigger] (base + i * 8)
            }
        }),
{
    let base = headers[section.shndx as int].sh_addr as int;
    let before = table_symbols(memory, base, section.num_entries as nat);
    let (after, kept, entry) = emit_got(memory, section, base, address);
    search::law_first_index(before, address as nat);
    law_got_symbols(memory, headers, section, address);
    if let Ok(at) = entry {
        let i = match search::first_index(before, address as nat) {
            Some(i) => i,
            None => section.num_entries as int,
        };
        assert(memory.contains_key(base + i * 8));
        assert(at.0 == base + i * 8);
        lemma_slot_image(after, base, kept.num_entries as nat, i, address);
    }
}

/// Asking again for an entry that was answered answers the same entry and changes
/// nothing.
pub proof fn law_got_emit_idempotent(
    memory: Map<int, u8>,
    headers: Seq<SectionHeader>,
    section: ModSection,
    address: u64,
)
    requires
        table_ready(memory, headers, section),
    ensures
        ({
            let base = headers[section.shndx as int].sh_addr as int;
            let (after, kept, entry) = emit_got(memory, section, base, address);
            emit_got(after, kept, base, address) == (after, kept, entry)
        }),
{
    let base = headers[section.shndx as int].sh_addr as int;
    let before = table_symbols(memory, base, section.num_entries as nat);
    let (after, kept, entry) = emit_got(memory, section, base, address);
    let symbols = table_symbols(after, base, kept.num_entries as nat);
    law_got_symbols(memory, headers, section, address);
    search::law_first_index(before, address as nat);
    search::law_first_index(symbols, address as nat);
    if !before.contains(address as nat) && section.num_entries < section.max_entries {
        assert(symbols[section.num_entries as int] == address);
        assert forall|j: int| 0 <= j < section.num_entries implies symbols[j] != address by {
            assert(before.contains(before[j]));
        }
    }
}

/// A table without duplicates stays without: each address has one entry at most.
pub proof fn law_got_no_duplicates(
    memory: Map<int, u8>,
    headers: Seq<SectionHeader>,
    section: ModSection,
    address: u64,
)
    requires
        table_ready(memory, headers, section),
        table_symbols(
            memory,
            headers[section.shndx as int].sh_addr as int,
            section.num_entries as nat,
        ).no_duplicates(),
    ensures
        ({
            let base = headers[section.shndx as int].sh_addr as int;
            let (after, kept, entry) = emit_got(memory, section, base, address);
            table_symbols(after, base, kept.num_entries as nat).no_duplicates()
        }),
{
    law_got_symbols(memory, headers, section, address);
    let base = headers[section.shndx as int].sh_addr as int;
    let before = table_symbols(memory, base, section.num_entries as nat);
    assert(forall|j: int| 0 <= j < before.len() ==> before.contains(#[trigger] before[j]));
}

/// Different addresses get different entries, and the entry for the first still
/// holds it after the second was asked for.
pub proof fn law_got_entries_distinct(
    memory: Map<int, u8>,
    headers: Seq<SectionHeader>,
    section: ModSection,
    first: u64,
    second: u64,
)
    requires
        table_ready(memory, headers, section),
        memory::addressable(memory),
        first != second,
    ensures
        ({
            let base = headers[section.shndx as int].sh_addr as int;
            let (mid, kept, entry1) = emit_got(memory, section, base, first);
            let (after, last, entry2) = emit_got(mid, kept, base, second);
            entry1 matches Ok(at1) ==> {
                &&& memory::load(after, at1.0 as int, 8) == (GotEntry {
                    symbol_addr: first,
                }).image()
                &&& entry2 matches Ok(at2) ==> at1 != at2
            }
        }),
{
    let base = headers[section.shndx as int].sh_addr as int;
    let (mid, kept, entry1) = emit_got(memory, section, base, first);
    let (after, last, entry2) = emit_got(mid, kept, base, second);
    law_got_entry_holds_symbol(memory, headers, section, first);
    law_got_symbols(memory, headers, section, first);
    law_got_ready(memory, headers, section, first);
    assert forall|a: int| #[trigger] mid.contains_key(a) implies 0 <= a <= u64::MAX by {
        assert(memory.dom().contains(a));
    }
    law_got_entry_holds_symbol(mid, headers, kept, second);
    law_got_symbols(mid, headers, kept, second);
    if let Ok(at1) = entry1 {
        let i = choose|i: int| 0 <= i < kept.num_entries && at1.0 == #[trigger] (base + i * 8);
        let symbols = table_symbols(mid, base, kept.num_entries as nat);
        lemma_slot_symbol(mid, base, kept.num_entries as nat, i, first);
        assert(table_symbols(after, base, last.num_entries as nat)[i] == first);
        lemma_slot_image(after, base, last.num_entries as nat, i, first);
        if entry2 == entry1 {
            (GotEntry { symbol_addr: first }).lemma_image_injective(
                GotEntry { symbol_addr: second },
            );
        }
    }
}

/// Adding a procedure linkage entry and its index entry maps and unmaps nothing and
/// changes no byte outside of the two. The entry holds what the architecture made,
/// and so does the index entry hold the address, where the two do not overlap.
pub proof fn law_plt_entry_written(
    memory: Map<int, u8>,
    address: u64,
    plt_slot: int,
    idx_slot: int,
    plt: Seq<u8>,
)
    requires
        memory::mapped(memory, plt_slot, plt.len() as int),
        memory::mapped(memory, idx_slot, 8),
    ensures
        ({
            let after = indexed_plt_written(memory, address, plt_slot, idx_slot, plt);
            &&& after.dom() == memory.dom()
            &&& forall|a: int|
                memory.contains_key(a) && !(plt_slot <= a < plt_slot + plt.len()) && !(idx_slot <= a
                    < idx_slot + 8) ==> #[trigger] after[a] == memory[a]
            &&& memory::load(after, plt_slot, plt.len()) == plt
            &&& plt_slot + plt.len() <= idx_slot || idx_slot + 8 <= plt_slot ==> memory::load(
                after,
                idx_slot,
                8,
            ) == (PltIdxEntry { symbol_addr: address }).image()
        }),
{
    let image = bytes::le_bytes(address as nat, 8);
    let mid = memory::store(memory, idx_slot, image);
    let after = memory::store(mid, plt_slot, plt);
    bytes::lemma_le_bytes_len(address as nat, 8);
    memory::law_store_frame(memory, idx_slot, image);
    memory::law_store_frame(mid, plt_slot, plt);
    memory::law_load_after_store(memory, idx_slot, image);
    assert forall|a: int| #[trigger] memory.contains_key(a) implies mid.contains_key(a) by {
        assert(mid.dom().contains(a));
    }
    assert forall|a: int| plt_slot <= a < plt_slot + plt.len() implies #[trigger] mid.contains_key(
        a,
    ) by {
        assert(memory.contains_key(a));
    }
    memory::law_load_after_store(mid, plt_slot, plt);
    assert forall|a: int|
        memory.contains_key(a) && !(plt_slot <= a < plt_slot + plt.len()) && !(idx_slot <= a
            < idx_slot + 8) implies #[trigger] after[a] == memory[a] by {
        assert(mid[a] == memory[a]);
    }
    if plt_slot + plt.len() <= idx_slot || idx_slot + 8 <= plt_slot {
        let found = memory::load(after, idx_slot, 8);
        let put = memory::load(mid, idx_slot, 8);
        assert forall|i: int| 0 <= i < 8 implies found[i] == put[i] by {
            assert(memory.contains_key(idx_slot + i));
            assert(after[idx_slot + i] == mid[idx_slot + i]);
        }
        assert(found =~= put);
    }
}

/// After a new procedure linkage entry was added for an address, the index leads
/// from the address to it, and from every other address where it led before. The
/// entry and the index, which are in use in step, must not overlap.
pub proof fn law_plt_index_finds_entry(
    memory: Map<int, u8>,
    headers: Seq<SectionHeader>,
    plt_idx_sec: ModSection,
    address: u64,
    plt_slot: int,
    plt: Seq<u8>,
    other: u64,
)
    requires
        table_ready(memory, headers, plt_idx_sec),
        plt_idx_sec.num_entries < plt_idx_sec.max_entries,
        plt_index(memory, headers, plt_idx_sec, address) is None,
        ({
            let base = headers[plt_idx_sec.shndx as int].sh_addr as int;
            let end = base + (plt_idx_sec.num_entries + 1) * 8;
            plt_slot + plt.len() <= base || end <= plt_slot
        }),
        other != address,
    ensures
        ({
            let base = headers[plt_idx_sec.shndx as int].sh_addr as int;
            let after = indexed_plt_written(
                memory,
                address,
                plt_slot,
                base + plt_idx_sec.num_entries * 8,
                plt,
            );
            let grown = ModSection {
                num_entries: (plt_idx_sec.num_entries + 1) as usize,
                ..plt_idx_sec
            };
            &&& plt_index(after, headers, grown, address) == Some(plt_idx_sec.num_entries as int)
            &&& plt_index(after, headers, grown, other) == plt_index(
                memory,
                headers,
                plt_idx_sec,
                other,
            )
            &&& table_ready(after, headers, grown)
        }),
{
    let base = headers[plt_idx_sec.shndx as int].sh_addr as int;
    let count = plt_idx_sec.num_entries as nat;
    let mid = memory::store(memory, base + count * 8, bytes::le_bytes(address as nat, 8));
    let after = memory::store(mid, plt_slot, plt);
    let grown = ModSection { num_entries: (count + 1) as usize, ..plt_idx_sec };
    let before = table_symbols(memory, base, count);
    let symbols = table_symbols(after, base, count + 1);
    assert(forall|a: int|
        base <= a < base + plt_idx_sec.max_entries * 8 ==> #[trigger] memory.contains_key(a));
    lemma_store_slot(memory, base, count, address);
    lemma_slots_apart(mid, base, count + 1, plt_slot, plt);
    assert(symbols == before.push(address as nat));
    search::law_first_index(before, address as nat);
    search::law_first_index(before, other as nat);
    search::law_first_index(symbols, address as nat);
    search::law_first_index(symbols, other as nat);
    assert(forall|j: int| 0 <= j < before.len() ==> before.contains(#[trigger] before[j]));
    assert(symbols[count as int] == address);
    assert(symbols.contains(address as nat));
    if before.contains(other as nat) {
        let i = search::first_index(before, other as nat).unwrap();
        assert(symbols[i] == other);
        assert(symbols.contains(other as nat));
    }
    assert forall|a: int|
        base <= a < base + plt_idx_sec.max_entries * 8 implies #[trigger] after.contains_key(
        a,
    ) by {
        assert(memory.contains_key(a));
    }
}

/// Whether the slot that the next procedure linkage entry takes overlaps neither an
/// index slot in use nor the next one.
pub open spec fn plt_apart(
    headers: Seq<SectionHeader>,
    plt_sec: ModSection,
    plt_idx_sec: ModSection,
    width: nat,
) -> bool {
    let slot = next_plt_slot(headers, plt_sec, width);
    let base = headers[plt_idx_sec.shndx as int].sh_addr;
    slot + width <= base || base + (plt_idx_sec.num_entries + 1) * 8 <= slot
}

/// Whether an entry for an address can be asked of a procedure linkage table that is
/// in use in step with its index, and does not overlap it where it is added.
pub open spec fn plt_in_step(
    memory: Map<int, u8>,
    headers: Seq<SectionHeader>,
    plt_sec: ModSection,
    plt_idx_sec: ModSection,
    address: u64,
    width: nat,
) -> bool {
    &&& indexed_plt_ready(memory, headers, plt_sec, plt_idx_sec, address, width)
    &&& plt_sec.num_entries == plt_idx_sec.num_entries
    &&& adds_plt_entry(memory, headers, plt_sec, plt_idx_sec, address) ==> plt_apart(
        headers,
        plt_sec,
        plt_idx_sec,
        width,
    )
}

/// Asking for a procedure linkage entry leaves the symbols of the index as they were,
/// except that one that the index does not hold is added at the end while there is a
/// free slot. Table and index stay in use in step, and the index stays ready. This is
/// so where the entry does not overlap the index.
pub proof fn law_plt_index_symbols(
    memory: Map<int, u8>,
    headers: Seq<SectionHeader>,
    plt_sec: ModSection,
    plt_idx_sec: ModSection,
    address: u64,
    width: nat,
    plt: Seq<u8>,
)
    requires
        memory::addressable(memory),
        plt_in_step(memory, headers, plt_sec, plt_idx_sec, address, width),
        plt.len() == width,
    ensures
        ({
            let base = headers[plt_idx_sec.shndx as int].sh_addr as int;
            let before = table_symbols(memory, base, plt_idx_sec.num_entries as nat);
            let (after, table, index, entry) = emit_indexed_plt(
                memory,
                headers,
                plt_sec,
                plt_idx_sec,
                address,
                width,
                plt,
            );
            &&& table_symbols(after, base, index.num_entries as nat) == if before.contains(
                address as nat,
            ) || plt_sec.num_entries >= plt_sec.max_entries {
                before
            } else {
                before.push(address as nat)
            }
            &&& table.num_entries == index.num_entries
            &&& table.shndx == plt_sec.shndx && table.max_entries == plt_sec.max_entries
            &&& index.shndx == plt_idx_sec.shndx && index.max_entries == plt_idx_sec.max_entries
            &&& after.dom() == memory.dom()
            &&& table_ready(after, headers, index)
        }),
{
    let base = headers[plt_idx_sec.shndx as int].sh_addr as int;
    let count = plt_idx_sec.num_entries as nat;
    let before = table_symbols(memory, base, count);
    search::law_first_index(before, address as nat);
    if adds_plt_entry(memory, headers, plt_sec, plt_idx_sec, address) {
        let plt_slot = next_plt_slot(headers, plt_sec, width) as int;
        let image = bytes::le_bytes(address as nat, 8);
        let mid = memory::store(memory, base + count * 8, image);
        let after = memory::store(mid, plt_slot, plt);
        assert(memory.contains_key(base + count * 8));
        assert(next_plt_idx_slot(headers, plt_sec, plt_idx_sec) == base + count * 8);
        assert(forall|a: int|
            base <= a < base + plt_idx_sec.max_entries * 8 ==> #[trigger] memory.contains_key(a));
        lemma_store_slot(memory, base, count, address);
        lemma_slots_apart(mid, base, count + 1, plt_slot, plt);
        memory::law_store_frame(memory, base + count * 8, image);
        memory::law_store_frame(mid, plt_slot, plt);
        assert forall|a: int|
            base <= a < base + plt_idx_sec.max_entries * 8 implies #[trigger] after.contains_key(
            a,
        ) by {
            assert(memory.contains_key(a));
            assert(after.dom().contains(a));
        }
    }
}

/// Storing bytes next to a table changes none of its slots.
proof fn lemma_slots_apart(memory: Map<int, u8>, base: int, count: nat, at: int, stored: Seq<u8>)
    requires
        memory::mapped(memory, base, (count * 8) as int),
        at + stored.len() <= base || base + count * 8 <= at,
    ensures
        table_symbols(memory::store(memory, at, stored), base, count) == table_symbols(
            memory,
            base,
            count,
        ),
{
    let after = memory::store(memory, at, stored);
    let found = table_symbols(after, base, count);
    let before = table_symbols(memory, base, count);
    assert forall|i: int| 0 <= i < count implies found[i] == before[i] by {
        let slot = memory::load(after, base + i * 8, 8);
        let same = memory::load(memory, base + i * 8, 8);
        assert forall|j: int| 0 <= j < 8 implies slot[j] == same[j] by {
            assert(memory.contains_key(base + i * 8 + j));
        }
        assert(slot =~= same);
    }
    assert(found =~= before);
}

/// An index without duplicates stays without: each address has one procedure linkage
/// entry at most.
pub proof fn law_plt_no_duplicates(
    memory: Map<int, u8>,
    headers: Seq<SectionHeader>,
    plt_sec: ModSection,
    plt_idx_sec: ModSection,
    address: u64,
    width: nat,
    plt: Seq<u8>,
)
    requires
        memory::addressable(memory),
        plt_in_step(memory, headers, plt_sec, plt_idx_sec, address, width),
        plt.len() == width,
        table_symbols(
            memory,
            headers[plt_idx_sec.shndx as int].sh_addr as int,
            plt_idx_sec.num_entries as nat,
        ).no_duplicates(),
    ensures
        ({
            let base = headers[plt_idx_sec.shndx as int].sh_addr as int;
            let (after, table, index, entry) = emit_indexed_plt(
                memory,
                headers,
                plt_sec,
                plt_idx_sec,
                address,
                width,
                plt,
            );
            table_symbols(after, base, index.num_entries as nat).no_duplicates()
        }),
{
    law_plt_index_symbols(memory, headers, plt_sec, plt_idx_sec, address, width, plt);
    let base = headers[plt_idx_sec.shndx as int].sh_addr as int;
    let before = table_symbols(memory, base, plt_idx_sec.num_entries as nat);
    assert(forall|j: int| 0 <= j < before.len() ==> before.contains(#[trigger] before[j]));
}

/// Asking again for a procedure linkage entry can be done, answers the same and
/// changes nothing, whatever bytes the architecture would make this time.
pub proof fn law_plt_emit_idempotent(
    memory: Map<int, u8>,
    headers: Seq<SectionHeader>,
    plt_sec: ModSection,
    plt_idx_sec: ModSection,
    address: u64,
    width: nat,
    plt: Seq<u8>,
    again: Seq<u8>,
)
    requires
        memory::addressable(memory),
        plt_in_step(memory, headers, plt_sec, plt_idx_sec, address, width),
        plt.len() == width,
    ensures
        ({
            let (after, table, index, entry) = emit_indexed_plt(
                memory,
                headers,
                plt_sec,
                plt_idx_sec,
                address,
                width,
                plt,
            );
            &&& indexed_plt_ready(after, headers, table, index, address, width)
            &&& emit_indexed_plt(after, headers, table, index, address, width, again) == (
                after,
                table,
                index,
                entry,
            )
        }),
{
    law_plt_index_symbols(memory, headers, plt_sec, plt_idx_sec, address, width, plt);
    if adds_plt_entry(memory, headers, plt_sec, plt_idx_sec, address) {
        let base = headers[plt_idx_sec.shndx as int].sh_addr as int;
        let count = plt_idx_sec.num_entries as nat;
        let before = table_symbols(memory, base, count);
        let (after, table, index, entry) = emit_indexed_plt(
            memory,
            headers,
            plt_sec,
            plt_idx_sec,
            address,
            width,
            plt,
        );
        let symbols = table_symbols(after, base, index.num_entries as nat);
        search::law_first_index(before, address as nat);
        search::law_first_index(symbols, address as nat);
        assert(symbols[count as int] == address);
        assert(symbols.contains(address as nat));
        assert forall|j: int| 0 <= j < count implies symbols[j] != address by {
            assert(before.contains(before[j]));
        }
        let plt_base = headers[plt_sec.shndx as int].sh_addr as int;
        assert forall|a: int|
            plt_base <= a < plt_base + plt_sec.max_entries
                * width implies #[trigger] after.contains_key(a) by {
            assert(memory.contains_key(a));
            assert(after.dom().contains(a));
        }
    }
}

/// Whether a procedure linkage table and its index are there, have as many slots each,
/// are in use in step, and do not overlap.
pub open spec fn plt_tables_apart(
    memory: Map<int, u8>,
    headers: Seq<SectionHeader>,
    plt_sec: ModSection,
    plt_idx_sec: ModSection,
    width: nat,
) -> bool {
    let plt_base = headers[plt_sec.shndx as int].sh_addr;
    let idx_base = headers[plt_idx_sec.shndx as int].sh_addr;
    &&& table_ready(memory, headers, plt_idx_sec)
    &&& plt_mapped(memory, headers, plt_sec, width)
    &&& plt_sec.num_entries == plt_idx_sec.num_entries
    &&& plt_sec.max_entries == plt_idx_sec.max_entries
    &&& plt_base + plt_sec.max_entries * width <= idx_base || idx_base + plt_idx_sec.max_entries * 8
        <= plt_base
}

/// Of a procedure linkage table that does not overlap its index, an entry for any
/// address can be asked, and it stays such a table.
pub proof fn law_plt_tables_stay_apart(
    memory: Map<int, u8>,
    headers: Seq<SectionHeader>,
    plt_sec: ModSection,
    plt_idx_sec: ModSection,
    address: u64,
    width: nat,
    plt: Seq<u8>,
)
    requires
        memory::addressable(memory),
        plt_tables_apart(memory, headers, plt_sec, plt_idx_sec, width),
        plt.len() == width,
    ensures
        plt_in_step(memory, headers, plt_sec, plt_idx_sec, address, width),
        ({
            let (after, table, index, entry) = emit_indexed_plt(
                memory,
                headers,
                plt_sec,
                plt_idx_sec,
                address,
                width,
                plt,
            );
            &&& memory::addressable(after)
            &&& plt_tables_apart(after, headers, table, index, width)
        }),
{
    let plt_base = headers[plt_sec.shndx as int].sh_addr as int;
    let idx_base = headers[plt_idx_sec.shndx as int].sh_addr as int;
    let nr = plt_sec.num_entries as int;
    let slots = plt_sec.max_entries as int;
    search::law_first_index(
        table_symbols(memory, idx_base, plt_idx_sec.num_entries as nat),
        address as nat,
    );
    if adds_plt_entry(memory, headers, plt_sec, plt_idx_sec, address) {
        assert(0 <= nr * width && nr * width + width <= slots * width) by (nonlinear_arith)
            requires
                0 <= nr < slots,
                0 <= width,
        ;
        if width > 0 {
            assert(memory.contains_key(plt_base + nr * width));
        } else {
            assert(nr * width == 0) by (nonlinear_arith)
                requires
                    width == 0,
            ;
        }
        assert(next_plt_slot(headers, plt_sec, width) == plt_base + nr * width);
    }
    law_plt_index_symbols(memory, headers, plt_sec, plt_idx_sec, address, width, plt);
    let after = emit_indexed_plt(
        memory,
        headers,
        plt_sec,
        plt_idx_sec,
        address,
        width,
        plt,
    ).0;
    assert forall|a: int| #[trigger] after.contains_key(a) implies 0 <= a <= u64::MAX by {
        assert(memory.dom().contains(a));
    }
    assert forall|a: int|
        plt_base <= a < plt_base + slots * width implies #[trigger] after.contains_key(a) by {
        assert(memory.contains_key(a));
        assert(after.dom().contains(a));
    }
}

/// Two relocations ask for the same thing exactly when moving one to the place of the
/// other makes them the same relocation.
pub proof fn law_rela_equal(a: Reloc, b: Reloc)
    ensures
        rela_equal(a, b) <==> (Reloc { r_offset: b.r_offset, ..a }) == b,
{
}

/// A relocation is a duplicate exactly when an earlier one differs from it in its
/// place at most.
pub proof fn law_is_duplicate(relocs: Seq<Reloc>, idx: int)
    requires
        0 <= idx < relocs.len(),
    ensures
        is_duplicate(relocs, idx) <==> exists|i: int|
            0 <= i < idx && (Reloc {
                r_offset: relocs[idx].r_offset,
                ..#[trigger] relocs[i]
            }) == relocs[idx],
{
    if is_duplicate(relocs, idx) {
        let i = choose|i: int| 0 <= i < idx && rela_equal(relocs[idx], #[trigger] relocs[i]);
        assert((Reloc { r_offset: relocs[idx].r_offset, ..relocs[i] }) == relocs[idx]);
    }
}

/// A table of addresses is ready exactly when its header is there, not more slots are
/// in use than there are, and each of the eight bytes of each slot is mapped.
pub proof fn law_table_ready(
    memory: Map<int, u8>,
    headers: Seq<SectionHeader>,
    section: ModSection,
)
    ensures
        table_ready(memory, headers, section) <==> {
            &&& section.shndx < headers.len()
            &&& section.num_entries <= section.max_entries
            &&& forall|a: int|
                #![trigger memory.contains_key(a)]
                headers[section.shndx as int].sh_addr <= a
                    < headers[section.shndx as int].sh_addr + section.max_entries * 8
                    ==> memory.contains_key(a)
        },
{
}

/// The symbols of a table are the numbers in its slots.
pub proof fn lemma_symbols_at(memory: Map<int, u8>, base: int, count: nat)
    ensures
        table_symbols(memory, base, count).len() == count,
        forall|i: int|
            0 <= i < count ==> #[trigger] table_symbols(memory, base, count)[i] == memory::u64_at(
                memory,
                base + i * 8,
            ),
{
    assert forall|i: int| 0 <= i < count implies #[trigger] table_symbols(memory, base, count)[i]
        == memory::u64_at(memory, base + i * 8) by {
        memory::law_numbers_at(memory, base + i * 8);
    }
}

/// Whether slot `i` is the first of the `count` slots at `base` that holds the number
/// `address`; for `i == count`, whether none does.
pub open spec fn first_holding(
    memory: Map<int, u8>,
    base: int,
    count: int,
    address: u64,
    i: int,
) -> bool {
    &&& 0 <= i <= count
    &&& i < count ==> memory::u64_at(memory, base + i * 8) == address
    &&& forall|j: int|
        0 <= j < i ==> #[trigger] memory::u64_at(memory, base + j * 8) != address
}

/// A search for a number in a table ends at the first slot that holds it.
proof fn lemma_first_holding(
    memory: Map<int, u8>,
    base: int,
    count: nat,
    address: u64,
    i: int,
)
    requires
        first_holding(memory, base, count as int, address, i),
    ensures
        search::first_index(table_symbols(memory, base, count), address as nat) == if i < count {
            Some(i)
        } else {
            None
        },
{
    let symbols = table_symbols(memory, base, count);
    lemma_symbols_at(memory, base, count);
    search::law_first_index(symbols, address as nat);
    assert forall|j: int| 0 <= j < i implies symbols[j] != address as nat by {
        assert(memory::u64_at(memory, base + j * 8) != address);
    }
    if i < count {
        assert(symbols[i] == address as nat);
        assert(symbols.contains(address as nat));
    } else {
        assert(!symbols.contains(address as nat));
    }
}

/// What asking the global offset table for an address does, in full: `i` is the first
/// slot in use that holds the address, or the number of slots in use. An address that
/// is held is answered with its slot. Any other takes the next free slot, whatever the
/// address is, and is refused only when there is none.
pub proof fn law_got_request(
    memory: Map<int, u8>,
    section: ModSection,
    base: int,
    address: u64,
    i: int,
)
    requires
        0 <= base,
        first_holding(memory, base, section.num_entries as int, address, i),
        i < section.num_entries || section.num_entries < section.max_entries ==> base + i * 8
            <= u64::MAX,
        i == section.num_entries < section.max_entries ==> forall|a: int|
            base + i * 8 <= a < base + i * 8 + 8 ==> #[trigger] memory.contains_key(a),
    ensures
        ({
            let (after, kept, entry) = emit_got(memory, section, base, address);
            let slot = base + i * 8;
            &&& entry is Ok <==> i < section.num_entries || section.num_entries
                < section.max_entries
            &&& entry matches Ok(at) ==> at.0 == slot
            &&& entry matches Err(e) ==> e == ModuleErr::ENOEXEC
            &&& kept.shndx == section.shndx && kept.max_entries == section.max_entries
            &&& i < section.num_entries || entry is Err ==> after == memory && kept == section
            &&& i == section.num_entries && entry is Ok ==> {
                &&& kept.num_entries == section.num_entries + 1
                &&& memory::u64_at(after, slot) == address
                &&& after.dom() == memory.dom()
                &&& forall|a: int|
                    memory.contains_key(a) && !(slot <= a < slot + 8) ==> #[trigger] after[a]
                        == memory[a]
            }
        }),
{
    let slot = base + i * 8;
    lemma_first_holding(memory, base, section.num_entries as nat, address, i);
    if i == section.num_entries && section.num_entries < section.max_entries {
        let image = bytes::le_bytes(address as nat, 8);
        let after = memory::store(memory, slot, image);
        bytes::lemma_le_bytes_len(address as nat, 8);
        memory::law_load_after_store(memory, slot, image);
        memory::law_store_frame(memory, slot, image);
        memory::law_numbers_at(after, slot);
        lemma2_to64_rest();
        bytes::lemma_decode_encode(address as nat, 8);
    }
}

/// Slot `i` of a table lies `i` entries after its start.
pub proof fn law_slot_addr(base: u64, i: int, width: nat)
    requires
        0 <= i,
        base + i * width <= u64::MAX,
    ensures
        slot_addr(base as int, i, width) == base + i * width,
{
    assert(0 <= i * width) by (nonlinear_arith)
        requires
            0 <= i,
            0 <= width,
    ;
}

/// An entry can be asked of a procedure linkage table without an index exactly when
/// the table is full, or has its header and all of its bytes mapped.
pub proof fn law_plain_plt_ready(
    memory: Map<int, u8>,
    headers: Seq<SectionHeader>,
    plt_sec: ModSection,
    width: nat,
)
    ensures
        plain_plt_ready(memory, headers, plt_sec, width) <==> {
            ||| plt_sec.num_entries >= plt_sec.max_entries
            ||| plt_sec.shndx < headers.len() && forall|a: int|
                #![trigger memory.contains_key(a)]
                headers[plt_sec.shndx as int].sh_addr <= a
                    < headers[plt_sec.shndx as int].sh_addr + plt_sec.max_entries * width
                    ==> memory.contains_key(a)
        },
{
}

/// What asking for a procedure linkage entry for an address does, in full: `i` is the
/// first index slot in use that holds the address, or the number of those in use. An
/// address that is held is answered with the entry of the same number. Any other takes
/// the next slots of both tables, whatever the address is, and is refused only when
/// the table is full. The bytes `plt` that the architecture made go to the entry, and
/// the address goes to the index.
pub proof fn law_plt_request(
    memory: Map<int, u8>,
    headers: Seq<SectionHeader>,
    plt_sec: ModSection,
    plt_idx_sec: ModSection,
    address: u64,
    width: nat,
    plt: Seq<u8>,
    i: int,
)
    requires
        plt_sec.shndx < headers.len(),
        plt_idx_sec.shndx < headers.len(),
        plt_idx_sec.num_entries <= plt_idx_sec.max_entries,
        plt_idx_sec.num_entries < usize::MAX,
        plt.len() == width,
        first_holding(
            memory,
            headers[plt_idx_sec.shndx as int].sh_addr as int,
            plt_idx_sec.num_entries as int,
            address,
            i,
        ),
        ({
            let plt_base = headers[plt_sec.shndx as int].sh_addr;
            let idx_base = headers[plt_idx_sec.shndx as int].sh_addr;
            &&& i < plt_idx_sec.num_entries ==> i < plt_sec.max_entries
            &&& plt_sec.num_entries < plt_sec.max_entries ==> plt_sec.num_entries
                < plt_idx_sec.max_entries
            &&& plt_base + plt_sec.max_entries * width <= u64::MAX
            &&& idx_base + plt_idx_sec.max_entries * 8 <= u64::MAX
            &&& forall|a: int|
                plt_base <= a < plt_base + plt_sec.max_entries * width
                    ==> #[trigger] memory.contains_key(a)
            &&& forall|a: int|
                idx_base <= a < idx_base + plt_idx_sec.max_entries * 8
                    ==> #[trigger] memory.contains_key(a)
        }),
    ensures
        indexed_plt_ready(memory, headers, plt_sec, plt_idx_sec, address, width),
        ({
            let plt_base = headers[plt_sec.shndx as int].sh_addr as int;
            let idx_base = headers[plt_idx_sec.shndx as int].sh_addr as int;
            let (after, table, index, entry) = emit_indexed_plt(
                memory,
                headers,
                plt_sec,
                plt_idx_sec,
                address,
                width,
                plt,
            );
            let held = i < plt_idx_sec.num_entries;
            let free = plt_sec.num_entries < plt_sec.max_entries;
            let plt_slot = plt_base + plt_sec.num_entries * width;
            let idx_slot = idx_base + plt_sec.num_entries * 8;
            &&& entry is Ok <==> held || free
            &&& entry matches Err(e) ==> e == ModuleErr::ENOEXEC
            &&& held ==> (entry matches Ok(at) && at.0 == plt_base + i * width)
            &&& held || !free ==> after == memory && table == plt_sec && index == plt_idx_sec
            &&& !held && free ==> {
                &&& entry matches Ok(at) && at.0 == plt_slot
                &&& adds_plt_entry(memory, headers, plt_sec, plt_idx_sec, address)
                &&& next_plt_slot(headers, plt_sec, width) == plt_slot
                &&& next_plt_idx_slot(headers, plt_sec, plt_idx_sec) == idx_slot
                &&& table == (ModSection {
                    num_entries: (plt_sec.num_entries + 1) as usize,
                    ..plt_sec
                })
                &&& index == (ModSection {
                    num_entries: (plt_idx_sec.num_entries + 1) as usize,
                    ..plt_idx_sec
                })
                &&& after.dom() == memory.dom()
                &&& forall|j: int| 0 <= j < width ==> #[trigger] after[plt_slot + j] == plt[j]
                &&& plt_slot + width <= idx_slot || idx_slot + 8 <= plt_slot ==> memory::u64_at(
                    after,
                    idx_slot,
                ) == address
                &&& forall|a: int|
                    memory.contains_key(a) && !(plt_slot <= a < plt_slot + width) && !(idx_slot
                        <= a < idx_slot + 8) ==> #[trigger] after[a] == memory[a]
            }
        }),
{
    let plt_base = headers[plt_sec.shndx as int].sh_addr as int;
    let idx_base = headers[plt_idx_sec.shndx as int].sh_addr as int;
    let nr = plt_sec.num_entries as int;
    let slots = plt_sec.max_entries as int;
    lemma_first_holding(memory, idx_base, plt_idx_sec.num_entries as nat, address, i);
    if i < plt_idx_sec.num_entries {
        assert(0 <= i * width && i * width + width <= slots * width) by (nonlinear_arith)
            requires
                0 <= i < slots,
                0 <= width,
        ;
    } else if nr < slots {
        assert(0 <= nr * width && nr * width + width <= slots * width) by (nonlinear_arith)
            requires
                0 <= nr < slots,
                0 <= width,
        ;
        let plt_slot = plt_base + nr * width;
        let idx_slot = idx_base + nr * 8;
        let image = bytes::le_bytes(address as nat, 8);
        let mid = memory::store(memory, idx_slot, image);
        let after = memory::store(mid, plt_slot, plt);
        bytes::lemma_le_bytes_len(address as nat, 8);
        law_plt_entry_written(memory, address, plt_slot, idx_slot, plt);
        assert forall|j: int| 0 <= j < width implies #[trigger] after[plt_slot + j] == plt[j] by {
            assert(memory.contains_key(plt_slot + j));
            assert(mid.contains_key(plt_slot + j));
        }
        memory::law_numbers_at(after, idx_slot);
        lemma2_to64_rest();
        bytes::lemma_decode_encode(address as nat, 8);
    }
}

/// When an entry for an address can be asked of a procedure linkage table with an
/// index: the index has its header and bytes, and then an address that is held needs
/// the entry of that number, and one that is added needs a slot in both tables. A full
/// table needs nothing more.
pub proof fn law_indexed_plt_ready(
    memory: Map<int, u8>,
    headers: Seq<SectionHeader>,
    plt_sec: ModSection,
    plt_idx_sec: ModSection,
    address: u64,
    width: nat,
    i: int,
)
    requires
        first_holding(
            memory,
            headers[plt_idx_sec.shndx as int].sh_addr as int,
            plt_idx_sec.num_entries as int,
            address,
            i,
        ),
    ensures
        indexed_plt_ready(memory, headers, plt_sec, plt_idx_sec, address, width) <==> {
            let held = i < plt_idx_sec.num_entries;
            let free = plt_sec.num_entries < plt_sec.max_entries;
            &&& plt_idx_sec.shndx < headers.len()
            &&& plt_idx_sec.num_entries <= plt_idx_sec.max_entries
            &&& forall|a: int|
                #![trigger memory.contains_key(a)]
                headers[plt_idx_sec.shndx as int].sh_addr <= a
                    < headers[plt_idx_sec.shndx as int].sh_addr + plt_idx_sec.max_entries * 8
                    ==> memory.contains_key(a)
            &&& held ==> i < plt_sec.max_entries
            &&& !held && free ==> plt_sec.num_entries < plt_idx_sec.max_entries
                && plt_idx_sec.num_entries < usize::MAX
            &&& held || free ==> plt_sec.shndx < headers.len() && forall|a: int|
                #![trigger memory.contains_key(a)]
                headers[plt_sec.shndx as int].sh_addr <= a
                    < headers[plt_sec.shndx as int].sh_addr + plt_sec.max_entries * width
                    ==> memory.contains_key(a)
        },
{
    lemma_first_holding(
        memory,
        headers[plt_idx_sec.shndx as int].sh_addr as int,
        plt_idx_sec.num_entries as nat,
        address,
        i,
    );
}

/// An entry takes eight bytes, and holds the number of its address.
pub proof fn law_entry_images(address: u64)
    ensures
        GotEntry::width() == 8,
        PltIdxEntry::width() == 8,
        (GotEntry { symbol_addr: address }).image() == address.image(),
        (PltIdxEntry { symbol_addr: address }).image() == address.image(),
{
}

} // verus!
