//! The parts of an ELF object that module loading reads and changes.
use crate::search;
use goblin::elf::RelocSection;
use goblin::strtab::Strtab;
use vstd::prelude::*;
use vstd::utf8::*;

verus! {

/// A section that the file holds, with contents defined by the program.
pub const SHT_PROGBITS: u32 = 1;

/// A section of relocations with explicit addends.
pub const SHT_RELA: u32 = 4;

/// A section that takes no space in the file.
pub const SHT_NOBITS: u32 = 8;

/// Flag of a section that takes memory while the program runs.
pub const SHF_ALLOC: u64 = 2;

/// Flag of a section that holds machine instructions.
pub const SHF_EXECINSTR: u64 = 4;

/// A section header.
#[derive(Debug, Clone, Copy, PartialEq, Eq, Structural)]
pub struct SectionHeader {
    /// Offset of the section's name in the section name table.
    pub sh_name: usize,
    pub sh_type: u32,
    pub sh_flags: u64,
    /// Where the section is loaded.
    pub sh_addr: u64,
    pub sh_offset: u64,
    pub sh_size: u64,
    pub sh_link: u32,
    /// For a section of relocations, the index of the section they apply to.
    pub sh_info: u32,
    pub sh_addralign: u64,
    pub sh_entsize: u64,
}

/// A relocation as the file holds it, with an explicit addend.
#[derive(Debug, Clone, Copy, PartialEq, Eq, Structural)]
pub struct Rela {
    pub r_offset: u64,
    pub r_info: u64,
    pub r_addend: i64,
}

/// A relocation as read from a relocation section.
#[derive(Debug, Clone, Copy, PartialEq, Eq, Structural)]
pub struct Reloc {
    pub r_offset: u64,
    pub r_addend: Option<i64>,
    /// The index of the symbol in the symbol table.
    pub r_sym: usize,
    pub r_type: u32,
}

/// A resolved symbol.
#[derive(Debug, Clone, Copy, PartialEq, Eq, Structural)]
pub struct Sym {
    pub st_value: u64,
}

/// What loading has found out about a module: its symbols with their names, in
/// the order of the symbol table.
pub struct ModuleLoadInfo {
    pub syms: Vec<(Sym, String)>,
}

/// An ELF object.
pub struct Elf<'a> {
    pub section_headers: Vec<SectionHeader>,
    /// The section name table.
    pub shdr_strtab: Strtab<'a>,
    /// Each section of relocations, with the index of its header.
    pub shdr_relocs: Vec<(usize, RelocSection<'a>)>,
}

/// `goblin::elf::RelocSection`, with nothing said of what is inside.
#[verifier::external_type_specification]
#[verifier::external_body]
pub struct ExRelocSection<'a>(goblin::elf::RelocSection<'a>);

/// `goblin::strtab::Strtab`, with nothing said of what is inside.
#[verifier::external_type_specification]
#[verifier::external_body]
pub struct ExStrtab<'a>(goblin::strtab::Strtab<'a>);

/// The relocations that `goblin::elf::RelocSection` holds, in order.
pub uninterp spec fn reloc_entries(section: RelocSection<'_>) -> Seq<Reloc>;

/// The string that `goblin::strtab::Strtab` gives for each byte offset for which it
/// gives one.
pub uninterp spec fn strtab_strings(table: Strtab<'_>) -> Map<int, Seq<char>>;

/// Calls `goblin::elf::RelocSection::len`: the number of relocations of the
/// section.
#[verifier::external_body]
fn reloc_count(section: &RelocSection<'_>) -> (count: usize)
    ensures
        count == reloc_entries(*section).len(),
{
    section.len()
}

/// Calls `goblin::elf::RelocSection::get`: the relocation at `index`, field for
/// field, and nothing exactly when `index` is not less than the number of them.
#[verifier::external_body]
fn reloc_at(section: &RelocSection<'_>, index: usize) -> (found: Option<Reloc>)
    ensures
        found == (if index < reloc_entries(*section).len() {
            Some(reloc_entries(*section)[index as int])
        } else {
            None
        }),
{
    match section.get(index) {
        Some(r) => Some(Reloc {
            r_offset: r.r_offset,
            r_addend: r.r_addend,
            r_sym: r.r_sym,
            r_type: r.r_type,
        }),
        None => None,
    }
}

/// Calls `goblin::strtab::Strtab::get_at`: the string at byte offset `offset`, and
/// nothing exactly when the parsed table holds none there. Which offsets those
/// are, and that a string reached past its start is the rest of it, is not said.
#[verifier::external_body]
fn string_at<'a>(table: &Strtab<'a>, offset: usize) -> (found: Option<&'a str>)
    ensures
        match found {
            Some(s) => strtab_strings(*table).contains_pair(offset as int, s@),
            None => !strtab_strings(*table).contains_key(offset as int),
        },
{
    table.get_at(offset)
}

/// The relocations of a section, in order.
pub fn read_relocs(section: &RelocSection<'_>) -> (relocs: Vec<Reloc>)
    ensures
        relocs@ == reloc_entries(*section),
{
    let count: usize = reloc_count(section);
    let mut relocs: Vec<Reloc> = Vec::new();
    let mut i: usize = 0;
    while i < count
        invariant
            i <= count == reloc_entries(*section).len(),
            relocs@ == reloc_entries(*section).take(i as int),
        decreases count - i,
    {
        if let Some(reloc) = reloc_at(section, i) {
            relocs.push(reloc);
        }
        assert(relocs@ =~= reloc_entries(*section).take(i + 1));
        i = i + 1;
    }
    assert(relocs@ =~= reloc_entries(*section));
    relocs
}

/// The name of a section: the string found for it, or a stand-in.
pub open spec fn name_or_unknown(found: Option<Seq<char>>) -> Seq<char> {
    match found {
        Some(name) => name,
        None => "<unknown>"@,
    }
}

/// The name of each section, in the order of the headers.
pub open spec fn section_names(
    headers: Seq<SectionHeader>,
    strings: Map<int, Seq<char>>,
) -> Seq<Seq<char>> {
    headers.map_values(
        |header: SectionHeader|
            name_or_unknown(
                if strings.contains_key(header.sh_name as int) {
                    Some(strings[header.sh_name as int])
                } else {
                    None
                },
            ),
    )
}

/// The name of a section: the string found for it, or a stand-in.
pub fn name_of<'a>(found: Option<&'a str>) -> (name: &'a str)
    ensures
        name@ == name_or_unknown(
            match found {
                Some(s) => Some(s@),
                None => None,
            },
        ),
{
    match found {
        Some(name) => name,
        None => "<unknown>",
    }
}

/// Whether two strings are equal.
pub fn same_str(a: &str, b: &str) -> (yes: bool)
    ensures
        yes == (a@ == b@),
{
    proof {
        encode_utf8_decode_utf8(a@);
        encode_utf8_decode_utf8(b@);
    }
    let left = a.as_bytes();
    let right = b.as_bytes();
    if left.len() != right.len() {
        return false;
    }
    let mut i: usize = 0;
    while i < left.len()
        invariant
            i <= left@.len() == right@.len(),
            left@ == encode_utf8(a@),
            right@ == encode_utf8(b@),
            left@.take(i as int) == right@.take(i as int),
        decreases left@.len() - i,
    {
        if left[i] != right[i] {
            return false;
        }
        assert(left@.take(i + 1) =~= left@.take(i as int).push(left@[i as int]));
        assert(right@.take(i + 1) =~= right@.take(i as int).push(right@[i as int]));
        i = i + 1;
    }
    assert(left@.take(i as int) =~= left@ && right@.take(i as int) =~= right@);
    true
}

/// The index of the first of `names` that is `name`.
pub fn position_of_name(names: &Vec<&str>, name: &str) -> (found: Option<usize>)
    ensures
        match found {
            Some(i) => {
                &&& i < names@.len()
                &&& names@[i as int]@ == name@
                &&& forall|j: int| 0 <= j < i ==> (#[trigger] names@[j])@ != name@
            },
            None => forall|j: int| 0 <= j < names@.len() ==> (#[trigger] names@[j])@ != name@,
        },
{
    let mut i: usize = 0;
    while i < names.len()
        invariant
            i <= names@.len(),
            forall|j: int| 0 <= j < i ==> (#[trigger] names@[j])@ != name@,
        decreases names@.len() - i,
    {
        if same_str(names[i], name) {
            return Some(i);
        }
        i = i + 1;
    }
    None
}

/// An index as the mathematical integer it is.
pub open spec fn index_int(index: Option<usize>) -> Option<int> {
    match index {
        Some(i) => Some(i as int),
        None => None,
    }
}

impl<'a> Elf<'a> {
    /// The name of each section, in the order of the headers.
    pub open spec fn names(self) -> Seq<Seq<char>> {
        section_names(self.section_headers@, strtab_strings(self.shdr_strtab))
    }

    /// The name of each section, in the order of the headers.
    pub fn section_names(&self) -> (names: Vec<&'a str>)
        ensures
            names@.map_values(|name: &str| name@) == self.names(),
    {
        let mut names: Vec<&'a str> = Vec::new();
        let mut i: usize = 0;
        while i < self.section_headers.len()
            invariant
                i <= self.section_headers@.len(),
                names@.len() == i,
                forall|j: int| 0 <= j < i ==> (#[trigger] names@[j])@ == self.names()[j],
            decreases self.section_headers@.len() - i,
        {
            let found = string_at(&self.shdr_strtab, self.section_headers[i].sh_name);
            names.push(name_of(found));
            i = i + 1;
        }
        assert(names@.map_values(|name: &str| name@) =~= self.names());
        names
    }
}

/// The index of the first section with the given name.
pub fn find_section(elf: &Elf<'_>, section_name: &str) -> (found: Option<usize>)
    ensures
        index_int(found) == search::first_index(elf.names(), section_name@),
        found matches Some(i) ==> i < elf.section_headers@.len() && elf.names()[i as int]
            == section_name@,
{
    let names = elf.section_names();
    let found = position_of_name(&names, section_name);
    proof {
        let ghost_names = names@.map_values(|name: &str| name@);
        search::law_first_index(elf.names(), section_name@);
        assert forall|j: int| 0 <= j < names@.len() implies elf.names()[j] == (
        #[trigger] names@[j])@ by {
            assert(ghost_names[j] == names@[j]@);
        }
        if let Some(i) = found {
            assert(elf.names()[i as int] == section_name@);
        }
    }
    found
}

/// A section has the name that the string table gives for its `sh_name`, and the
/// stand-in where it gives none.
pub proof fn law_section_name(elf: &Elf<'_>, i: int)
    requires
        0 <= i < elf.section_headers@.len(),
    ensures
        elf.names().len() == elf.section_headers@.len(),
        ({
            let strings = strtab_strings(elf.shdr_strtab);
            let at = elf.section_headers@[i].sh_name as int;
            &&& strings.contains_key(at) ==> elf.names()[i] == strings[at]
            &&& !strings.contains_key(at) ==> elf.names()[i] == "<unknown>"@
        }),
{
}

} // verus!
