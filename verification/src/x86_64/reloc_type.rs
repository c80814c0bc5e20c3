//! The relocation types of x86-64 and the numbers that name them.
use vstd::prelude::*;

verus! {

/// The relocation types of x86-64.
/// See <https://elixir.bootlin.com/linux/v6.6/source/arch/x86/include/asm/elf.h#L47>
#[allow(non_camel_case_types)]
#[derive(Debug, Clone, Copy, PartialEq, Eq, Structural)]
pub enum ArchRelocationType {
    /// No reloc
    R_X86_64_NONE,
    /// Direct 64 bit
    R_X86_64_64,
    /// PC relative 32 bit signed
    R_X86_64_PC32,
    /// 32 bit GOT entry
    R_X86_64_GOT32,
    /// 32 bit PLT address
    R_X86_64_PLT32,
    /// Copy symbol at runtime
    R_X86_64_COPY,
    /// Create GOT entry
    R_X86_64_GLOB_DAT,
    /// Create PLT entry
    R_X86_64_JUMP_SLOT,
    /// Adjust by program base
    R_X86_64_RELATIVE,
    /// 32 bit signed pc relative offset to GOT
    R_X86_64_GOTPCREL,
    /// Direct 32 bit zero extended
    R_X86_64_32,
    /// Direct 32 bit sign extended
    R_X86_64_32S,
    /// Direct 16 bit zero extended
    R_X86_64_16,
    /// 16 bit sign extended pc relative
    R_X86_64_PC16,
    /// Direct 8 bit sign extended
    R_X86_64_8,
    /// 8 bit sign extended pc relative
    R_X86_64_PC8,
    /// Place relative 64-bit signed
    R_X86_64_PC64,
}

/// The number by which a file names a relocation type.
pub open spec fn type_code(reloc_type: ArchRelocationType) -> u32 {
    match reloc_type {
        ArchRelocationType::R_X86_64_NONE => 0,
        ArchRelocationType::R_X86_64_64 => 1,
        ArchRelocationType::R_X86_64_PC32 => 2,
        ArchRelocationType::R_X86_64_GOT32 => 3,
        ArchRelocationType::R_X86_64_PLT32 => 4,
        ArchRelocationType::R_X86_64_COPY => 5,
        ArchRelocationType::R_X86_64_GLOB_DAT => 6,
        ArchRelocationType::R_X86_64_JUMP_SLOT => 7,
        ArchRelocationType::R_X86_64_RELATIVE => 8,
        ArchRelocationType::R_X86_64_GOTPCREL => 9,
        ArchRelocationType::R_X86_64_32 => 10,
        ArchRelocationType::R_X86_64_32S => 11,
        ArchRelocationType::R_X86_64_16 => 12,
        ArchRelocationType::R_X86_64_PC16 => 13,
        ArchRelocationType::R_X86_64_8 => 14,
        ArchRelocationType::R_X86_64_PC8 => 15,
        ArchRelocationType::R_X86_64_PC64 => 24,
    }
}

/// The relocation type that a number names, if it names one.
pub open spec fn type_of_code(code: u32) -> Option<ArchRelocationType> {
    if code == 0 {
        Some(ArchRelocationType::R_X86_64_NONE)
    } else if code == 1 {
        Some(ArchRelocationType::R_X86_64_64)
    } else if code == 2 {
        Some(ArchRelocationType::R_X86_64_PC32)
    } else if code == 3 {
        Some(ArchRelocationType::R_X86_64_GOT32)
    } else if code == 4 {
        Some(ArchRelocationType::R_X86_64_PLT32)
    } else if code == 5 {
        Some(ArchRelocationType::R_X86_64_COPY)
    } else if code == 6 {
        Some(ArchRelocationType::R_X86_64_GLOB_DAT)
    } else if code == 7 {
        Some(ArchRelocationType::R_X86_64_JUMP_SLOT)
    } else if code == 8 {
        Some(ArchRelocationType::R_X86_64_RELATIVE)
    } else if code == 9 {
        Some(ArchRelocationType::R_X86_64_GOTPCREL)
    } else if code == 10 {
        Some(ArchRelocationType::R_X86_64_32)
    } else if code == 11 {
        Some(ArchRelocationType::R_X86_64_32S)
    } else if code == 12 {
        Some(ArchRelocationType::R_X86_64_16)
    } else if code == 13 {
        Some(ArchRelocationType::R_X86_64_PC16)
    } else if code == 14 {
        Some(ArchRelocationType::R_X86_64_8)
    } else if code == 15 {
        Some(ArchRelocationType::R_X86_64_PC8)
    } else if code == 24 {
        Some(ArchRelocationType::R_X86_64_PC64)
    } else {
        None
    }
}

impl vstd::std_specs::convert::TryFromSpecImpl<u32> for ArchRelocationType {
    open spec fn obeys_try_from_spec() -> bool {
        true
    }

    open spec fn try_from_spec(value: u32) -> Result<ArchRelocationType, u32> {
        match type_of_code(value) {
            Some(reloc_type) => Ok(reloc_type),
            None => Err(value),
        }
    }
}

impl TryFrom<u32> for ArchRelocationType {
    type Error = u32;

    /// The relocation type that a number names, or the number itself where it names
    /// none.
    fn try_from(value: u32) -> (reloc_type: Result<ArchRelocationType, u32>) {
        match value {
            0 => Ok(ArchRelocationType::R_X86_64_NONE),
            1 => Ok(ArchRelocationType::R_X86_64_64),
            2 => Ok(ArchRelocationType::R_X86_64_PC32),
            3 => Ok(ArchRelocationType::R_X86_64_GOT32),
            4 => Ok(ArchRelocationType::R_X86_64_PLT32),
            5 => Ok(ArchRelocationType::R_X86_64_COPY),
            6 => Ok(ArchRelocationType::R_X86_64_GLOB_DAT),
            7 => Ok(ArchRelocationType::R_X86_64_JUMP_SLOT),
            8 => Ok(ArchRelocationType::R_X86_64_RELATIVE),
            9 => Ok(ArchRelocationType::R_X86_64_GOTPCREL),
            10 => Ok(ArchRelocationType::R_X86_64_32),
            11 => Ok(ArchRelocationType::R_X86_64_32S),
            12 => Ok(ArchRelocationType::R_X86_64_16),
            13 => Ok(ArchRelocationType::R_X86_64_PC16),
            14 => Ok(ArchRelocationType::R_X86_64_8),
            15 => Ok(ArchRelocationType::R_X86_64_PC8),
            24 => Ok(ArchRelocationType::R_X86_64_PC64),
            _ => Err(value),
        }
    }
}

impl vstd::std_specs::convert::FromSpecImpl<ArchRelocationType> for u32 {
    open spec fn obeys_from_spec() -> bool {
        true
    }

    open spec fn from_spec(reloc_type: ArchRelocationType) -> u32 {
        type_code(reloc_type)
    }
}

impl From<ArchRelocationType> for u32 {
    /// The number by which a file names a relocation type.
    fn from(reloc_type: ArchRelocationType) -> (code: u32) {
        match reloc_type {
            ArchRelocationType::R_X86_64_NONE => 0,
            ArchRelocationType::R_X86_64_64 => 1,
            ArchRelocationType::R_X86_64_PC32 => 2,
            ArchRelocationType::R_X86_64_GOT32 => 3,
            ArchRelocationType::R_X86_64_PLT32 => 4,
            ArchRelocationType::R_X86_64_COPY => 5,
            ArchRelocationType::R_X86_64_GLOB_DAT => 6,
            ArchRelocationType::R_X86_64_JUMP_SLOT => 7,
            ArchRelocationType::R_X86_64_RELATIVE => 8,
            ArchRelocationType::R_X86_64_GOTPCREL => 9,
            ArchRelocationType::R_X86_64_32 => 10,
            ArchRelocationType::R_X86_64_32S => 11,
            ArchRelocationType::R_X86_64_16 => 12,
            ArchRelocationType::R_X86_64_PC16 => 13,
            ArchRelocationType::R_X86_64_8 => 14,
            ArchRelocationType::R_X86_64_PC8 => 15,
            ArchRelocationType::R_X86_64_PC64 => 24,
        }
    }
}

/// A number names a relocation type exactly when it is the number of that type.
pub proof fn law_type_codes(code: u32, reloc_type: ArchRelocationType)
    ensures
        type_of_code(code) == Some(reloc_type) <==> type_code(reloc_type) == code,
{
}

/// The numbers of the types that are told apart when relocations are applied, and
/// which numbers name a type at all.
pub proof fn law_type_numbers(code: u32)
    ensures
        type_of_code(code) is Some <==> code <= 15 || code == 24,
        code == 0 <==> type_of_code(code) == Some(ArchRelocationType::R_X86_64_NONE),
        code == 1 <==> type_of_code(code) == Some(ArchRelocationType::R_X86_64_64),
        code == 2 <==> type_of_code(code) == Some(ArchRelocationType::R_X86_64_PC32),
        code == 3 <==> type_of_code(code) == Some(ArchRelocationType::R_X86_64_GOT32),
        code == 4 <==> type_of_code(code) == Some(ArchRelocationType::R_X86_64_PLT32),
        code == 5 <==> type_of_code(code) == Some(ArchRelocationType::R_X86_64_COPY),
        code == 6 <==> type_of_code(code) == Some(ArchRelocationType::R_X86_64_GLOB_DAT),
        code == 7 <==> type_of_code(code) == Some(ArchRelocationType::R_X86_64_JUMP_SLOT),
        code == 8 <==> type_of_code(code) == Some(ArchRelocationType::R_X86_64_RELATIVE),
        code == 9 <==> type_of_code(code) == Some(ArchRelocationType::R_X86_64_GOTPCREL),
        code == 10 <==> type_of_code(code) == Some(ArchRelocationType::R_X86_64_32),
        code == 11 <==> type_of_code(code) == Some(ArchRelocationType::R_X86_64_32S),
        code == 12 <==> type_of_code(code) == Some(ArchRelocationType::R_X86_64_16),
        code == 13 <==> type_of_code(code) == Some(ArchRelocationType::R_X86_64_PC16),
        code == 14 <==> type_of_code(code) == Some(ArchRelocationType::R_X86_64_8),
        code == 15 <==> type_of_code(code) == Some(ArchRelocationType::R_X86_64_PC8),
        code == 24 <==> type_of_code(code) == Some(ArchRelocationType::R_X86_64_PC64),
{
}

} // verus!
