//! Loading x86-64 modules.
use crate::common::ModSection;
use vstd::prelude::*;

pub mod reloc_type;
pub mod relocate;
pub mod relocation;
pub mod sections;
pub mod sequence;

verus! {

/// The tables of an x86-64 module.
#[derive(Debug, Clone, Copy, PartialEq, Eq, Structural)]
pub struct ModuleArchSpecific {
    pub got: ModSection,
}

impl Default for ModuleArchSpecific {
    fn default() -> (arch: ModuleArchSpecific)
        ensures
            arch.got == (ModSection { shndx: 0, num_entries: 0, max_entries: 0 }),
    {
        ModuleArchSpecific { got: ModSection::default() }
    }
}

} // verus!
