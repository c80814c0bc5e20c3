//! Errors.
use vstd::prelude::*;

verus! {

/// Why a module could not be loaded.
#[derive(Debug, Clone, Copy, PartialEq, Eq, Structural)]
pub enum ModuleErr {
    /// The module is not in a form that can be executed.
    ENOEXEC,
}

} // verus!
