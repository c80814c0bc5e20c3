//! Architecture support for loading kernel modules.
pub mod bits;
pub mod bytes;
pub mod common;
pub mod error;
pub mod memory;
pub mod object;
pub mod prepare;
pub mod ptr;
pub mod search;
pub mod x86_64;
