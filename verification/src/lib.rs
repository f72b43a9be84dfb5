//! A minimal runtime's logic: 64-bit division from 32-bit divisions, the
//! memory routines, the static-initializer walk and the entry points' decisions.
use vstd::prelude::*;

pub mod aull;
pub mod entry;
pub mod mem;
pub mod static_init;
