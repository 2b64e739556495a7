//! Types of the abstract syntax that hold no values.

use vstd::prelude::*;

verus! {

/// The size range of a memory or a table: at least `min`, and at most `max`
/// where one is given.
#[derive(Debug, Clone, Copy, PartialEq, Eq)]
pub struct Limits {
    pub min: u32,
    pub max: Option<u32>,
}

/// The type of a linear memory.
#[derive(Debug, Clone, Copy, PartialEq, Eq)]
pub struct MemType {
    pub limits: Limits,
}

/// Whether a global may be written after its initialisation.
#[derive(Debug, Clone, Copy, PartialEq, Eq)]
pub enum Mut {
    Const,
    Var,
}

} // verus!
