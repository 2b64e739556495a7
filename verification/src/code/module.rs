//! The sections of a module that refer to other definitions by index only.

use vstd::prelude::*;
use crate::ast::types::MemType;

verus! {

/// Index of a function type in a module.
pub type TypeIndex = u32;

/// Index of a function in a module.
pub type FuncIndex = u32;

/// Index of a table in a module.
pub type TableIndex = u32;

/// Index of a memory in a module.
pub type MemIndex = u32;

/// Index of a global in a module.
pub type GlobalIndex = u32;

/// Index of a local in a function.
pub type LocalIndex = u32;

/// Index of a label, counted outwards from the innermost block.
pub type LabelIndex = u32;

/// A table definition.
#[derive(Debug, Clone, Copy, PartialEq, Eq)]
pub struct Table {
}

/// A memory definition.
#[derive(Debug, Clone, Copy, PartialEq, Eq)]
pub struct Memory {
    pub memtype: MemType,
}

/// The function that runs when the module is instantiated.
#[derive(Debug, Clone, Copy, PartialEq, Eq)]
pub struct Start {
    pub func: FuncIndex,
}

/// A definition taken from another module.
#[derive(Debug, Clone, PartialEq, Eq)]
pub struct Import {
    pub module: String,
    pub name: String,
    pub desc: ExportDesc,
}

/// What an import provides.
#[derive(Debug, Clone, Copy, PartialEq, Eq)]
pub enum ImportDesc {
    Func(FuncIndex),
    Table(TableIndex),
    Mem(MemIndex),
    Global(GlobalIndex),
}

/// A definition offered to other modules under `name`.
#[derive(Debug, Clone, PartialEq, Eq)]
pub struct Export {
    pub name: String,
    pub desc: ExportDesc,
}

/// What an export offers.
#[derive(Debug, Clone, Copy, PartialEq, Eq)]
pub enum ExportDesc {
    Func(FuncIndex),
    Table(TableIndex),
    Mem(MemIndex),
    Global(GlobalIndex),
}

} // verus!
