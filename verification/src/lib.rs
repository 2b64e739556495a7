//! Lexical front end for the WebAssembly text format, with the part of the
//! abstract module model that the front end shares with later stages.

pub mod ast;
pub mod code;
pub mod text;
