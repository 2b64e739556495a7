//! The abstract module model.

pub mod module;
