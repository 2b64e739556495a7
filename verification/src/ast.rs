//! Abstract syntax shared by the stages of the toolchain.

pub mod types;
