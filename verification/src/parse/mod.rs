//! Reading and writing records as they stand in a file.

pub mod raw;
pub mod untyped;
