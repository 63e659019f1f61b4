//! Definitions and the registries over them, and what a running recipe reads.

pub mod bridge;
pub mod defs;
pub mod inspect;
pub mod loader;
pub mod lookup_laws;
pub mod recipe;
pub mod vm;
