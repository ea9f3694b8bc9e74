//! A data-oriented entity store: records are kept as erased, type-tagged
//! component cells in fixed-capacity segments, addressed through generation
//! tagged handles, and read back through cached, alias-checked projections.

pub mod bundle;
pub mod command;
pub mod component;
pub mod fetch;
pub mod filter;
pub mod iter;
pub mod resources;
pub mod scheduler;
pub mod storage;
pub mod tree;
pub mod world;
