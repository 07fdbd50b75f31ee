//! A linker for SPIR-V modules.
//!
//! Modules that export functions and variables are joined with modules that import
//! them. [`link`](link::link) takes modules, [`link_bytes`](link::link_bytes) takes
//! binaries.
//!
//! The contracts speak of a model of SPIR-V modules (`model`), and `rspirv` reads,
//! writes and sorts the instructions (`bridge`, `convert`, `load`). What each step
//! of linking does to a module is a function on the model: moving ids apart and
//! renumbering them (`rename`), dropping what occurs more than once (`dedup`,
//! `types`), matching imports with exports (`symbols`, `signature`), taking the
//! imports out (`linkage`, `sweep`) and ordering the declarations (`globals`).
//!
//! What follows from this stands in proof functions: what loading, merging modules
//! and merging declarations leave of a module (`sections`, `joining`, `merging`), what
//! the other steps do to its instructions and ids (`effects`, `ids`), which symbols are
//! matched (`pairing`), which modules can be linked (`readable`), what of the modules is
//! in the linked one (`preserved`), and what else holds of linking as a whole (`laws`).

pub mod bridge;
pub mod convert;
pub mod dedup;
pub mod defs;
pub mod effects;
pub mod error;
pub mod globals;
pub mod ids;
pub mod joining;
pub mod laws;
pub mod link;
pub mod linkage;
pub mod load;
pub mod merging;
pub mod model;
pub mod opcode;
pub mod pairing;
pub mod preserved;
pub mod readable;
pub mod rename;
pub mod sections;
pub mod signature;
pub mod sweep;
pub mod symbols;
pub mod types;

pub use error::LinkerError;
pub use link::{link, link_bytes, try_link, try_link_bytes};
pub use linkage::Options;
pub use load::{load, load_words, try_load, try_load_words};
pub use model::{SpvBlock, SpvFunction, SpvInst, SpvModule, SpvOperand};
