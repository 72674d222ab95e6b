//! Classifier for the textual output of a `pkg-config`-style library
//! discovery tool.
//!
//! The crate turns the flat token stream of a "static link flags" query into
//! an ordered, deduplicated sequence of typed linker directives, tracking
//! `--whole-archive` regions and deciding per library whether a local static
//! archive is used or the system linker resolves it.  A second, independent
//! pass classifies "compile flags" output into header search paths and macro
//! definitions.
//!
//! Ordering is semantically significant to a linker, so both classifiers
//! preserve the relative order of the first structurally significant
//! appearance of every entry; repeated mentions of a library are merged into
//! one entry whose link kind may only be upgraded, never downgraded.

pub mod buildflags;
pub mod flags;
pub mod parser;
pub mod paths;
pub mod text;

pub use flags::CompilerFlag;
pub use flags::LinkKind;
pub use flags::LinkerFlag;
pub use flags::to_cargo_directives;
pub use flags::to_clang_args;
pub use parser::PkgConfig;
pub use parser::PkgConfigParser;
