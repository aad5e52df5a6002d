//! Compilation-database command patching: shell-style tokenizing and
//! escaping of command strings, source-language classification, and
//! deterministic resolution of a toolchain's implicit include directories
//! through a cached, reduced probe invocation of the compiler.
//!
//! The library holds the logic alone: reading and writing the database
//! file and spawning the probe process are left to its callers, which hand
//! the probe's captured diagnostics back in.

pub mod strutil;
pub mod lang;
pub mod codec;
pub mod resolver;
pub mod patch;
