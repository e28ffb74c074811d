//! Core of a package manager for a dependency-typed functional language.
//!
//! The library covers the three tightly coupled subsystems of the tool:
//! the layered build-job graph and its executor, the content-addressed
//! build cache fingerprints (`BuildHash`), and the dependency resolver's
//! incompatibility derivation. Filesystem, network, subprocess and TOML
//! work is left to the embedding program, which hands the library plain
//! values and receives plain values back.

pub mod cache;
pub mod constraint;
pub mod error;
pub mod graph;
pub mod hash;
pub mod job;
pub mod lockfile;
pub mod manifest;
pub mod package;
pub mod retrieve;
pub mod scaffold;
pub mod strutil;
pub mod target;
pub mod version;
