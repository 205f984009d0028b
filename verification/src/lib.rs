//! A layered configuration store.
//!
//! Several configuration sources, each tagged with a priority level, are
//! composed into one logical key/value view. Reads resolve a name to the
//! value of the most authoritative source that defines it; writes land in
//! the most authoritative source of the store.

pub mod error;
pub mod level;
pub mod glob;
pub mod name;
pub mod value;
pub mod model;
pub mod table;
pub mod source;
pub mod config;
pub mod snapshot;
pub mod laws;
pub mod cert;
pub mod paths;
