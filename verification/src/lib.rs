//! Synchronisation of localised message catalogs.
//!
//! A family of catalogs, one per language, grows out of one base catalog. For
//! each target language the library finds the entries that the base holds and
//! the target lacks, has their texts translated one request at a time, and
//! appends the translated entries to the target.

pub mod entry;
pub mod files;
pub mod index;
pub mod job;
pub mod language;
pub mod laws;
pub mod startup;
pub mod sync;
pub mod usage;
