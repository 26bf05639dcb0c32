//! Storage and query core of an archetype-based entity-component system.
//!
//! Entities of identical component shape live together in an [`archetype::Archetype`]:
//! a column-major table with one column per component type. Every column keeps
//! epoch versions at three granularities (column, 256-row chunk, row) so that
//! change-tracking queries can skip unmodified data in bulk. Component payloads
//! and type identities are held as plain 64-bit words; the surrounding engine
//! maps concrete component types onto them.

pub mod archetype;
pub mod bundle;
pub mod query;
pub mod typeidset;
