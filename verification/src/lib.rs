//! A record, identity and index engine over a content-addressed store.
//!
//! Records are kept as immutable revisions. Each logical record has one stable
//! identity that outlives its revisions, and records are related to one another
//! by labelled edges that are always written in reciprocal pairs.
pub mod address;
pub mod error;
pub mod identity;
pub mod local_indexes;
pub mod planning;
pub mod queries;
pub mod reconcile;
pub mod records;
pub mod remote_indexes;
pub mod store;
pub mod typed_addresses;
