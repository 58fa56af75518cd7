//! Reconciliation of a node-tracking database with the live state of a
//! batch scheduler: state interpretation, desired-state resolution over
//! tickets and topology, and the transition machine that merges them.
pub mod cluster;
pub mod effects;
pub mod entities;
pub mod facts;
pub mod query;
pub mod store;
pub mod sync;
pub mod text;
