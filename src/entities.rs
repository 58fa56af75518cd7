//! Records of the tracking database: targets (nodes), issues (tickets)
//! and the comments attached to issues.
pub mod comment;
pub mod issue;
pub mod target;
