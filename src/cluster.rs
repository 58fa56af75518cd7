//! The cluster: its topology, and what its scheduler reports and is told.
pub mod scheduler;
pub mod topology;
