//! Verified core of a dev-server supervisor: shell quoting and command
//! sanitization, shell candidate resolution, process-tree discovery and
//! kill planning, and TCP port probing over snapshots of OS process and
//! socket listings.
pub mod detection;
pub mod errors;
pub mod json;
pub mod port;
pub mod probe;
pub mod project_info;
pub mod quoting;
pub mod shells;
pub mod strutil;
pub mod tree;
pub mod validation;
