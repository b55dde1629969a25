//! A file-integrity monitoring engine: watch-subscription bookkeeping,
//! event classification and the change-detection rules of an audit trail.

pub mod path;
pub mod diff;
pub mod store;
pub mod registry;
pub mod app;
pub mod session;
