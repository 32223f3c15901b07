//! A phishing-simulation engine: campaign dispatch with link tracking,
//! open/click interaction recording, and analytics rollups, all modeled
//! over an in-memory datastore with verified invariants.

pub mod analytics;
pub mod config;
pub mod dispatch;
pub mod domain;
pub mod rewrite;
pub mod store;
pub mod tracking;
pub mod text;
