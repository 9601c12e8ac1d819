//! The domain model: fields with provenance, identities, paths, templates,
//! plans, reports, configuration and the file system interface.

pub mod classify;
pub mod config;
pub mod duplicate;
pub mod error;
pub mod fs;
pub mod identity;
pub mod names;
pub mod path;
pub mod path_order;
pub mod path_text;
pub mod plan;
pub mod provenance;
pub mod run_id;
pub mod spelling;
pub mod template;
pub mod volume;
