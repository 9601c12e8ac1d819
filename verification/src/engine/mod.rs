//! From a scanned tree to a plan, and from a plan to moved files.

pub mod associate;
pub mod calendar;
pub mod classify;
pub mod cluster;
pub mod common_sidecars;
pub mod copies;
pub mod dates;
pub mod default_names;
pub mod draft;
pub mod exec;
pub mod group;
pub mod groups;
pub mod journal;
pub mod layout;
pub mod music_group;
pub mod music_plan;
pub mod music_resolve;
pub mod music_route;
pub mod order;
pub mod places;
pub mod planner;
pub mod policy;
pub mod probe_stage;
pub mod reconcile;
pub mod render;
pub mod resolve;
pub mod route;
pub mod scan;
pub mod settling;
pub mod sidecars;
pub mod stages;
pub mod tally;
pub mod tv_group;
pub mod tv_plan;
pub mod tv_resolve;
pub mod tv_route;
pub mod validate;
