//! Media library organiser: the decisions behind scanning, naming, planning
//! and carrying out a reorganisation of a media library, each stated as a
//! contract and proved.

pub mod clock;
pub mod domain;
pub mod engine;
pub mod hashing;
pub mod parse;
pub mod pattern;
pub mod text;
pub mod unicode;
