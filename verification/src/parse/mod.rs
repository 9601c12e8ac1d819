//! From filenames to structured fields. Pure: nothing here touches a disk.

pub mod episode_names;
pub mod extractors;
pub mod markers;
pub mod mask;
pub mod model;
pub mod movie;
pub mod movie_tags;
pub mod movie_words;
pub mod music;
pub mod normalize;
pub mod parser;
pub mod render;
pub mod round_trip;
pub mod tags;
pub mod tokens;
pub mod tv;
pub mod vocab;
pub mod words;

pub use extractors::{split_copy_suffix, CopyNumberExtractor};
pub use model::{MediaParse, ParseOptions, ParsedEpisode, ParsedMovie, ParsedTrack};
pub use music::parse_track_filename;
pub use parser::{parse_movie, parse_movie_filename};
pub use tv::parse_episode_filename;
