//! Verified core of a video-trimming tool: parsing of human-readable time
//! expressions, validation of trim ranges, and formatting of the timestamp
//! arguments handed to an external transcoder.

pub mod args;
pub mod duration;
pub mod ffmpeg;
pub mod parser;

pub use args::Args;
pub use duration::Duration;
pub use ffmpeg::derive_output;
pub use parser::parse_time;
pub use parser::validate_range;
