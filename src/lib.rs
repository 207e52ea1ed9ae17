//! A time-indexed model of line-timed lyric transcripts, and the status line built on it.
pub mod lyric;
pub mod status;
pub mod tag;

pub use lyric::Lyrics;
pub use status::{format_duration, get_status_text, parse_track_id, status_line, PlaybackStatus, Session};
