//! Waveform summarization and viewport engine for an audio display.
//!
//! The engine precomputes min/max peak summaries ("mipmaps") of an audio
//! sample buffer so that any zoom level can be drawn in near-constant time,
//! and maintains a viewport cursor that keeps the visible time window valid
//! under pan and zoom input.
//!
//! All quantities are integers: sample amplitudes are fixed-point values
//! chosen by the caller, peak times are sample frame indices, and cursor
//! times are integer ticks in a caller-chosen unit. A GUI layer converts
//! its floating-point coordinates at the boundary.

pub mod time_cursor;
pub mod waveform_data;
pub mod waveform_mipmap;

pub use waveform_data::WaveformData;
pub use waveform_data::MIN_TIER_POINTS;
pub use waveform_mipmap::FrameRange;
pub use waveform_mipmap::PeakPoint;
pub use waveform_mipmap::WaveformMipmap;
pub use waveform_mipmap::AMPLITUDE_LIMIT;
pub use time_cursor::TimeCursor;
pub use time_cursor::TimeRange;
pub use time_cursor::FACTOR_LIMIT;
pub use time_cursor::MIN_SIZE_LIMIT;
pub use time_cursor::TIME_LIMIT;
pub use time_cursor::ZOOM_SAT_LIMIT;
