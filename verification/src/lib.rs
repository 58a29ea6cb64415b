//! Editing the times of subtitle tracks in the SubRip text format.
//!
//! A track is decoded from text into entries, re-timed, and encoded again. Two
//! operations re-time a track: moving every entry by a constant offset, and
//! synchronizing the track with a reference track, segment by segment, between
//! alignment points. Times are whole milliseconds in 64 bits.

/// Alignment points: reading them and bringing them in order.
pub mod alignment;
/// One command on a track: an offset or a synchronization.
pub mod command;
/// The two operations on tracks, and what holds of them.
pub mod operations;
/// Entries, the decoder and the encoder of the text format.
pub mod subtitles;
/// Characters, lines and numerals.
pub mod text;
