//! Parsing of WebVTT subtitle documents into timed cues, and the choice of
//! the subtitle file that belongs to a media file.

pub mod text;
pub mod duration;
pub mod vtt;
pub mod vtt_locator;
pub mod cue_laws;
