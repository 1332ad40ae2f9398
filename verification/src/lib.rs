//! Verified core of a video transcription tool: media container checks,
//! voice-activity segmentation and chunking, SRT parsing, subtitle
//! timestamp formatting and transcript assembly.

pub mod text;
pub mod decimal;
pub mod number;
pub mod timestamp;
pub mod srt;
pub mod timefmt;
pub mod vad;
pub mod media;
pub mod transcript;
pub mod session;
pub mod roundtrip;
