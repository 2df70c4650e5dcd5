//! Subtitle generation library: SRT/ASS reading and writing, text
//! segmentation, word alignment and correction rules.
pub mod text;
pub mod num;
pub mod float;
pub mod json;
pub mod srt;
pub mod align;
pub mod matching;
pub mod unicode;
pub mod ass;
pub mod band;
pub mod corrections;
pub mod setup;
pub mod tools;
pub mod pipeline;
pub mod ffmpeg;
pub mod whisper;
pub mod commands;
pub mod srt_laws;
