//! Detailed metadata extraction for torrent titles: regional audio and
//! subtitle languages, technical audio/HDR/channel labels and the
//! bracketed blocks that carry them.

pub mod matching;
pub mod text;
pub mod language;
pub mod fields;
pub mod blocks;
pub mod patterns;
pub mod details;
pub mod technical;
pub mod languages;
pub mod apply;
pub mod error;
pub mod laws;
pub mod rules;

pub use error::ParseError;
