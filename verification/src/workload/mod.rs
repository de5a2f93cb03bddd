//! Where the keys of a run come from.

pub mod arc_preset;
pub mod file;
pub mod rows;
pub mod twitter_texts;
pub mod zst;
