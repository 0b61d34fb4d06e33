//! Phrase detection over message text.

pub mod patterns;
