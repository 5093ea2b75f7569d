//! Spelling correction: candidate generation by single-character edits,
//! filtering against a known vocabulary and ranking by corpus frequency.

pub mod word_set;
pub mod edits;
pub mod frequency;
pub mod select;
pub mod text;
