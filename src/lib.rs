//! Byte-pair-encoding vocabulary training.
//!
//! A [`vocabulary::Vocabulary`] is a bounded table of distinct token strings with dense ids;
//! the merge engine in [`merge`] grows it by repeatedly merging the most frequent adjacent
//! pair of symbols in an id sequence.

pub mod vocabulary;
pub mod merge;
