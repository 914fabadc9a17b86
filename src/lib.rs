//! Approximate phrase search over lines of text.
//!
//! A line is cut into whitespace-separated words, ASCII punctuation is taken
//! out of every word, and each run of consecutive words as long as a phrase is
//! compared with that phrase by Levenshtein distance over `char`s.
pub mod distance;
pub mod json;
pub mod matcher;
pub mod scan;
pub mod tokenize;
