//! Word segmentation adapter: turns the character spans of a dictionary
//! segmenter into byte-offset tokens that slice the original text.

pub mod offsets;
pub mod token;
pub mod tokenizer;
pub mod laws;
