//! Normalization of source code taken from notebook cells, character
//! 3-gram profiles and their cosine similarity, and the decisions of the
//! submission-similarity report.
pub mod chars;
pub mod lexing;
pub mod normalize;
pub mod sums;
pub mod profile;
pub mod similarity;
pub mod notebook;
pub mod report;
pub mod boilerplate;
