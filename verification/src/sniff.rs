//! Bitstream syntax discovery: the code unit of a byte range, and the counts
//! that its syntax is judged by.
pub mod alphabet;
pub mod fold;
pub mod brace;
pub mod scalar;
pub mod encodings;
pub mod evidence;
pub mod laws;
pub mod lines;
pub mod ngram;
pub mod profile;
pub mod sample;
pub mod admission;
pub mod stream;
pub mod report;
