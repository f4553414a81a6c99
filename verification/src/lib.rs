//! Nussinov-style RNA secondary-structure prediction.
//!
//! The library validates a nucleotide sequence, fills a triangular scoring
//! matrix with the maximal base-pair count of every sub-interval together
//! with every tied recurrence choice, enumerates all optimal structures by
//! a memoized traceback, and renders each structure as a dot-bracket string.

pub mod matrix;
pub mod matrix_builder;
pub mod nussinov;
pub mod path_converter;
pub mod settings;
pub mod traceback_paths;
