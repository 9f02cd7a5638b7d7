//! Verified core of a code-reading assistant: configuration handling, path
//! normalisation, file hashing, import extraction, scoring inputs and the
//! orderings used to present indexed files.

pub mod text;
pub mod scorer;
pub mod paths;
pub mod index;
pub mod config;
pub mod matching;
pub mod parser;
pub mod scan;
pub mod ranking;
pub mod note;
pub mod git;
