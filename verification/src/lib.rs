//! Groups positioned words into lines and text segments, and extracts the
//! monetary amounts written in them.

pub mod indexers;
pub mod models;
pub mod partitioners;
pub mod processor;
pub mod test_utils;
