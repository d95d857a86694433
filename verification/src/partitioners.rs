//! Grouping of words by their geometry.

pub mod line;
pub mod line_laws;
pub mod line_segment;
pub mod line_segment_laws;
