//! BAM record components.

pub mod data_field;
pub mod quality_scores;
pub mod record_writer;
pub mod sequence;
