//! VCF components.

pub mod header;
pub mod indexed_reader;
pub mod record;
