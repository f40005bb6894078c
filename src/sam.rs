//! SAM record and header components.

pub mod cigar;
pub mod base_modifications;
pub mod header;
pub mod parser;
pub mod writer;
