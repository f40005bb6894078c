//! Genomics binary-format components: the rANS Nx16 entropy decoder used by
//! CRAM data blocks, and small BAM/SAM/VCF/BCF record codecs.

pub mod cursor;
pub mod rans_nx16;
pub mod bam;
pub mod sam;
pub mod bcf;
pub mod vcf;
pub mod bgzf;
