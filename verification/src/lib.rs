//! A verified FASTQ read filter.
//!
//! The library filters FASTQ records by a quality score embedded in the
//! record header and by a minimum sequence length, optionally splitting
//! reads at an adapter position found by local alignment.  Input is a
//! line-oriented byte stream, possibly gzip-compressed; output is a
//! gzip-compressed stream of the surviving records.

pub mod align;
pub mod filter;
pub mod gzip;
pub mod pipeline;
pub mod quality;
pub mod record;
