//! Verified core of a batch name-resolution pipeline.
//!
//! Candidate names are expanded with suffixes, grouped into bounded batches
//! for a remote lookup service, and the resolved 128-bit identifiers are
//! filtered against an ignore index and appended to an output sink, while
//! three monotone counters track progress.

pub mod aggregate;
pub mod ident;
pub mod ignore;
pub mod model;
pub mod normalize;
pub mod plan;
pub mod resolver;
pub mod status;
