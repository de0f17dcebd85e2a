//! Content-defined chunking: splitting a byte stream into variable-length
//! chunks whose boundaries depend on local content, so that identical regions
//! embedded at shifted offsets are cut at the same places.
//!
//! Three boundary detectors are provided — asymmetric extremum (AE), Rabin
//! polynomial rolling hash, and FastCDC gear hash — behind a common streaming
//! discipline with a bounded working buffer, plus a fixed-size reference
//! chunker and parallel drivers that partition an input across workers and
//! reconcile the boundaries near the seams.

pub mod ae;
pub mod bitops;
pub mod chunker;
pub mod extremum;
pub mod fastcdc;
pub mod fixed;
pub mod laws;
pub mod parallel;
pub mod rabin;
