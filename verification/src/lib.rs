//! A t-digest: a mergeable sketch of a stream of weighted samples from which
//! approximate quantiles are read.
//!
//! The digest (`digest`) keeps weighted centroids (`centroid`). To compress
//! itself it sorts them by mean (`sorting`) and merges them in two passes
//! (`compress`); to answer a query it interpolates between them (`query`).
//! What holds across its operations is stated and proved in `laws`.
//!
//! All arithmetic is IEEE 754 binary32 and binary64, carried out on bit
//! patterns. `ieee` says what a pattern denotes and which pattern a result
//! rounds to, `soft` computes the results with integer instructions, and
//! `scalar` wraps them in the types `F32` and `F64`. `rounding`, `sign`,
//! `order` and `exact` hold facts about the arithmetic, and `power` the
//! powers of two beneath it.

pub mod centroid;
pub mod compress;
pub mod digest;
pub mod exact;
pub mod ieee;
pub mod laws;
pub mod order;
pub mod power;
pub mod query;
pub mod rounding;
pub mod scalar;
pub mod sign;
pub mod soft;
pub mod sorting;

pub use centroid::Centroid;
pub use digest::{Config, Quantiles, TDigest, TDigestBuilder};
pub use scalar::{F32, F64};
