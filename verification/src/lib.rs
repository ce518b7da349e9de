//! Per-position base-call quality statistics for sequencing runs.
//!
//! The library aggregates per-record quality scores into per-position
//! frequency histograms, derives exact five-number summaries (Tukey fences,
//! quartiles, median) from each histogram by a rank-based order-statistics
//! algorithm, and folds the per-position medians into a pass/warn/fail
//! verdict.
//!
//! Every quantity the engine produces is an exact multiple of one eighth of
//! a quality score, so summaries are computed and stated in integer
//! fixed-point arithmetic: a field holding `v` eighths denotes the value
//! `v / 8`.

pub mod aggregate;
pub mod classify;
pub mod histogram;
pub mod summary;
