//! A point-cloud library built around three pieces: a composite ("glued")
//! cloud that stitches several physical point sources into one logical index
//! space, mergeable label summaries whose merge is order-independent, and a
//! bounded coverage-index plugin that attaches the covered point indexes to
//! every node of an externally built cover tree, children before parents.

pub mod cloud;
pub mod errors;
pub mod glued;
pub mod plugins;
pub mod seqs;
pub mod small_cat;
pub mod string_summary;
pub mod summary;
