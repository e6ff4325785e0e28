//! Level-of-detail engine for dense pointer-motion sample streams.
//!
//! - [`mouse_event`], [`parser`], [`capture`]: samples, and how they are
//!   read from a USB capture stream.
//! - [`segment`]: regression-mode segmentation of the sample range.
//! - [`view`], [`engine`]: the regression-mode view resolver and the state
//!   that caches its result.
//! - [`bucketed`]: the bucketed-extrema resolver.
//! - [`tree`]: the segment tree and its view traversal.

pub mod mouse_event;
pub mod parser;
pub mod capture;
pub mod segment;
pub mod view;
pub mod engine;
pub mod bucketed;
pub mod tree;
