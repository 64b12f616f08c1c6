//! Intensity-based image segmentation and silhouette extraction.
//!
//! The crate works on a rectangular grid of 8-bit intensity values.  A
//! k-means-style segmenter clusters the pixels by intensity and rewrites the
//! grid so that every pixel carries its cluster's representative intensity;
//! a boundary scan then finds eight extremal foreground coordinates that
//! describe the silhouette of the non-background region.

pub mod bounds;
pub mod grid;
pub mod kmeans;
