//! Shape-based jigsaw-piece edge extraction and matching.
//!
//! The library takes plain square RGB pixel buffers of photographed puzzle
//! pieces, segments the piece from the background, extracts its boundary and
//! per-side edge curves, and searches for the best-matching partner edges by
//! pairwise distance-field scoring and a four-edge loop-closure search.
//! Image decoding, rendering and the interactive review loop live outside the
//! library; it only consumes and produces pixel grids, point lists and ids.

pub mod classify;
pub mod corner;
pub mod dfield;
pub mod edge;
pub mod engine;
pub mod flood;
pub mod geom;
pub mod isolate;
pub mod mask;
pub mod rank;
pub mod rotate;
pub mod score;
pub mod split;
pub mod trace;
