//! Scoring of freehand character drawings against a reference glyph.
//!
//! The crate holds the image pipeline on plain rasters, leaf first:
//!
//! - `raster`: addressing of row-major rasters and counting of foreground;
//! - `morphology`: dilation and erosion with the 3x3 structuring element;
//! - `distance`: the chamfer distance field;
//! - `thinning`: Zhang-Suen thinning to a skeleton;
//! - `endpoints`, `line`, `bridging`, `pruning`: the clean-up of a skeleton;
//! - `normalize`: strokes of a fixed thickness;
//! - `gray`, `extract`: grayscale images, and the character cut out of one;
//! - `scoring`, `rating`, `pipeline`: the three measures and the final score;
//! - `codec`, `reference`, `error`: decoding, the reference image, failures.
//!
//! Distances are kept in thousandths of a pixel and shares as exact
//! fractions, so every function is stated and proved over integers. The one
//! step that needs floating point, the exponential in stroke similarity, is
//! left to the caller: `scoring` hands out its argument as a fraction and
//! takes its value back as one.

pub mod bridging;
pub mod codec;
pub mod distance;
pub mod endpoints;
pub mod error;
pub mod extract;
pub mod gray;
pub mod line;
pub mod morphology;
pub mod normalize;
pub mod pipeline;
pub mod pruning;
pub mod raster;
pub mod rating;
pub mod reference;
pub mod scoring;
pub mod thinning;
