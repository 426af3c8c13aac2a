//! Bakes one unlit composite texture per material from its base-color,
//! occlusion and emissive channel maps.
//!
//! For each material the work runs in three stages:
//!
//! 1. [`loader`] decides which channel maps there are to read and turns a
//!    map that cannot be had into a warning;
//! 2. [`compositor`] checks that the loaded maps share one size
//!    ([`dimensions`]) and composes them: the base color scaled by its
//!    factor, darkened by the occlusion map, brightened by the emissive map;
//! 3. [`sink`] names the output file and lays out its bytes, and [`report`]
//!    records what became of each material.
//!
//! Reading, decoding, encoding and writing files is left to the caller, who
//! hands over and takes back plain rasters ([`raster`]). Factors are
//! single-precision numbers and are computed with as such ([`binary32`],
//! [`rounding`]).

pub mod binary32;
pub mod compositor;
pub mod dimensions;
pub mod loader;
pub mod material;
pub mod options;
pub mod raster;
pub mod report;
pub mod rounding;
pub mod sink;
pub mod text;
