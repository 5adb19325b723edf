//! Pixel sorting: scanlines of an RGBA8 image are split into segments by a
//! selection predicate over a per-pixel context value, and each segment is
//! reordered by a sort key and written back in place.
//!
//! Per-pixel properties (luminance, hue, saturation) are computed by the caller
//! and handed in as order-preserving `u32` context keys.

pub mod cancellation;
pub mod feedback;
pub mod immediate;
pub mod options;
pub mod orientation;
pub mod pixel;
pub mod prepared;
pub mod randomize;
pub mod scanner;
pub mod sorting;
pub mod utilities;
