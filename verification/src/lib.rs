//! Depth-aware compositing of placement layers onto video frames.
//!
//! - [`compositor`] composites one layer of creative content onto a base
//!   frame, pixel by pixel, by a depth test and an alpha blend.
//! - [`admission`] decides which calls and which layers are composited at
//!   all, blends the admitted layers by their blend modes, and keeps the
//!   counters.
//! - [`blend`] holds the blend modes.
//! - [`binary32`], [`rounding`] and [`arith`] carry single-precision numbers
//!   as bit patterns and compute on them exactly as IEEE 754 prescribes.
//! - [`frame`] holds the geometry of frames, and [`version`] the version line.

pub mod admission;
pub mod arith;
pub mod binary32;
pub mod blend;
pub mod compositor;
pub mod frame;
pub mod rounding;
pub mod version;

pub use compositor::{composite_segment, composite_with_depth};
pub use frame::validate_frame_size;
pub use version::get_version_info;
