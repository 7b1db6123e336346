//! Verified combinatorial core of a Bézier curve and triangle toolkit.
//!
//! The numeric kernels (evaluation, subdivision, Newton steps, quadrature)
//! work on floating-point data and live outside this library; the pieces here
//! are the integer and decision logic that those kernels are driven by.

pub mod status;
pub mod hull;
pub mod chain;
pub mod hull_geometry;
pub mod orientation;
pub mod triangle;
pub mod intersection;
pub mod curve;
pub mod validate;
