//! Decimal rendering of arbitrary-precision floating-point values.

pub mod decimal;
pub mod notation;
pub mod render;
pub mod value;
