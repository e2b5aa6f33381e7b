//! Rendering-hint arbitration for an electrophoretic display controller.
//!
//! Windows announce a rectangle, a stacking order and an optional rendering
//! hint. The library resolves occlusion between them and produces, for the
//! display driver, one rectangle per visible window together with the hint
//! that applies to it.

pub mod bridge;
pub mod ebc;
pub mod pixel_manager;
pub mod sysfs;
pub mod text;
pub mod types;
