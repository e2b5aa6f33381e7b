//! Value types shared by the whole library.

pub mod rect;
pub mod region;
pub mod rockchip_ebc;
pub mod stacking;
pub mod visibility;
pub mod ztree;

pub use rect::Rect;
