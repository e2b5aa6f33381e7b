//! What the driver's parameter files hold, as text.

pub mod attribute;
