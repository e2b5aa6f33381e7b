//! The commands that change the registry, and the dispatcher that applies
//! them one at a time.

pub mod command;
pub mod ctl;
pub mod offscreen;
