//! Integer geometry and paper sizes.

pub mod irect;
pub mod paper;
