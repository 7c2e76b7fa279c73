//! Engines for one fixed pair.

pub mod clearing;
pub mod continuous;
