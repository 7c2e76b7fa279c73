//! A session with one engine of either kind for a single pair, measured from
//! the first order on.

pub mod asset_commands;
pub mod cda_simulator;
pub mod command_laws;
pub mod commands;
pub mod display;
pub mod fba_simulator;
pub mod loader;
pub mod run_laws;
