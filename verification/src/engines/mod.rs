//! The two matching engines.

pub mod auction;
pub mod auction_laws;
pub mod batch_laws;
pub mod cda;
pub mod cda_laws;
pub mod fba;
pub mod fba_laws;
pub mod fill_laws;
pub mod ladder;
pub mod legs;
pub mod match_laws;
pub mod plain;
