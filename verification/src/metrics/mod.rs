//! What happened over time: the event log of a replay, cut into intervals.

pub mod collector;
pub mod emission_laws;
pub mod events;
pub mod arrivals;
pub mod facts;
pub mod flushing_laws;
pub mod grid;
pub mod order_laws;
pub mod orders;
pub mod price_laws;
pub mod recorder_laws;
pub mod report;
pub mod row_laws;
pub mod series;
pub mod timeseries;
pub mod timeseries_laws;
