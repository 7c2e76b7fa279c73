#![allow(unused_imports)]

//! Two ways to run a market side by side: a continuous double auction and a
//! frequent batch auction, fed with the same orders and measured alike.

pub mod dates;
pub mod engines;
pub mod inputs;
pub mod lexical;
pub mod metrics;
pub mod multi_asset;
pub mod numerals;
pub mod seqs;
pub mod simulation;
pub mod single_pair;
pub mod sorting;
pub mod tables;
pub mod text;
pub mod text_laws;
pub mod trades;
pub mod types;
