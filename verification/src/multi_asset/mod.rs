//! Trading in several asset pairs at once: books and batches per pair, pools,
//! and the settlement of what was traded.

pub mod amm;
pub mod arbitrage;
pub mod batches;
pub mod book_laws;
pub mod clearing;
pub mod clearing_laws;
pub mod continuous;
pub mod engine_traits;
pub mod lp;
pub mod matching;
pub mod net_laws;
pub mod netting;
pub mod optimizer;
pub mod order_book;
pub mod pair_laws;
pub mod plan_laws;
pub mod pool_laws;
pub mod settlement_laws;
pub mod types;
