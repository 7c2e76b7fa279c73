//! What a session shows of its trades.

use vstd::prelude::*;
use crate::multi_asset::types::Trade;
use crate::text::same_text;

pub use crate::inputs::cli::format_price;

verus! {

/// Whether one side of a trade is the pool.
pub open spec fn with_pool() -> spec_fn(Trade) -> bool {
    |t: Trade| t.buyer_id@ == "AMM_POOL"@ || t.seller_id@ == "AMM_POOL"@
}

/// Whether no side of a trade is the pool.
pub open spec fn between_participants() -> spec_fn(Trade) -> bool {
    |t: Trade| t.buyer_id@ != "AMM_POOL"@ && t.seller_id@ != "AMM_POOL"@
}

/// The trades between participants, and those with the pool.
pub fn split_ledger(trades: &Vec<Trade>) -> (r: (Vec<Trade>, Vec<Trade>))
    ensures
        r.0@ == trades@.filter(between_participants()),
        r.1@ == trades@.filter(with_pool()),
{
    let mut batch: Vec<Trade> = Vec::new();
    let mut pool: Vec<Trade> = Vec::new();
    let mut i: usize = 0;
    proof {
        reveal(Seq::filter);
        assert(trades@.take(0) =~= Seq::<Trade>::empty());
    }
    while i < trades.len()
        invariant
            i <= trades.len(),
            batch@ == trades@.take(i as int).filter(between_participants()),
            pool@ == trades@.take(i as int).filter(with_pool()),
        decreases trades.len() - i,
    {
        proof {
            reveal(Seq::filter);
            assert(trades@.take(i + 1).drop_last() =~= trades@.take(i as int));
            assert(trades@.take(i + 1).last() == trades@[i as int]);
        }
        let t: &Trade = &trades[i];
        if same_text(t.buyer_id.as_str(), "AMM_POOL") || same_text(t.seller_id.as_str(), "AMM_POOL") {
            pool.push(t.clone());
        } else {
            batch.push(t.clone());
        }
        i += 1;
    }
    assert(trades@.take(i as int) =~= trades@);
    (batch, pool)
}

} // verus!
