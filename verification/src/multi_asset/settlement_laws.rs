//! What holds of every settlement.

use vstd::prelude::*;
use crate::engines::auction::{after_fill, pair_off};
use crate::engines::auction_laws::{
    bought_by, buyer_part, distinct, lemma_absent_gets_nothing, lemma_bought_in_order, lemma_pair_off_mirrored,
    lemma_sold_in_order, listed, no_debts, queued, seller_part, share_of, sold_by,
};
use crate::multi_asset::optimizer::{
    bought, creditors, credited, debtors, netted, nettable, payments, quote_amount, Balances,
};
use crate::multi_asset::types::{balance_of, Trade};
use crate::seqs::{lemma_total_prefix, lemma_total_push, lemma_total_remove, lemma_total_same, lemma_total_take, lemma_total_update, min_of, total};
use crate::tables::{ascending, lemma_put_new, lemma_put_old, lemma_table, lookup, put};

verus! {

/// What one balance adds to the sum of an asset.
pub open spec fn asset_part(asset: Seq<char>) -> spec_fn(((Seq<char>, Seq<char>), i128)) -> int {
    |e: ((Seq<char>, Seq<char>), i128)|
        if e.0.1 == asset {
            e.1 as int
        } else {
            0
        }
}

/// All balances of an asset together.
pub open spec fn asset_sum(b: Balances, asset: Seq<char>) -> int {
    total(b, asset_part(asset))
}

/// What a trade moves to a participant, of an asset.
pub open spec fn moved(who: Seq<char>, asset: Seq<char>) -> spec_fn(Trade) -> int {
    |t: Trade|
        (if t.buyer_id@ == who {
            (if t.pair@.base == asset {
                t.quantity as int
            } else {
                0
            }) - (if t.pair@.quote == asset {
                quote_amount(t)
            } else {
                0
            })
        } else {
            0
        }) + (if t.seller_id@ == who {
            (if t.pair@.quote == asset {
                quote_amount(t)
            } else {
                0
            }) - (if t.pair@.base == asset {
                t.quantity as int
            } else {
                0
            })
        } else {
            0
        })
}

proof fn lemma_credited(b: Balances, who: Seq<char>, asset: Seq<char>, delta: int, a: Seq<char>)
    requires
        ascending(b),
        i128::MIN <= balance_of(b, (who, asset)) + delta <= i128::MAX,
    ensures
        ascending(credited(b, who, asset, delta)),
        asset_sum(credited(b, who, asset, delta), a) == asset_sum(b, a) + if a == asset {
            delta
        } else {
            0
        },
        forall|k: (Seq<char>, Seq<char>)| #[trigger]
            balance_of(credited(b, who, asset, delta), k) == balance_of(b, k) + if k == (who, asset) {
                delta
            } else {
                0
            },
{
    let key: (Seq<char>, Seq<char>) = (who, asset);
    let v: i128 = (balance_of(b, key) + delta) as i128;
    lemma_table(b, key, v);
    if lookup(b, key) is Some {
        let at: int = lemma_found(b, key);
        lemma_put_old(b, key, v, at);
        lemma_total_update(b, at, (key, v), asset_part(a));
    } else {
        let at: int = lemma_absent(b, key);
        lemma_put_new(b, key, v, at);
        let t: Balances = put(b, key, v);
        lemma_total_remove(t, at, asset_part(a));
        assert(t.remove(at) =~= b);
    }
    assert forall|k: (Seq<char>, Seq<char>)| #[trigger]
        balance_of(credited(b, who, asset, delta), k) == balance_of(b, k) + if k == (who, asset) {
            delta
        } else {
            0
        } by {
        if k != key {
            assert(lookup(put(b, key, v), k) == lookup(b, k));
        }
    }
}

/// Where a key is that the table has.
proof fn lemma_found(b: Balances, key: (Seq<char>, Seq<char>)) -> (at: int)
    requires
        lookup(b, key) is Some,
    ensures
        0 <= at < b.len(),
        b[at].0 == key,
    decreases b.len(),
{
    if b.last().0 == key {
        b.len() - 1
    } else {
        lemma_found(b.drop_last(), key)
    }
}

/// Where a key belongs that the table does not have.
proof fn lemma_absent(b: Balances, key: (Seq<char>, Seq<char>)) -> (at: int)
    requires
        ascending(b),
        lookup(b, key) is None,
    ensures
        crate::tables::fits_at(b, key, at),
{
    let at: int = crate::tables::lemma_placed(b, key);
    if at < b.len() && b[at].0 == key {
        lemma_put_old(b, key, 0i128, at);
    }
    at
}

pub proof fn lemma_netted(trades: Seq<Trade>, who: Seq<char>, asset: Seq<char>)
    requires
        nettable(trades),
    ensures
        ascending(netted(trades)),
        asset_sum(netted(trades), asset) == 0,
        balance_of(netted(trades), (who, asset)) == total(trades, moved(who, asset)),
    decreases trades.len(),
{
    if trades.len() > 0 {
        let t: Trade = trades.last();
        let b0: Balances = netted(trades.drop_last());
        lemma_netted(trades.drop_last(), who, asset);
        let b1: Balances = credited(b0, t.buyer_id@, t.pair@.base, t.quantity as int);
        let b3: Balances = credited(bought(b0, t), t.seller_id@, t.pair@.base, -(t.quantity as int));
        lemma_credited(b0, t.buyer_id@, t.pair@.base, t.quantity as int, asset);
        lemma_credited(b1, t.buyer_id@, t.pair@.quote, -quote_amount(t), asset);
        lemma_credited(bought(b0, t), t.seller_id@, t.pair@.base, -(t.quantity as int), asset);
        lemma_credited(b3, t.seller_id@, t.pair@.quote, quote_amount(t), asset);
    }
}

/// Netting loses and makes nothing: over all participants, the balances of an
/// asset sum to zero.
pub proof fn law_positions_sum_to_zero(trades: Seq<Trade>, asset: Seq<char>)
    requires
        nettable(trades),
    ensures
        asset_sum(netted(trades), asset) == 0,
{
    lemma_netted(trades, Seq::empty(), asset);
}

/// A participant's balance of an asset is what all trades moved to them.
pub proof fn law_balance_is_what_moved(trades: Seq<Trade>, who: Seq<char>, asset: Seq<char>)
    requires
        nettable(trades),
    ensures
        balance_of(netted(trades), (who, asset)) == total(trades, moved(who, asset)),
{
    lemma_netted(trades, who, asset);
}

pub proof fn lemma_parties(b: Balances, asset: Seq<char>)
    ensures
        no_debts(debtors(b, asset)),
        no_debts(creditors(b, asset)),
        distinct(debtors(b, asset)),
        distinct(creditors(b, asset)),
        forall|k: int| 0 <= k < debtors(b, asset).len() ==> 0 <= (#[trigger] debtors(b, asset)[k]).0 < b.len(),
        forall|k: int| 0 <= k < creditors(b, asset).len() ==> 0 <= (#[trigger] creditors(b, asset)[k]).0 < b.len(),
        queued(creditors(b, asset)) - queued(debtors(b, asset)) == asset_sum(b, asset),
        forall|i: int|
            0 <= i < b.len() && b[i].0.1 == asset && b[i].1 < 0 ==> exists|k: int|
                0 <= k < debtors(b, asset).len() && #[trigger] debtors(b, asset)[k] == (i, -(b[i].1 as int)),
        forall|i: int|
            0 <= i < b.len() && b[i].0.1 == asset && b[i].1 > 0 ==> exists|k: int|
                0 <= k < creditors(b, asset).len() && #[trigger] creditors(b, asset)[k] == (i, b[i].1 as int),
        forall|k: int|
            0 <= k < debtors(b, asset).len() ==> {
                &&& b[(#[trigger] debtors(b, asset)[k]).0].0.1 == asset
                &&& b[debtors(b, asset)[k].0].1 < 0
            },
        forall|k: int|
            0 <= k < creditors(b, asset).len() ==> {
                &&& b[(#[trigger] creditors(b, asset)[k]).0].0.1 == asset
                &&& b[creditors(b, asset)[k].0].1 > 0
            },
    decreases b.len(),
{
    if b.len() > 0 {
        let rest: Balances = b.drop_last();
        lemma_parties(rest, asset);
        let d: Seq<(int, int)> = debtors(rest, asset);
        let c: Seq<(int, int)> = creditors(rest, asset);
        let n: int = b.len() - 1;
        lemma_total_push(d, (n, -(b.last().1 as int)), |e: (int, int)| e.1);
        lemma_total_push(c, (n, b.last().1 as int), |e: (int, int)| e.1);
        let d2: Seq<(int, int)> = debtors(b, asset);
        let c2: Seq<(int, int)> = creditors(b, asset);
        assert forall|k: int| 0 <= k < d.len() implies #[trigger] d2[k] == d[k] by {}
        assert forall|k: int| 0 <= k < c.len() implies #[trigger] c2[k] == c[k] by {}
        assert forall|i: int| 0 <= i < b.len() && b[i].0.1 == asset && b[i].1 < 0 implies exists|k: int|
            0 <= k < d2.len() && #[trigger] d2[k] == (i, -(b[i].1 as int)) by {
            if i < n {
                assert(rest[i] == b[i]);
                let k: int = choose|k: int| 0 <= k < d.len() && #[trigger] d[k] == (i, -(rest[i].1 as int));
                assert(d2[k] == (i, -(b[i].1 as int)));
            } else {
                assert(d2[d.len() as int] == (i, -(b[i].1 as int)));
            }
        }
        assert forall|i: int| 0 <= i < b.len() && b[i].0.1 == asset && b[i].1 > 0 implies exists|k: int|
            0 <= k < c2.len() && #[trigger] c2[k] == (i, b[i].1 as int) by {
            if i < n {
                assert(rest[i] == b[i]);
                let k: int = choose|k: int| 0 <= k < c.len() && #[trigger] c[k] == (i, rest[i].1 as int);
                assert(c2[k] == (i, b[i].1 as int));
            } else {
                assert(c2[c.len() as int] == (i, b[i].1 as int));
            }
        }
    }
}

/// One that does not sell gives nothing.
proof fn lemma_absent_gives_nothing(buys: Seq<(int, int)>, sells: Seq<(int, int)>, x: int)
    requires
        no_debts(buys),
        no_debts(sells),
        !listed(sells, x),
    ensures
        sold_by(pair_off(buys, sells), x) == 0,
{
    lemma_pair_off_mirrored(buys, sells);
    lemma_absent_gets_nothing(sells, buys, x);
    lemma_total_same(pair_off(sells, buys), pair_off(buys, sells), buyer_part(x), seller_part(x));
}

/// Where there is enough for all, everyone gets their own.
proof fn lemma_full_share(s: Seq<(int, int)>, k: int)
    requires
        no_debts(s),
        0 <= k < s.len(),
        s[k].1 > 0,
    ensures
        share_of(s, k, queued(s)) == s[k].1,
{
    let f = |e: (int, int)| e.1;
    lemma_total_take(s, k, f);
    lemma_total_prefix(s, k + 1, f);
}

/// The payments of an asset whose balances sum to zero leave nothing open:
/// what a participant receives, less what they pay, is their balance.
pub proof fn law_settlement_pays_everyone(b: Balances, asset: Seq<char>, i: int)
    requires
        asset_sum(b, asset) == 0,
        0 <= i < b.len(),
        b[i].0.1 == asset,
    ensures
        sold_by(payments(b, asset), i) - bought_by(payments(b, asset), i) == b[i].1,
{
    lemma_parties(b, asset);
    let d: Seq<(int, int)> = debtors(b, asset);
    let c: Seq<(int, int)> = creditors(b, asset);
    if b[i].1 < 0 {
        let k: int = choose|k: int| 0 <= k < d.len() && #[trigger] d[k] == (i, -(b[i].1 as int));
        lemma_bought_in_order(d, c, k);
        lemma_full_share(d, k);
    } else {
        assert(!listed(d, i));
        lemma_absent_gets_nothing(d, c, i);
    }
    if b[i].1 > 0 {
        let k: int = choose|k: int| 0 <= k < c.len() && #[trigger] c[k] == (i, b[i].1 as int);
        lemma_sold_in_order(d, c, k);
        lemma_full_share(c, k);
    } else {
        assert(!listed(c, i));
        lemma_absent_gives_nothing(d, c, i);
    }
}

proof fn lemma_few_pairs(buys: Seq<(int, int)>, sells: Seq<(int, int)>)
    ensures
        pair_off(buys, sells).len() == 0 || pair_off(buys, sells).len() < buys.len() + sells.len(),
        buys.len() == 0 || sells.len() == 0 ==> pair_off(buys, sells).len() == 0,
    decreases buys.len() + sells.len(),
{
    if buys.len() > 0 && sells.len() > 0 {
        let qty: int = min_of(buys[0].1, sells[0].1);
        lemma_few_pairs(after_fill(buys, qty), after_fill(sells, qty));
    }
}

/// Settling an asset takes fewer payments than there are participants with an
/// open balance in it.
pub proof fn law_few_payments(b: Balances, asset: Seq<char>)
    ensures
        payments(b, asset).len() == 0 || payments(b, asset).len() < debtors(b, asset).len() + creditors(b, asset).len(),
{
    lemma_few_pairs(debtors(b, asset), creditors(b, asset));
}

} // verus!
