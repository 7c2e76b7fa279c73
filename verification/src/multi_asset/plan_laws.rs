//! A settlement plan moves exactly what the trades moved.

use vstd::prelude::*;
use crate::engines::auction_laws::{bought_by, buyer_part, lemma_pair_off, listed, seller_part, sold_by};
use crate::multi_asset::optimizer::{
    along, are_edges, asset_transfers, creditors, debtors, netted, nettable, open_assets, payments, routes, transfers,
    transfers_in, Balances, Transfer,
};
use crate::multi_asset::settlement_laws::{asset_sum, law_settlement_pays_everyone, lemma_netted, lemma_parties, moved};
use crate::multi_asset::types::{balance_of, AssetTransfer, SettlementEdge, Trade};
use crate::seqs::{lemma_total_add, lemma_total_insert, lemma_total_push, lemma_total_remove, lemma_total_same, total};
use crate::tables::{ascending, lemma_placed, lemma_put_new, lemma_put_old, lemma_table, lookup, Ranked};

verus! {

/// What one transfer brings a participant, of an asset.
pub open spec fn brought(who: Seq<char>, asset: Seq<char>) -> spec_fn(Transfer) -> int {
    |t: Transfer|
        if t.to == who && t.asset == asset {
            t.amount
        } else {
            0
        }
}

/// What one transfer takes from a participant, of an asset.
pub open spec fn taken(who: Seq<char>, asset: Seq<char>) -> spec_fn(Transfer) -> int {
    |t: Transfer|
        if t.from == who && t.asset == asset {
            t.amount
        } else {
            0
        }
}

pub open spec fn of_asset(asset: Seq<char>) -> spec_fn(AssetTransfer) -> int {
    |t: AssetTransfer|
        if t.asset@ == asset {
            t.amount as int
        } else {
            0
        }
}

/// What a bundle brings a participant, of an asset.
pub open spec fn bundle_brings(who: Seq<char>, asset: Seq<char>) -> spec_fn(SettlementEdge) -> int {
    |e: SettlementEdge|
        if e.to@ == who {
            total(e.transfers@, of_asset(asset))
        } else {
            0
        }
}

/// What a bundle takes from a participant, of an asset.
pub open spec fn bundle_takes(who: Seq<char>, asset: Seq<char>) -> spec_fn(SettlementEdge) -> int {
    |e: SettlementEdge|
        if e.from@ == who {
            total(e.transfers@, of_asset(asset))
        } else {
            0
        }
}

proof fn lemma_no_total<T>(s: Seq<T>, f: spec_fn(T) -> int)
    requires
        forall|i: int| 0 <= i < s.len() ==> f(#[trigger] s[i]) == 0,
    ensures
        total(s, f) == 0,
    decreases s.len(),
{
    if s.len() > 0 {
        assert(f(s[s.len() - 1]) == 0);
        assert forall|i: int| 0 <= i < s.drop_last().len() implies f(#[trigger] s.drop_last()[i]) == 0 by {
            assert(f(s[i]) == 0);
        }
        lemma_no_total(s.drop_last(), f);
    }
}

/// Sums that differ in one place.
proof fn lemma_total_changed<T>(s: Seq<T>, f: spec_fn(T) -> int, g: spec_fn(T) -> int, at: int)
    requires
        0 <= at < s.len(),
        forall|i: int| 0 <= i < s.len() && i != at ==> f(#[trigger] s[i]) == g(s[i]),
    ensures
        total(s, g) == total(s, f) - f(s[at]) + g(s[at]),
{
    lemma_total_remove(s, at, f);
    lemma_total_remove(s, at, g);
    let t: Seq<T> = s.remove(at);
    assert forall|i: int| 0 <= i < t.len() implies f(#[trigger] t[i]) == g(t[i]) by {
        let j: int = if i < at { i } else { i + 1 };
        assert(t[i] == s[j]);
    }
    lemma_total_same(t, t, f, g);
}

/// In a table in order, a key is at one place only.
proof fn lemma_one_place<R: Ranked, V>(s: Seq<(R, V)>, i: int, j: int)
    requires
        ascending(s),
        0 <= i < s.len(),
        0 <= j < s.len(),
        s[i].0 == s[j].0,
    ensures
        i == j,
{
    R::precedes_irreflexive(s[i].0);
    if i < j {
        assert(s[i].0.precedes(s[j].0));
    } else if j < i {
        assert(s[j].0.precedes(s[i].0));
    }
}

/// What a list of transfers sends along a route adds up to.
pub open spec fn on_route(t: Seq<Transfer>, f: spec_fn(Transfer) -> int) -> spec_fn(((Seq<char>, Seq<char>), ())) -> int {
    |r: ((Seq<char>, Seq<char>), ())| total(along(t, r.0.0, r.0.1), f)
}

/// The routes share out all transfers.
proof fn lemma_routes_total(t: Seq<Transfer>, f: spec_fn(Transfer) -> int)
    ensures
        ascending(routes(t)),
        total(routes(t), on_route(t, f)) == total(t, f),
        forall|from: Seq<char>, to: Seq<char>|
            lookup(routes(t), (from, to)) is None ==> #[trigger] along(t, from, to) == Seq::<Transfer>::empty(),
    decreases t.len(),
{
    if t.len() > 0 {
        let s: Seq<Transfer> = t.drop_last();
        let x: Transfer = t.last();
        let key: (Seq<char>, Seq<char>) = (x.from, x.to);
        let before: Seq<((Seq<char>, Seq<char>), ())> = routes(s);
        lemma_routes_total(s, f);
        lemma_table(before, key, ());
        assert forall|from: Seq<char>, to: Seq<char>| lookup(routes(t), (from, to)) is None implies #[trigger] along(
            t,
            from,
            to,
        ) == Seq::<Transfer>::empty() by {
            assert((from, to) != key);
            assert(lookup(before, (from, to)) is None);
            assert(along(s, from, to) == Seq::<Transfer>::empty());
        }
        let (g, h) = (on_route(s, f), on_route(t, f));
        lemma_total_push(along(s, x.from, x.to), x, f);
        let at: int = lemma_placed(before, key);
        if at < before.len() && before[at].0 == key {
            lemma_put_old(before, key, (), at);
            assert(routes(t) =~= before);
            assert forall|i: int| 0 <= i < before.len() && i != at implies g(#[trigger] before[i]) == h(before[i]) by {
                if before[i].0 == key {
                    lemma_one_place(before, i, at);
                }
            }
            lemma_total_changed(before, g, h, at);
        } else {
            lemma_put_new(before, key, (), at);
            lemma_total_insert(before, at, (key, ()), h);
            assert(along(s, x.from, x.to) == Seq::<Transfer>::empty());
            assert forall|i: int| 0 <= i < before.len() implies g(#[trigger] before[i]) == h(before[i]) by {
                if before[i].0 == key {
                    lemma_put_old(before, key, (), i);
                }
            }
            lemma_total_same(before, before, g, h);
        }
    }
}

proof fn lemma_along(t: Seq<Transfer>, from: Seq<char>, to: Seq<char>)
    ensures
        forall|k: int|
            0 <= k < along(t, from, to).len() ==> (#[trigger] along(t, from, to)[k]).from == from && along(
                t,
                from,
                to,
            )[k].to == to,
    decreases t.len(),
{
    if t.len() > 0 {
        lemma_along(t.drop_last(), from, to);
        let e: Seq<Transfer> = along(t.drop_last(), from, to);
        let r: Seq<Transfer> = along(t, from, to);
        assert forall|k: int| 0 <= k < r.len() implies (#[trigger] r[k]).from == from && r[k].to == to by {
            if k < e.len() {
                assert(e[k].from == from && e[k].to == to);
            }
        }
    }
}

/// Bundling keeps what every transfer brings and takes.
proof fn lemma_bundled(edges: Seq<SettlementEdge>, t: Seq<Transfer>, who: Seq<char>, asset: Seq<char>)
    requires
        are_edges(edges, t),
    ensures
        total(edges, bundle_brings(who, asset)) == total(t, brought(who, asset)),
        total(edges, bundle_takes(who, asset)) == total(t, taken(who, asset)),
{
    let (b, k) = (brought(who, asset), taken(who, asset));
    lemma_routes_total(t, b);
    lemma_routes_total(t, k);
    assert forall|i: int| 0 <= i < edges.len() implies bundle_brings(who, asset)(#[trigger] edges[i]) == on_route(t, b)(
        routes(t)[i],
    ) && bundle_takes(who, asset)(edges[i]) == on_route(t, k)(routes(t)[i]) by {
        let e: SettlementEdge = edges[i];
        let sent: Seq<Transfer> = along(t, e.from@, e.to@);
        lemma_along(t, e.from@, e.to@);
        if e.to@ == who {
            assert forall|j: int| 0 <= j < sent.len() implies of_asset(asset)(#[trigger] e.transfers@[j]) == b(sent[j]) by {}
            lemma_total_same(e.transfers@, sent, of_asset(asset), b);
        } else {
            lemma_no_total(sent, b);
        }
        if e.from@ == who {
            assert forall|j: int| 0 <= j < sent.len() implies of_asset(asset)(#[trigger] e.transfers@[j]) == k(sent[j]) by {}
            lemma_total_same(e.transfers@, sent, of_asset(asset), k);
        } else {
            lemma_no_total(sent, k);
        }
    }
    lemma_total_same(edges, routes(t), bundle_brings(who, asset), on_route(t, b));
    lemma_total_same(edges, routes(t), bundle_takes(who, asset), on_route(t, k));
}

/// The assets with something to settle are in order, and all others are
/// settled.
proof fn lemma_open_assets(b: Balances)
    ensures
        ascending(open_assets(b)),
        forall|i: int| 0 <= i < b.len() && lookup(open_assets(b), (#[trigger] b[i]).0.1) is None ==> b[i].1 == 0,
    decreases b.len(),
{
    if b.len() > 0 {
        let short: Balances = b.drop_last();
        let last: Seq<char> = b.last().0.1;
        lemma_open_assets(short);
        lemma_table(open_assets(short), last, ());
        assert forall|i: int| 0 <= i < b.len() && lookup(open_assets(b), (#[trigger] b[i]).0.1) is None implies b[i].1
            == 0 by {
            if i < short.len() {
                assert(short[i] == b[i]);
            }
        }
    }
}

/// Of the transfers in several assets, only those in one asset count for it.
proof fn lemma_transfers_in(b: Balances, assets: Seq<(Seq<char>, ())>, asset: Seq<char>, f: spec_fn(Transfer) -> int)
    requires
        ascending(assets),
        forall|t: Transfer| t.asset != asset ==> #[trigger] f(t) == 0,
    ensures
        total(transfers_in(b, assets), f) == if lookup(assets, asset) is Some {
            total(asset_transfers(b, asset), f)
        } else {
            0
        },
    decreases assets.len(),
{
    if assets.len() > 0 {
        let short: Seq<(Seq<char>, ())> = assets.drop_last();
        let last: Seq<char> = assets.last().0;
        assert(ascending(short)) by {
            assert forall|i: int, j: int| 0 <= i < j < short.len() implies (#[trigger] short[i]).0.precedes(
                (#[trigger] short[j]).0,
            ) by {
                assert(assets[i].0.precedes(assets[j].0));
            }
        }
        lemma_transfers_in(b, short, asset, f);
        lemma_total_add(transfers_in(b, short), asset_transfers(b, last), f);
        if last == asset {
            let at: int = lemma_placed(short, asset);
            if at < short.len() && short[at].0 == asset {
                lemma_one_place(assets, at, assets.len() - 1);
            } else {
                lemma_put_new(short, asset, (), at);
            }
        } else {
            lemma_no_total(asset_transfers(b, last), f);
        }
    }
}

/// What the transfers of an asset bring and take is what is paid to and by
/// the participant's place among the balances.
proof fn lemma_at_place(b: Balances, who: Seq<char>, asset: Seq<char>, i: int)
    requires
        ascending(b),
        0 <= i < b.len(),
        b[i].0 == (who, asset),
    ensures
        total(asset_transfers(b, asset), brought(who, asset)) == sold_by(payments(b, asset), i),
        total(asset_transfers(b, asset), taken(who, asset)) == bought_by(payments(b, asset), i),
{
    let paid: Seq<(int, int, int)> = payments(b, asset);
    let sent: Seq<Transfer> = asset_transfers(b, asset);
    lemma_payment_ends(b, asset);
    assert forall|k: int| 0 <= k < sent.len() implies brought(who, asset)(#[trigger] sent[k]) == seller_part(i)(paid[k])
        && taken(who, asset)(sent[k]) == buyer_part(i)(paid[k]) by {
        let (d, c, amount) = paid[k];
        assert(0 <= paid[k].0 < b.len() && b[paid[k].0].0.1 == asset);
        if sent[k].to == who {
            assert(b[c].0 == b[i].0);
            lemma_one_place(b, c, i);
        }
        if sent[k].from == who {
            assert(b[d].0 == b[i].0);
            lemma_one_place(b, d, i);
        }
    }
    lemma_total_same(sent, paid, brought(who, asset), seller_part(i));
    lemma_total_same(sent, paid, taken(who, asset), buyer_part(i));
}

/// One who has no balance of an asset is sent nothing of it and sends
/// nothing.
proof fn lemma_no_place(b: Balances, who: Seq<char>, asset: Seq<char>)
    requires
        forall|i: int| 0 <= i < b.len() ==> (#[trigger] b[i]).0 != (who, asset),
    ensures
        total(asset_transfers(b, asset), brought(who, asset)) == 0,
        total(asset_transfers(b, asset), taken(who, asset)) == 0,
{
    let paid: Seq<(int, int, int)> = payments(b, asset);
    let sent: Seq<Transfer> = asset_transfers(b, asset);
    lemma_payment_ends(b, asset);
    assert forall|k: int| 0 <= k < sent.len() implies brought(who, asset)(#[trigger] sent[k]) == 0 && taken(who, asset)(
        sent[k],
    ) == 0 by {
        let (d, c, amount) = paid[k];
        assert(0 <= paid[k].0 < b.len() && b[paid[k].0].0.1 == asset);
        assert(b[c].0 != (who, asset) && b[d].0 != (who, asset));
    }
    lemma_no_total(sent, brought(who, asset));
    lemma_no_total(sent, taken(who, asset));
}

/// Payments are between balances of the asset.
proof fn lemma_payment_ends(b: Balances, asset: Seq<char>)
    ensures
        forall|k: int|
            0 <= k < payments(b, asset).len() ==> {
                &&& 0 <= (#[trigger] payments(b, asset)[k]).0 < b.len() && b[payments(b, asset)[k].0].0.1 == asset
                &&& 0 <= payments(b, asset)[k].1 < b.len() && b[payments(b, asset)[k].1].0.1 == asset
            },
{
    let (d, c) = (debtors(b, asset), creditors(b, asset));
    lemma_parties(b, asset);
    lemma_pair_off(d, c);
    assert forall|k: int| 0 <= k < payments(b, asset).len() implies {
        &&& 0 <= (#[trigger] payments(b, asset)[k]).0 < b.len() && b[payments(b, asset)[k].0].0.1 == asset
        &&& 0 <= payments(b, asset)[k].1 < b.len() && b[payments(b, asset)[k].1].0.1 == asset
    } by {
        let (x, y, amount) = payments(b, asset)[k];
        assert(listed(d, x) && listed(c, y));
        let i: int = choose|i: int| 0 <= i < d.len() && (#[trigger] d[i]).0 == x;
        let j: int = choose|j: int| 0 <= j < c.len() && (#[trigger] c[j]).0 == y;
        assert(d[i].0 == x && c[j].0 == y);
    }
}

/// A plan settles every balance of an asset whose balances sum to zero: what
/// its bundles bring a participant, less what they take, is their balance.
pub proof fn law_plan_settles_every_balance(
    b: Balances,
    edges: Seq<SettlementEdge>,
    who: Seq<char>,
    asset: Seq<char>,
)
    requires
        ascending(b),
        asset_sum(b, asset) == 0,
        are_edges(edges, transfers(b)),
    ensures
        total(edges, bundle_brings(who, asset)) - total(edges, bundle_takes(who, asset)) == balance_of(b, (who, asset)),
{
    lemma_bundled(edges, transfers(b), who, asset);
    lemma_open_assets(b);
    lemma_transfers_in(b, open_assets(b), asset, brought(who, asset));
    lemma_transfers_in(b, open_assets(b), asset, taken(who, asset));
    let at: int = lemma_placed(b, (who, asset));
    if at < b.len() && b[at].0 == (who, asset) {
        lemma_put_old(b, (who, asset), 0i128, at);
        lemma_at_place(b, who, asset, at);
        law_settlement_pays_everyone(b, asset, at);
        if lookup(open_assets(b), asset) is None {
            assert(b[at].1 == 0);
        }
    } else {
        lemma_put_new(b, (who, asset), 0i128, at);
        assert forall|i: int| 0 <= i < b.len() implies (#[trigger] b[i]).0 != (who, asset) by {
            if b[i].0 == (who, asset) {
                lemma_put_old(b, (who, asset), 0i128, i);
            }
        }
        lemma_no_place(b, who, asset);
    }
}

/// A plan settles every trade: what its bundles bring a participant, less what
/// they take, is what the trades moved to that participant, asset by asset.
pub proof fn law_plan_settles_every_trade(
    trades: Seq<Trade>,
    edges: Seq<SettlementEdge>,
    who: Seq<char>,
    asset: Seq<char>,
)
    requires
        nettable(trades),
        are_edges(edges, transfers(netted(trades))),
    ensures
        total(edges, bundle_brings(who, asset)) - total(edges, bundle_takes(who, asset)) == total(
            trades,
            moved(who, asset),
        ),
{
    lemma_netted(trades, who, asset);
    law_plan_settles_every_balance(netted(trades), edges, who, asset);
}

} // verus!
