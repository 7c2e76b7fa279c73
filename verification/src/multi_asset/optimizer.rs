//! Settlement: what each participant is owed after a list of trades, and the
//! few transfers that pay it.

use vstd::prelude::*;
use crate::engines::auction::{after_fill, fill_views, heads, pair_off, pair_queues, Fill};
use crate::multi_asset::types::{balance_of, AssetTransfer, NetPositions, SettlementEdge, SettlementPlan, Trade};
use crate::seqs::{min_of, saturated};
use crate::tables::{lemma_table, lookup, put, Table};
use crate::text::same_text;
use crate::trades::saturating_product;
use crate::types::{Amount, PRICE_SCALE};

verus! {

/// The balances of participants in assets, in order.
pub type Balances = Seq<((Seq<char>, Seq<char>), i128)>;

/// What a trade is worth in the quote asset, rounded down.
pub open spec fn quote_amount(t: Trade) -> int {
    saturated(t.quantity * t.price) / PRICE_SCALE as int
}

/// The balances after one participant's balance of one asset has changed.
pub open spec fn credited(b: Balances, who: Seq<char>, asset: Seq<char>, delta: int) -> Balances {
    put(b, (who, asset), (balance_of(b, (who, asset)) + delta) as i128)
}

/// Whether that balance can be represented.
pub open spec fn credit_fits(b: Balances, who: Seq<char>, asset: Seq<char>, delta: int) -> bool {
    i128::MIN <= balance_of(b, (who, asset)) + delta <= i128::MAX
}

/// The buyer has got the base asset, and owes the quote asset.
pub open spec fn bought(b: Balances, t: Trade) -> Balances {
    credited(
        credited(b, t.buyer_id@, t.pair@.base, t.quantity as int),
        t.buyer_id@,
        t.pair@.quote,
        -quote_amount(t),
    )
}

/// The seller owes the base asset, and has got the quote asset.
pub open spec fn sold(b: Balances, t: Trade) -> Balances {
    credited(
        credited(b, t.seller_id@, t.pair@.base, -(t.quantity as int)),
        t.seller_id@,
        t.pair@.quote,
        quote_amount(t),
    )
}

/// Whether all balances of a trade can be represented.
pub open spec fn trade_fits(b: Balances, t: Trade) -> bool {
    &&& t.quantity <= i128::MAX
    &&& credit_fits(b, t.buyer_id@, t.pair@.base, t.quantity as int)
    &&& credit_fits(
        credited(b, t.buyer_id@, t.pair@.base, t.quantity as int),
        t.buyer_id@,
        t.pair@.quote,
        -quote_amount(t),
    )
    &&& credit_fits(bought(b, t), t.seller_id@, t.pair@.base, -(t.quantity as int))
    &&& credit_fits(
        credited(bought(b, t), t.seller_id@, t.pair@.base, -(t.quantity as int)),
        t.seller_id@,
        t.pair@.quote,
        quote_amount(t),
    )
}

/// The balances after all trades.
pub open spec fn netted(trades: Seq<Trade>) -> Balances
    decreases trades.len(),
{
    if trades.len() == 0 {
        Seq::empty()
    } else {
        sold(bought(netted(trades.drop_last()), trades.last()), trades.last())
    }
}

/// Whether all balances can be represented on the way.
pub open spec fn nettable(trades: Seq<Trade>) -> bool
    decreases trades.len(),
{
    trades.len() == 0 || (nettable(trades.drop_last()) && trade_fits(netted(trades.drop_last()), trades.last()))
}

/// Whether every debt can be represented as an amount.
pub open spec fn payable(b: Balances) -> bool {
    forall|i: int| 0 <= i < b.len() ==> (#[trigger] b[i]).1 > i128::MIN
}

/// The machine limits within which trades can be settled: all balances must
/// be representable, and twice the number of trades.
pub open spec fn can_settle(trades: Seq<Trade>) -> bool {
    nettable(trades) && payable(netted(trades)) && 2 * trades.len() <= usize::MAX
}

/// The positions of those who owe an asset, and what they owe.
pub open spec fn debtors(b: Balances, asset: Seq<char>) -> Seq<(int, int)>
    decreases b.len(),
{
    if b.len() == 0 {
        Seq::empty()
    } else {
        let before = debtors(b.drop_last(), asset);
        if b.last().0.1 == asset && b.last().1 < 0 {
            before.push((b.len() - 1, -(b.last().1 as int)))
        } else {
            before
        }
    }
}

/// The positions of those who are owed an asset, and what they are owed.
pub open spec fn creditors(b: Balances, asset: Seq<char>) -> Seq<(int, int)>
    decreases b.len(),
{
    if b.len() == 0 {
        Seq::empty()
    } else {
        let before = creditors(b.drop_last(), asset);
        if b.last().0.1 == asset && b.last().1 > 0 {
            before.push((b.len() - 1, b.last().1 as int))
        } else {
            before
        }
    }
}

/// A transfer, as plain values.
#[verifier::ext_equal]
pub struct Transfer {
    pub from: Seq<char>,
    pub to: Seq<char>,
    pub asset: Seq<char>,
    pub amount: int,
}

/// Debtor after debtor pays creditor after creditor.
pub open spec fn payments(b: Balances, asset: Seq<char>) -> Seq<(int, int, int)> {
    pair_off(debtors(b, asset), creditors(b, asset))
}

pub open spec fn asset_transfers(b: Balances, asset: Seq<char>) -> Seq<Transfer> {
    Seq::new(
        payments(b, asset).len(),
        |k: int|
            Transfer {
                from: b[payments(b, asset)[k].0].0.0,
                to: b[payments(b, asset)[k].1].0.0,
                asset,
                amount: payments(b, asset)[k].2,
            },
    )
}

/// The assets in which there is something to settle, in order.
pub open spec fn open_assets(b: Balances) -> Seq<(Seq<char>, ())>
    decreases b.len(),
{
    if b.len() == 0 {
        Seq::empty()
    } else if b.last().1 != 0 {
        put(open_assets(b.drop_last()), b.last().0.1, ())
    } else {
        open_assets(b.drop_last())
    }
}

/// The transfers in these assets, one asset after the other.
pub open spec fn transfers_in(b: Balances, assets: Seq<(Seq<char>, ())>) -> Seq<Transfer>
    decreases assets.len(),
{
    if assets.len() == 0 {
        Seq::empty()
    } else {
        transfers_in(b, assets.drop_last()) + asset_transfers(b, assets.last().0)
    }
}

/// The transfers that settle all balances.
pub open spec fn transfers(b: Balances) -> Seq<Transfer> {
    transfers_in(b, open_assets(b))
}

/// Who sends something to whom, in order.
pub open spec fn routes(t: Seq<Transfer>) -> Seq<((Seq<char>, Seq<char>), ())>
    decreases t.len(),
{
    if t.len() == 0 {
        Seq::empty()
    } else {
        put(routes(t.drop_last()), (t.last().from, t.last().to), ())
    }
}

/// What is sent along one route.
pub open spec fn along(t: Seq<Transfer>, from: Seq<char>, to: Seq<char>) -> Seq<Transfer>
    decreases t.len(),
{
    if t.len() == 0 {
        Seq::empty()
    } else if t.last().from == from && t.last().to == to {
        along(t.drop_last(), from, to).push(t.last())
    } else {
        along(t.drop_last(), from, to)
    }
}

/// Whether a bundle holds these transfers.
pub open spec fn carries(e: SettlementEdge, t: Seq<Transfer>) -> bool {
    &&& e.transfers@.len() == t.len()
    &&& forall|k: int|
        0 <= k < t.len() ==> {
            &&& (#[trigger] e.transfers@[k]).asset@ == t[k].asset
            &&& e.transfers@[k].amount == t[k].amount
            &&& e.transfers@[k].asset_contract is None
        }
}

/// Whether these are the bundles of a list of transfers: one for each route.
pub open spec fn are_edges(edges: Seq<SettlementEdge>, t: Seq<Transfer>) -> bool {
    &&& edges.len() == routes(t).len()
    &&& forall|k: int|
        0 <= k < edges.len() ==> {
            &&& (#[trigger] edges[k]).from@ == routes(t)[k].0.0
            &&& edges[k].to@ == routes(t)[k].0.1
            &&& carries(edges[k], along(t, edges[k].from@, edges[k].to@))
        }
}

/// How many transfers there are of each asset.
pub open spec fn tally(t: Seq<Transfer>) -> Seq<(Seq<char>, usize)>
    decreases t.len(),
{
    if t.len() == 0 {
        Seq::empty()
    } else {
        let before = tally(t.drop_last());
        let count = match lookup(before, t.last().asset) {
            Some(n) => n as int,
            None => 0,
        };
        put(before, t.last().asset, (count + 1) as usize)
    }
}

/// A transfer with its ends.
struct Sent {
    from: String,
    to: String,
    transfer: AssetTransfer,
}

spec fn sent_view(s: Sent) -> Transfer {
    Transfer { from: s.from@, to: s.to@, asset: s.transfer.asset@, amount: s.transfer.amount as int }
}

spec fn sent_views(s: Seq<Sent>) -> Seq<Transfer> {
    Seq::new(s.len(), |i: int| sent_view(s[i]))
}

/// A settlement plan, and how many transfers there are of each asset.
#[derive(Debug)]
pub struct SettlementSummary {
    pub plan: SettlementPlan,
    pub asset_edges: Table<String, usize>,
}

/// Nets trades and bundles what is left into few transfers.
#[derive(Debug)]
pub struct SettlementOptimizer {}

impl Default for SettlementOptimizer {
    fn default() -> Self {
        SettlementOptimizer {}
    }
}

impl SettlementOptimizer {
    pub fn new() -> Self {
        SettlementOptimizer {}
    }

    /// Nets these trades and settles what is left.
    pub fn optimize_trades(&self, trades: &Vec<Trade>) -> (r: SettlementSummary)
        requires
            can_settle(trades@),
        ensures
            r.plan.net_positions.wf(),
            r.plan.net_positions.items() == netted(trades@),
            are_edges(r.plan.edges@, transfers(netted(trades@))),
            r.plan.naive_transfer_count == 2 * trades.len(),
            r.plan.optimized_transfer_count == routes(transfers(netted(trades@))).len(),
            r.asset_edges.wf(),
            r.asset_edges.items() == tally(transfers(netted(trades@))),
    {
        let net_positions: NetPositions = self.net_positions_from_trades(trades);
        let sent: Vec<Sent> = self.settle_assets(&net_positions);
        let asset_edges: Table<String, usize> = self.count_asset_edges(&sent);
        let plan: SettlementPlan = self.optimize_net_positions(net_positions, trades.len() * 2);
        SettlementSummary { plan, asset_edges }
    }

    /// Nets these trades and settles what is left, if all balances can be
    /// represented.
    pub fn checked_optimize(&self, trades: &Vec<Trade>) -> (r: Option<SettlementSummary>)
        ensures
            r is Some <==> can_settle(trades@),
            r matches Some(summary) ==> {
                &&& summary.plan.net_positions.wf()
                &&& summary.plan.net_positions.items() == netted(trades@)
                &&& are_edges(summary.plan.edges@, transfers(netted(trades@)))
                &&& summary.plan.naive_transfer_count == 2 * trades@.len()
                &&& summary.plan.optimized_transfer_count == routes(transfers(netted(trades@))).len()
                &&& summary.asset_edges.wf()
                &&& summary.asset_edges.items() == tally(transfers(netted(trades@)))
            },
    {
        if trades.len() > usize::MAX / 2 {
            return None;
        }
        match self.checked_positions(trades) {
            None => None,
            Some(net) => {
                let ghost b: Balances = net.items();
                let mut i: usize = 0;
                while i < net.len()
                    invariant
                        i <= b.len(),
                        b == net.items(),
                        b == netted(trades@),
                        forall|k: int| 0 <= k < i ==> (#[trigger] b[k]).1 > i128::MIN,
                    decreases b.len() - i,
                {
                    let entry: &((String, String), i128) = net.at(i);
                    if entry.1 == i128::MIN {
                        assert(b[i as int].1 == i128::MIN);
                        return None;
                    }
                    i += 1;
                }
                Some(self.optimize_trades(trades))
            },
        }
    }

    /// Settles these balances.
    pub fn optimize_net_positions(&self, net_positions: NetPositions, naive_transfer_count: usize) -> (r: SettlementPlan)
        requires
            net_positions.wf(),
            payable(net_positions.items()),
        ensures
            r.net_positions == net_positions,
            are_edges(r.edges@, transfers(net_positions.items())),
            r.naive_transfer_count == naive_transfer_count,
            r.optimized_transfer_count == routes(transfers(net_positions.items())).len(),
    {
        let sent: Vec<Sent> = self.settle_assets(&net_positions);
        let edges: Vec<SettlementEdge> = self.bundle_transfers(&sent);
        let optimized_transfer_count: usize = edges.len();
        SettlementPlan { net_positions, edges, naive_transfer_count, optimized_transfer_count }
    }

    /// What each participant is owed or owes after these trades.
    pub fn net_positions_from_trades(&self, trades: &Vec<Trade>) -> (r: NetPositions)
        requires
            nettable(trades@),
        ensures
            r.wf(),
            r.items() == netted(trades@),
    {
        match self.checked_positions(trades) {
            Some(r) => r,
            None => Table::new(),
        }
    }

    /// What each participant is owed or owes after these trades, if all of it
    /// can be represented on the way.
    pub fn checked_positions(&self, trades: &Vec<Trade>) -> (r: Option<NetPositions>)
        ensures
            match r {
                Some(n) => nettable(trades@) && n.wf() && n.items() == netted(trades@),
                None => !nettable(trades@),
            },
    {
        let mut net: NetPositions = Table::new();
        let mut i: usize = 0;
        assert(trades@.take(0) =~= Seq::<Trade>::empty());
        while i < trades.len()
            invariant
                i <= trades.len(),
                net.wf(),
                nettable(trades@.take(i as int)),
                net.items() == netted(trades@.take(i as int)),
            decreases trades.len() - i,
        {
            let t: &Trade = &trades[i];
            proof {
                assert(trades@.take(i + 1).drop_last() =~= trades@.take(i as int));
                assert(trades@.take(i + 1).last() == *t);
            }
            let ghost b: Balances = net.items();
            let value: u128 = saturating_product(t.quantity, t.price) / PRICE_SCALE;
            let base: &str = t.pair.base.as_str();
            let quote: &str = t.pair.quote.as_str();
            let done: bool = t.quantity <= i128::MAX as u128 && {
                let amount: i128 = t.quantity as i128;
                let worth: i128 = value as i128;
                apply(&mut net, t.buyer_id.as_str(), base, amount) && apply(
                    &mut net,
                    t.buyer_id.as_str(),
                    quote,
                    -worth,
                ) && apply(&mut net, t.seller_id.as_str(), base, -amount) && apply(
                    &mut net,
                    t.seller_id.as_str(),
                    quote,
                    worth,
                )
            };
            if !done {
                proof {
                    assert(!nettable(trades@.take(i + 1)));
                    lemma_nettable_prefix(trades@, i + 1);
                }
                return None;
            }
            i += 1;
        }
        assert(trades@.take(i as int) =~= trades@);
        Some(net)
    }

    /// The transfers that settle these balances.
    fn settle_assets(&self, net: &NetPositions) -> (r: Vec<Sent>)
        requires
            net.wf(),
            payable(net.items()),
        ensures
            sent_views(r@) == transfers(net.items()),
    {
        let ghost b: Balances = net.items();
        let mut assets: Table<String, ()> = Table::new();
        let mut i: usize = 0;
        assert(b.take(0) =~= Seq::<((Seq<char>, Seq<char>), i128)>::empty());
        while i < net.len()
            invariant
                i <= b.len(),
                b == net.items(),
                assets.wf(),
                assets.items() == open_assets(b.take(i as int)),
            decreases b.len() - i,
        {
            assert(b.take(i + 1).drop_last() =~= b.take(i as int));
            let entry: &((String, String), i128) = net.at(i);
            if entry.1 != 0 {
                assets.set(entry.0.1.clone(), ());
            }
            i += 1;
        }
        assert(b.take(i as int) =~= b);
        let mut r: Vec<Sent> = Vec::new();
        let ghost names: Seq<(Seq<char>, ())> = assets.items();
        let mut k: usize = 0;
        assert(names.take(0) =~= Seq::<(Seq<char>, ())>::empty());
        assert(sent_views(r@) =~= Seq::<Transfer>::empty());
        while k < assets.len()
            invariant
                k <= names.len(),
                names == assets.items(),
                b == net.items(),
                net.wf(),
                payable(b),
                sent_views(r@) == transfers_in(b, names.take(k as int)),
            decreases names.len() - k,
        {
            assert(names.take(k + 1).drop_last() =~= names.take(k as int));
            let asset: &(String, ()) = assets.at(k);
            let mut more: Vec<Sent> = settle_asset(net, asset.0.as_str());
            let ghost before: Seq<Sent> = r@;
            let ghost added: Seq<Sent> = more@;
            r.append(&mut more);
            assert(sent_views(r@) =~= sent_views(before) + sent_views(added));
            k += 1;
        }
        assert(names.take(k as int) =~= names);
        r
    }

    /// One bundle for each route.
    fn bundle_transfers(&self, sent: &Vec<Sent>) -> (r: Vec<SettlementEdge>)
        ensures
            are_edges(r@, sent_views(sent@)),
    {
        let ghost t: Seq<Transfer> = sent_views(sent@);
        let mut pairs: Table<(String, String), ()> = Table::new();
        let mut i: usize = 0;
        assert(t.take(0) =~= Seq::<Transfer>::empty());
        while i < sent.len()
            invariant
                i <= sent.len(),
                t == sent_views(sent@),
                pairs.wf(),
                pairs.items() == routes(t.take(i as int)),
            decreases sent.len() - i,
        {
            assert(t.take(i + 1).drop_last() =~= t.take(i as int));
            pairs.set((sent[i].from.clone(), sent[i].to.clone()), ());
            i += 1;
        }
        assert(t.take(i as int) =~= t);
        let mut r: Vec<SettlementEdge> = Vec::new();
        let mut k: usize = 0;
        while k < pairs.len()
            invariant
                k <= pairs.items().len(),
                pairs.items() == routes(t),
                t == sent_views(sent@),
                r@.len() == k,
                forall|j: int|
                    0 <= j < r@.len() ==> {
                        &&& (#[trigger] r@[j]).from@ == routes(t)[j].0.0
                        &&& r@[j].to@ == routes(t)[j].0.1
                        &&& carries(r@[j], along(t, r@[j].from@, r@[j].to@))
                    },
            decreases pairs.items().len() - k,
        {
            let pair: &((String, String), ()) = pairs.at(k);
            r.push(bundle(sent, pair.0.0.as_str(), pair.0.1.as_str()));
            k += 1;
        }
        r
    }

    /// How many transfers there are of each asset.
    fn count_asset_edges(&self, sent: &Vec<Sent>) -> (r: Table<String, usize>)
        ensures
            r.wf(),
            r.items() == tally(sent_views(sent@)),
    {
        let ghost t: Seq<Transfer> = sent_views(sent@);
        let mut counts: Table<String, usize> = Table::new();
        let mut i: usize = 0;
        assert(t.take(0) =~= Seq::<Transfer>::empty());
        while i < sent.len()
            invariant
                i <= sent.len(),
                t == sent_views(sent@),
                counts.wf(),
                counts.items() == tally(t.take(i as int)),
                forall|a: Seq<char>|
                    (#[trigger] lookup(counts.items(), a)) matches Some(n) ==> n <= i,
            decreases sent.len() - i,
        {
            assert(t.take(i + 1).drop_last() =~= t.take(i as int));
            let asset: String = sent[i].transfer.asset.clone();
            let ghost before: Seq<(Seq<char>, usize)> = counts.items();
            let count: usize = match counts.get(&asset) {
                Some(n) => *n,
                None => 0,
            };
            proof {
                lemma_table(before, asset@, (count + 1) as usize);
            }
            counts.set(asset, count + 1);
            i += 1;
        }
        assert(t.take(i as int) =~= t);
        counts
    }
}

proof fn lemma_nettable_prefix(trades: Seq<Trade>, n: int)
    requires
        0 <= n <= trades.len(),
        !nettable(trades.take(n)),
    ensures
        !nettable(trades),
    decreases trades.len() - n,
{
    if n < trades.len() {
        assert(trades.take(n + 1).drop_last() =~= trades.take(n));
        lemma_nettable_prefix(trades, n + 1);
    } else {
        assert(trades.take(n) =~= trades);
    }
}

/// Changes one balance, if the new one can be represented.
fn apply(net: &mut NetPositions, participant: &str, asset: &str, delta: i128) -> (r: bool)
    requires
        old(net).wf(),
    ensures
        final(net).wf(),
        r == credit_fits(old(net).items(), participant@, asset@, delta as int),
        r ==> final(net).items() == credited(old(net).items(), participant@, asset@, delta as int),
{
    let key: (String, String) = (participant.to_string(), asset.to_string());
    let held: i128 = match net.get(&key) {
        Some(b) => *b,
        None => 0,
    };
    match held.checked_add(delta) {
        Some(sum) => {
            net.set(key, sum);
            true
        },
        None => false,
    }
}

/// The transfers that settle one asset.
fn settle_asset(net: &NetPositions, asset: &str) -> (r: Vec<Sent>)
    requires
        net.wf(),
        payable(net.items()),
    ensures
        sent_views(r@) == asset_transfers(net.items(), asset@),
{
    let ghost b: Balances = net.items();
    let mut owing: Vec<usize> = Vec::new();
    let mut debts: Vec<Amount> = Vec::new();
    let mut owed: Vec<usize> = Vec::new();
    let mut claims: Vec<Amount> = Vec::new();
    let mut i: usize = 0;
    assert(b.take(0) =~= Seq::<((Seq<char>, Seq<char>), i128)>::empty());
    assert(heads(owing@, debts@, 0) =~= Seq::<(int, int)>::empty());
    assert(heads(owed@, claims@, 0) =~= Seq::<(int, int)>::empty());
    while i < net.len()
        invariant
            i <= b.len(),
            b == net.items(),
            payable(b),
            owing.len() == debts.len(),
            owed.len() == claims.len(),
            forall|k: int| 0 <= k < owing@.len() ==> #[trigger] owing@[k] < i,
            forall|k: int| 0 <= k < owed@.len() ==> #[trigger] owed@[k] < i,
            heads(owing@, debts@, 0) == debtors(b.take(i as int), asset@),
            heads(owed@, claims@, 0) == creditors(b.take(i as int), asset@),
        decreases b.len() - i,
    {
        assert(b.take(i + 1).drop_last() =~= b.take(i as int));
        let entry: &((String, String), i128) = net.at(i);
        assert(b[i as int].1 == entry.1);
        let balance: i128 = entry.1;
        let ghost owing0: Seq<(int, int)> = heads(owing@, debts@, 0);
        let ghost owed0: Seq<(int, int)> = heads(owed@, claims@, 0);
        if same_text(entry.0.1.as_str(), asset) {
            if balance < 0 {
                let debt: i128 = -balance;
                owing.push(i);
                debts.push(debt as u128);
                assert(heads(owing@, debts@, 0) =~= owing0.push((i as int, debt as int)));
            } else if balance > 0 {
                owed.push(i);
                claims.push(balance as u128);
                assert(heads(owed@, claims@, 0) =~= owed0.push((i as int, balance as int)));
            }
        }
        i += 1;
    }
    assert(b.take(i as int) =~= b);
    proof {
        lemma_payments(b, asset@);
    }
    let fills: Vec<Fill> = pair_queues(&owing, debts, &owed, claims);
    let ghost paid: Seq<(int, int, int)> = payments(b, asset@);
    assert(fill_views(fills@) == paid);
    let mut r: Vec<Sent> = Vec::new();
    let mut k: usize = 0;
    while k < fills.len()
        invariant
            k <= fills.len(),
            b == net.items(),
            fill_views(fills@) == paid,
            paid == payments(b, asset@),
            forall|j: int|
                0 <= j < paid.len() ==> {
                    &&& 0 <= (#[trigger] paid[j]).0 < b.len()
                    &&& 0 <= paid[j].1 < b.len()
                },
            sent_views(r@) =~= asset_transfers(b, asset@).take(k as int),
        decreases fills.len() - k,
    {
        let f: Fill = fills[k];
        assert(paid[k as int] == f@);
        let from: String = net.at(f.buy).0.0.clone();
        let to: String = net.at(f.sell).0.0.clone();
        let ghost before: Seq<Sent> = r@;
        r.push(Sent { from, to, transfer: AssetTransfer { asset: asset.to_string(), amount: f.qty, asset_contract: None } });
        assert(sent_views(r@) =~= sent_views(before).push(asset_transfers(b, asset@)[k as int]));
        k += 1;
    }
    assert(sent_views(r@) =~= asset_transfers(b, asset@));
    r
}

/// Debtors and creditors are among the balances.
proof fn lemma_parties(b: Balances, asset: Seq<char>)
    ensures
        forall|k: int|
            0 <= k < debtors(b, asset).len() ==> 0 <= (#[trigger] debtors(b, asset)[k]).0 < b.len(),
        forall|k: int|
            0 <= k < creditors(b, asset).len() ==> 0 <= (#[trigger] creditors(b, asset)[k]).0 < b.len(),
    decreases b.len(),
{
    if b.len() > 0 {
        let rest: Balances = b.drop_last();
        lemma_parties(rest, asset);
        assert forall|k: int| 0 <= k < debtors(b, asset).len() implies 0 <= (#[trigger] debtors(b, asset)[k]).0
            < b.len() by {
            if k < debtors(rest, asset).len() {
                assert(debtors(b, asset)[k] == debtors(rest, asset)[k]);
            }
        }
        assert forall|k: int| 0 <= k < creditors(b, asset).len() implies 0 <= (#[trigger] creditors(b, asset)[k]).0
            < b.len() by {
            if k < creditors(rest, asset).len() {
                assert(creditors(b, asset)[k] == creditors(rest, asset)[k]);
            }
        }
    }
}

proof fn lemma_ends(buys: Seq<(int, int)>, sells: Seq<(int, int)>, n: int)
    requires
        forall|k: int| 0 <= k < buys.len() ==> 0 <= (#[trigger] buys[k]).0 < n,
        forall|k: int| 0 <= k < sells.len() ==> 0 <= (#[trigger] sells[k]).0 < n,
    ensures
        forall|j: int|
            0 <= j < pair_off(buys, sells).len() ==> {
                &&& 0 <= (#[trigger] pair_off(buys, sells)[j]).0 < n
                &&& 0 <= pair_off(buys, sells)[j].1 < n
            },
    decreases buys.len() + sells.len(),
{
    if buys.len() > 0 && sells.len() > 0 {
        let qty: int = min_of(buys[0].1, sells[0].1);
        let b: Seq<(int, int)> = after_fill(buys, qty);
        let s: Seq<(int, int)> = after_fill(sells, qty);
        assert forall|k: int| 0 <= k < b.len() implies 0 <= (#[trigger] b[k]).0 < n by {
            let at: int = if buys[0].1 <= qty { k + 1 } else { k };
            assert(0 <= buys[at].0 < n);
        }
        assert forall|k: int| 0 <= k < s.len() implies 0 <= (#[trigger] s[k]).0 < n by {
            let at: int = if sells[0].1 <= qty { k + 1 } else { k };
            assert(0 <= sells[at].0 < n);
        }
        lemma_ends(b, s, n);
        let all: Seq<(int, int, int)> = pair_off(buys, sells);
        assert forall|j: int| 0 <= j < all.len() implies 0 <= (#[trigger] all[j]).0 < n && 0 <= all[j].1 < n by {
            if qty <= 0 {
                assert(all[j] == pair_off(b, s)[j]);
            } else if j > 0 {
                assert(all[j] == pair_off(b, s)[j - 1]);
            } else {
                assert(0 <= buys[0].0 < n);
                assert(0 <= sells[0].0 < n);
            }
        }
    }
}

/// Payments are between participants that have a balance.
proof fn lemma_payments(b: Balances, asset: Seq<char>)
    ensures
        forall|j: int|
            0 <= j < payments(b, asset).len() ==> {
                &&& 0 <= (#[trigger] payments(b, asset)[j]).0 < b.len()
                &&& 0 <= payments(b, asset)[j].1 < b.len()
            },
{
    lemma_parties(b, asset);
    lemma_ends(debtors(b, asset), creditors(b, asset), b.len() as int);
}

/// The bundle of one route.
fn bundle(sent: &Vec<Sent>, from: &str, to: &str) -> (r: SettlementEdge)
    ensures
        r.from@ == from@,
        r.to@ == to@,
        carries(r, along(sent_views(sent@), from@, to@)),
{
    let ghost t: Seq<Transfer> = sent_views(sent@);
    let mut r: SettlementEdge = SettlementEdge::new(from, to);
    let mut i: usize = 0;
    assert(t.take(0) =~= Seq::<Transfer>::empty());
    while i < sent.len()
        invariant
            i <= sent.len(),
            t == sent_views(sent@),
            r.from@ == from@,
            r.to@ == to@,
            carries(r, along(t.take(i as int), from@, to@)),
        decreases sent.len() - i,
    {
        assert(t.take(i + 1).drop_last() =~= t.take(i as int));
        let s: &Sent = &sent[i];
        if same_text(s.from.as_str(), from) && same_text(s.to.as_str(), to) {
            r.transfers.push(
                AssetTransfer { asset: s.transfer.asset.clone(), amount: s.transfer.amount, asset_contract: None },
            );
        }
        i += 1;
    }
    assert(t.take(i as int) =~= t);
    r
}

} // verus!
