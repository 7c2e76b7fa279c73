//! A pool that follows the market: the last price of each pair, trades that
//! bring the pool to it, and orders filled from the pool.

use vstd::arithmetic::power2::{lemma_pow2_unfold, pow2};
use vstd::prelude::*;
use crate::engines::auction::Rank;
use crate::multi_asset::amm::pool_price;
use crate::multi_asset::types::{AssetPair, Order, PairView, Trade};
use crate::seqs::{clamped_sub, lemma_total_nonneg, lemma_total_take, saturated, total};
use crate::sorting::{positions, sort_positions, stable_order};
use crate::tables::{lookup, put, Table};
use crate::trades::saturating_product;
use crate::types::{OrderKind, Price, Side, PRICE_SCALE};

verus! {

/// Whether `r` is the whole part of the square root of `n`.
pub open spec fn is_root(n: int, r: int) -> bool {
    0 <= r && r * r <= n < (r + 1) * (r + 1)
}

/// The whole part of the square root.
pub open spec fn root(n: int) -> int {
    choose|r: int| is_root(n, r)
}

/// There is at most one.
pub proof fn lemma_root_is_unique(n: int, r: int)
    requires
        is_root(n, r),
    ensures
        root(n) == r,
{
    let q: int = root(n);
    assert(is_root(n, q));
    assert(q == r) by (nonlinear_arith)
        requires
            0 <= q,
            0 <= r,
            q * q <= n < (q + 1) * (q + 1),
            r * r <= n < (r + 1) * (r + 1),
    ;
}

/// The whole part of the square root, bit by bit from the highest.
pub fn u128_sqrt(value: u128) -> (r: u128)
    ensures
        is_root(value as int, r as int),
        r == root(value as int),
{
    let mut res: u128 = 0;
    let mut bit: u128 = 0x8000_0000_0000_0000;
    let mut i: u32 = 0;
    proof {
        vstd::arithmetic::power2::lemma2_to64();
        vstd::arithmetic::power2::lemma2_to64_rest();
        assert(pow2(63) == 0x8000_0000_0000_0000);
        assert(0x1_0000_0000_0000_0000int * 0x1_0000_0000_0000_0000int == u128::MAX + 1) by (nonlinear_arith);
    }
    while i < 64
        invariant
            i <= 64,
            i < 64 ==> bit == pow2((63 - i) as nat),
            i < 64 ==> res + 2 * bit <= 0x1_0000_0000_0000_0000,
            i < 64 ==> value < (res + 2 * bit) * (res + 2 * bit),
            i == 64 ==> value < (res + 1) * (res + 1),
            res * res <= value,
        decreases 64 - i,
    {
        proof {
            if i < 63 {
                lemma_pow2_unfold((63 - i) as nat);
            } else {
                vstd::arithmetic::power2::lemma2_to64();
                assert(bit == 1);
            }
            assert(bit >= 1) by {
                vstd::arithmetic::power2::lemma_pow2_pos((63 - i) as nat);
            }
        }
        let next: u128 = res + bit;
        let ghost before: u128 = res;
        assert(next * next <= u128::MAX) by (nonlinear_arith)
            requires
                next < 0x1_0000_0000_0000_0000,
        ;
        assert((before + bit) + bit == before + 2 * bit);
        if next * next <= value {
            res = next;
        }
        bit = bit / 2;
        i += 1;
    }
    proof {
        lemma_root_is_unique(value as int, res as int);
    }
    res
}

/// The product of two reserves, as far as it can be represented.
pub open spec fn product(x: int, y: int) -> int {
    saturated(x * y)
}

/// The first reserve at which a pool has a price.
pub open spec fn target_x(x: int, y: int, price: int) -> int {
    root(saturated(product(x, y) * PRICE_SCALE) / price)
}

/// The quotient, rounded up.
pub open spec fn divided_up(a: int, b: int) -> int {
    if a % b == 0 {
        a / b
    } else {
        a / b + 1
    }
}

/// Whether there is anything to gain from trading with a pool at this price.
pub open spec fn moves(x: int, y: int, price: int) -> bool {
    &&& price != 0
    &&& x != 0
    &&& y != 0
    &&& pool_price(x, y) != price
    &&& target_x(x, y, price) != 0
}

/// The reserves after the pool has been brought to a price.
pub open spec fn moved_to(x: int, y: int, price: int) -> (int, int) {
    if moves(x, y, price) {
        (target_x(x, y, price), divided_up(product(x, y), target_x(x, y, price)))
    } else {
        (x, y)
    }
}

/// What changed of the reserves, and whether the first one grew.
pub open spec fn changed(old_x: int, old_y: int, x: int, y: int) -> (int, int, bool) {
    if x > old_x {
        (x - old_x, clamped_sub(old_y, y), true)
    } else {
        (old_x - x, clamped_sub(y, old_y), false)
    }
}

fn divide_up(a: u128, b: u128) -> (r: u128)
    requires
        b > 0,
    ensures
        r == divided_up(a as int, b as int),
{
    proof {
        vstd::arithmetic::div_mod::lemma_fundamental_div_mod(a as int, b as int);
        assert(a as int % b as int != 0 ==> a as int / b as int + 1 <= u128::MAX) by (nonlinear_arith)
            requires
                a as int == b as int * (a as int / b as int) + a as int % b as int,
                0 <= a as int % b as int,
                b > 0,
                a <= u128::MAX,
        ;
    }
    if a % b == 0 {
        a / b
    } else {
        a / b + 1
    }
}

/// A constant-product pool of a pair.
#[derive(Debug)]
pub struct AMMPool {
    pub pair: AssetPair,
    pub reserve_x: u128,
    pub reserve_y: u128,
}

impl AMMPool {
    pub fn new(pair: AssetPair, reserve_x: u128, reserve_y: u128) -> (r: Self)
        ensures
            r == (AMMPool { pair, reserve_x, reserve_y }),
    {
        AMMPool { pair, reserve_x, reserve_y }
    }

    /// The marginal price of the base asset; without any, the highest there
    /// is.
    pub fn price(&self) -> (r: Price)
        ensures
            r == pool_price(self.reserve_x as int, self.reserve_y as int),
    {
        if self.reserve_x == 0 {
            return u128::MAX;
        }
        saturating_product(self.reserve_y, PRICE_SCALE) / self.reserve_x
    }

    /// Brings the pool to a price, and returns what changed of the reserves
    /// and whether the base asset went in. The product of the reserves is
    /// kept or grows.
    pub fn apply_arbitrage(&mut self, target_price: Price) -> (r: (u128, u128, bool))
        ensures
            final(self).pair == old(self).pair,
            (final(self).reserve_x as int, final(self).reserve_y as int) == moved_to(
                old(self).reserve_x as int,
                old(self).reserve_y as int,
                target_price as int,
            ),
            (r.0 as int, r.1 as int, r.2) == if moves(
                old(self).reserve_x as int,
                old(self).reserve_y as int,
                target_price as int,
            ) {
                changed(
                    old(self).reserve_x as int,
                    old(self).reserve_y as int,
                    final(self).reserve_x as int,
                    final(self).reserve_y as int,
                )
            } else {
                (0int, 0int, false)
            },
    {
        if target_price == 0 || self.reserve_x == 0 || self.reserve_y == 0 {
            return (0, 0, false);
        }
        if self.price() == target_price {
            return (0, 0, false);
        }
        let old_x: u128 = self.reserve_x;
        let old_y: u128 = self.reserve_y;
        let k: u128 = saturating_product(old_x, old_y);
        let numerator: u128 = saturating_product(k, PRICE_SCALE);
        let x_target: u128 = u128_sqrt(numerator / target_price);
        if x_target == 0 {
            return (0, 0, false);
        }
        let y_target: u128 = divide_up(k, x_target);
        self.reserve_x = x_target;
        self.reserve_y = y_target;
        if x_target > old_x {
            (x_target - old_x, old_y.saturating_sub(y_target), true)
        } else {
            (old_x - x_target, y_target.saturating_sub(old_y), false)
        }
    }
}

/// The quantity of a trade, if it is of this pair.
pub open spec fn volume_part(pair: PairView) -> spec_fn(Trade) -> int {
    |t: Trade|
        if t.pair@ == pair {
            t.quantity as int
        } else {
            0
        }
}

/// The value of a trade, if it is of this pair.
pub open spec fn value_part(pair: PairView) -> spec_fn(Trade) -> int {
    |t: Trade|
        if t.pair@ == pair {
            saturated(t.quantity * t.price)
        } else {
            0
        }
}

/// The average price of the trades of a pair, by volume.
pub open spec fn batch_price(trades: Seq<Trade>, pair: PairView) -> Option<Price> {
    let volume = saturated(total(trades, volume_part(pair)));
    if volume > 0 {
        Some((saturated(total(trades, value_part(pair))) / volume) as u128)
    } else {
        None
    }
}

/// The last price of each pair.
#[derive(Debug)]
pub struct ArbitrageOracle {
    latest_prices: Table<AssetPair, Price>,
}

impl View for ArbitrageOracle {
    type V = Seq<(PairView, Price)>;

    closed spec fn view(&self) -> Seq<(PairView, Price)> {
        self.latest_prices.items()
    }
}

impl Default for ArbitrageOracle {
    fn default() -> (r: Self)
        ensures
            r.wf(),
            r@ == Seq::<(PairView, Price)>::empty(),
    {
        ArbitrageOracle::new()
    }
}

impl ArbitrageOracle {
    pub closed spec fn wf(&self) -> bool {
        self.latest_prices.wf()
    }

    pub fn new() -> (r: Self)
        ensures
            r.wf(),
            r@ == Seq::<(PairView, Price)>::empty(),
    {
        ArbitrageOracle { latest_prices: Table::new() }
    }

    /// Takes the average price of the trades of a pair for its last one, if
    /// there are any, and returns the last one.
    pub fn observe_batch(&mut self, pair: &AssetPair, trades: &Vec<Trade>) -> (r: Option<Price>)
        requires
            old(self).wf(),
        ensures
            final(self).wf(),
            match batch_price(trades@, pair@) {
                Some(p) => r == Some(p) && final(self)@ == put(old(self)@, pair@, p),
                None => r == lookup(old(self)@, pair@) && final(self)@ == old(self)@,
            },
    {
        let mut total_volume: u128 = 0;
        let mut total_value: u128 = 0;
        let mut i: usize = 0;
        let ghost fv = volume_part(pair@);
        let ghost fw = value_part(pair@);
        assert(trades@.take(0) =~= Seq::<Trade>::empty());
        while i < trades.len()
            invariant
                i <= trades.len(),
                fv == volume_part(pair@),
                fw == value_part(pair@),
                total_volume == saturated(total(trades@.take(i as int), fv)),
                total_value == saturated(total(trades@.take(i as int), fw)),
            decreases trades.len() - i,
        {
            let t: &Trade = &trades[i];
            proof {
                lemma_total_take(trades@, i as int, fv);
                lemma_total_take(trades@, i as int, fw);
                assert(t.quantity * t.price >= 0) by (nonlinear_arith)
                    requires
                        t.quantity >= 0,
                        t.price >= 0,
                ;
            }
            if t.pair.same(pair) {
                total_volume = total_volume.saturating_add(t.quantity);
                total_value = total_value.saturating_add(saturating_product(t.quantity, t.price));
            }
            i += 1;
        }
        assert(trades@.take(i as int) =~= trades@);
        if total_volume > 0 {
            let price: u128 = total_value / total_volume;
            self.latest_prices.set(pair.clone(), price);
            Some(price)
        } else {
            self.get_price(pair)
        }
    }

    /// Sets the last price of a pair.
    pub fn seed_price(&mut self, pair: AssetPair, price: Price)
        requires
            old(self).wf(),
        ensures
            final(self).wf(),
            final(self)@ == put(old(self)@, pair@, price),
    {
        self.latest_prices.set(pair, price);
    }

    /// The last price of a pair.
    pub fn get_price(&self, pair: &AssetPair) -> (r: Option<Price>)
        requires
            self.wf(),
        ensures
            r == lookup(self@, pair@),
    {
        match self.latest_prices.get(pair) {
            Some(p) => Some(*p),
            None => None,
        }
    }
}

/// The priority of an order at the pool: orders at market first, then buys
/// before sells, then the most aggressive limit, then the earliest arrival,
/// then the lowest id.
pub open spec fn residual_rank(o: Order) -> Rank {
    let sell = if o.side() == Side::Sell {
        1int
    } else {
        0
    };
    match o.kind() {
        OrderKind::Market => Rank { tier: sell as u8, price: 0, ts: o.ts, oid: o.oid },
        OrderKind::Limit { price } => Rank {
            tier: (2 + sell) as u8,
            price: match o.side() {
                Side::Buy => (u128::MAX - price) as u128,
                Side::Sell => price,
            },
            ts: o.ts,
            oid: o.oid,
        },
    }
}

pub open spec fn residual_ranks(orders: Seq<Order>) -> Seq<Rank> {
    Seq::new(orders.len(), |i: int| residual_rank(orders[i]))
}

fn rank_residual(o: &Order) -> (r: Rank)
    ensures
        r == residual_rank(*o),
{
    match (o.kind(), o.side()) {
        (OrderKind::Market, Side::Buy) => Rank { tier: 0, price: 0, ts: o.ts, oid: o.oid },
        (OrderKind::Market, Side::Sell) => Rank { tier: 1, price: 0, ts: o.ts, oid: o.oid },
        (OrderKind::Limit { price }, Side::Buy) => Rank { tier: 2, price: u128::MAX - price, ts: o.ts, oid: o.oid },
        (OrderKind::Limit { price }, Side::Sell) => Rank { tier: 3, price, ts: o.ts, oid: o.oid },
    }
}

/// What a buyer pays the pool for `dx`: rounded up, in favour of the pool.
pub open spec fn cost(x: int, y: int, dx: int) -> int {
    divided_up(saturated(y * dx), x - dx)
}

/// What the pool pays a seller for `dx`: rounded down, in favour of the pool.
pub open spec fn proceeds(x: int, y: int, dx: int) -> int {
    saturated(y * dx) / saturated(x + dx)
}

/// The price of `dx` for `dy`, in fixed point.
pub open spec fn unit_price(dx: int, dy: int, otherwise: int) -> int {
    if dy * PRICE_SCALE <= u128::MAX {
        (dy * PRICE_SCALE) / dx
    } else {
        otherwise
    }
}

/// The price at which the pool fills an order, if it does.
pub open spec fn fill_price(x: int, y: int, o: Order) -> Option<int> {
    let dx = o.remaining as int;
    match o.side() {
        Side::Buy => if dx >= x {
            None
        } else {
            let price = unit_price(dx, cost(x, y, dx), u128::MAX as int);
            if o.limit_price() matches Some(limit) && price > limit {
                None
            } else {
                Some(price)
            }
        },
        Side::Sell => if proceeds(x, y, dx) == 0 {
            None
        } else {
            let price = unit_price(dx, proceeds(x, y, dx), 0);
            if o.limit_price() matches Some(limit) && price < limit {
                None
            } else {
                Some(price)
            }
        },
    }
}

/// The reserves after an order has been filled.
pub open spec fn filled_reserves(x: int, y: int, o: Order) -> (int, int) {
    let dx = o.remaining as int;
    match o.side() {
        Side::Buy => (x - dx, saturated(y + cost(x, y, dx))),
        Side::Sell => (saturated(x + dx), clamped_sub(y, proceeds(x, y, dx))),
    }
}

/// Whether this trade records that the pool filled an order.
pub open spec fn is_pool_trade(t: Trade, pair: AssetPair, o: Order, price: int, id: int) -> bool {
    &&& t.trade_id == id
    &&& t.pair == pair
    &&& t.price == price
    &&& t.quantity == o.remaining
    &&& t.ts == o.ts
    &&& t.trade_tx_hash is None
    &&& t.chain_id is None
    &&& match o.side() {
        Side::Buy => {
            &&& t.buyer_id == o.user_id
            &&& t.seller_id@ == "AMM_POOL"@
            &&& t.buy_order_id == o.oid
            &&& t.sell_order_id == 0
        },
        Side::Sell => {
            &&& t.buyer_id@ == "AMM_POOL"@
            &&& t.seller_id == o.user_id
            &&& t.buy_order_id == 0
            &&& t.sell_order_id == o.oid
        },
    }
}

/// What filling a list of orders from a pool leads to.
#[verifier::ext_equal]
pub struct PoolRun {
    pub x: int,
    pub y: int,
    /// The orders that were filled, with the price of each.
    pub filled: Seq<(Order, int)>,
    /// The orders that the pool could not fill.
    pub left: Seq<Order>,
}

/// Order after order is filled whole, or left; those of nothing are dropped.
pub open spec fn run_pool(x: int, y: int, orders: Seq<Order>) -> PoolRun
    decreases orders.len(),
{
    if orders.len() == 0 {
        PoolRun { x, y, filled: Seq::empty(), left: Seq::empty() }
    } else {
        let before = run_pool(x, y, orders.drop_last());
        let o = orders.last();
        if o.remaining == 0 {
            before
        } else {
            match fill_price(before.x, before.y, o) {
                Some(price) => {
                    let (x2, y2) = filled_reserves(before.x, before.y, o);
                    PoolRun { x: x2, y: y2, filled: before.filled.push((o, price)), left: before.left }
                },
                None => PoolRun { left: before.left.push(o), ..before },
            }
        }
    }
}

/// The elements at these positions.
pub open spec fn taken(orders: Seq<Order>, at: Seq<usize>) -> Seq<Order> {
    Seq::new(at.len(), |i: int| orders[at[i] as int])
}

/// Whether these are the trades of a pool run, numbered after `last_id`.
pub open spec fn are_pool_trades(trades: Seq<Trade>, pair: AssetPair, filled: Seq<(Order, int)>, last_id: int) -> bool {
    &&& trades.len() == filled.len()
    &&& forall|i: int|
        0 <= i < trades.len() ==> is_pool_trade(#[trigger] trades[i], pair, filled[i].0, filled[i].1, last_id + 1 + i)
}

fn price_per_unit(dx: u128, dy: u128, otherwise: u128) -> (r: u128)
    requires
        dx > 0,
    ensures
        r == unit_price(dx as int, dy as int, otherwise as int),
{
    match dy.checked_mul(PRICE_SCALE) {
        Some(v) => v / dx,
        None => otherwise,
    }
}

/// Fills an order from the pool, and returns the price, if it does.
fn fill_from(pool: &mut AMMPool, order: &Order) -> (r: Option<Price>)
    requires
        order.remaining > 0,
    ensures
        final(pool).pair == old(pool).pair,
        match fill_price(old(pool).reserve_x as int, old(pool).reserve_y as int, *order) {
            Some(price) => {
                &&& r matches Some(p) && p == price
                &&& (final(pool).reserve_x as int, final(pool).reserve_y as int) == filled_reserves(
                    old(pool).reserve_x as int,
                    old(pool).reserve_y as int,
                    *order,
                )
            },
            None => r is None && *final(pool) == *old(pool),
        },
{
    let dx: u128 = order.remaining;
    match order.side() {
        Side::Buy => {
            if dx >= pool.reserve_x {
                return None;
            }
            let dy: u128 = divide_up(saturating_product(pool.reserve_y, dx), pool.reserve_x - dx);
            let price: u128 = price_per_unit(dx, dy, u128::MAX);
            if let Some(limit) = order.limit_price() {
                if price > limit {
                    return None;
                }
            }
            pool.reserve_x = pool.reserve_x - dx;
            pool.reserve_y = pool.reserve_y.saturating_add(dy);
            Some(price)
        },
        Side::Sell => {
            let dy: u128 = saturating_product(pool.reserve_y, dx) / pool.reserve_x.saturating_add(dx);
            if dy == 0 {
                return None;
            }
            let price: u128 = price_per_unit(dx, dy, 0);
            if let Some(limit) = order.limit_price() {
                if price < limit {
                    return None;
                }
            }
            pool.reserve_x = pool.reserve_x.saturating_add(dx);
            pool.reserve_y = pool.reserve_y.saturating_sub(dy);
            Some(price)
        },
    }
}

/// Keeps pools at the market price.
#[derive(Debug)]
pub struct ArbitrageEngine {
    pub oracle: ArbitrageOracle,
}

impl ArbitrageEngine {
    pub fn new() -> (r: Self)
        ensures
            r.oracle.wf(),
            r.oracle@ == Seq::<(PairView, Price)>::empty(),
    {
        ArbitrageEngine { oracle: ArbitrageOracle::new() }
    }

    /// Brings a pool to the last price of its pair, which these trades may
    /// set, and returns that price.
    pub fn synchronize_amm(&mut self, pool: &mut AMMPool, latest_trades: &Vec<Trade>) -> (r: Option<Price>)
        requires
            old(self).oracle.wf(),
        ensures
            final(self).oracle.wf(),
            match batch_price(latest_trades@, old(pool).pair@) {
                Some(p) => r == Some(p) && final(self).oracle@ == put(old(self).oracle@, old(pool).pair@, p),
                None => r == lookup(old(self).oracle@, old(pool).pair@) && final(self).oracle@ == old(self).oracle@,
            },
            final(pool).pair == old(pool).pair,
            (final(pool).reserve_x as int, final(pool).reserve_y as int) == match r {
                Some(p) => moved_to(old(pool).reserve_x as int, old(pool).reserve_y as int, p as int),
                None => (old(pool).reserve_x as int, old(pool).reserve_y as int),
            },
    {
        let target_price: Option<Price> = self.oracle.observe_batch(&pool.pair, latest_trades);
        if let Some(price) = target_price {
            let _: (u128, u128, bool) = pool.apply_arbitrage(price);
        }
        target_price
    }

    /// Fills orders from a pool in order of priority, each whole or not at
    /// all. Those that the pool could not fill are left, in that order.
    pub fn fill_residual_orders(
        &self,
        pool: &mut AMMPool,
        residual_orders: &mut Vec<Order>,
        trade_id_counter: &mut u64,
    ) -> (r: Vec<Trade>)
        requires
            *old(trade_id_counter) + old(residual_orders).len() <= u64::MAX,
        ensures
            final(pool).pair == old(pool).pair,
            exists|at: Seq<usize>| #[trigger]
                stable_order(residual_ranks(old(residual_orders)@), at) && {
                    let run = run_pool(
                        old(pool).reserve_x as int,
                        old(pool).reserve_y as int,
                        taken(old(residual_orders)@, at),
                    );
                    &&& final(pool).reserve_x == run.x
                    &&& final(pool).reserve_y == run.y
                    &&& final(residual_orders)@ == run.left
                    &&& are_pool_trades(r@, old(pool).pair, run.filled, *old(trade_id_counter) as int)
                    &&& *final(trade_id_counter) == *old(trade_id_counter) + run.filled.len()
                },
    {
        let ghost orders: Seq<Order> = residual_orders@;
        let ghost pair: AssetPair = pool.pair;
        let ghost x: int = pool.reserve_x as int;
        let ghost y: int = pool.reserve_y as int;
        let ghost last: int = *trade_id_counter as int;
        let mut keys: Vec<Rank> = Vec::new();
        let mut i: usize = 0;
        while i < residual_orders.len()
            invariant
                i <= residual_orders.len(),
                residual_orders@ == orders,
                keys@ =~= residual_ranks(orders).take(i as int),
            decreases residual_orders.len() - i,
        {
            keys.push(rank_residual(&residual_orders[i]));
            i += 1;
        }
        assert(keys@ =~= residual_ranks(orders));
        let at: Vec<usize> = sort_positions(&keys);
        let ghost queue: Seq<Order> = taken(orders, at@);
        let mut trades: Vec<Trade> = Vec::new();
        let mut left: Vec<Order> = Vec::new();
        let mut k: usize = 0;
        assert(queue.take(0) =~= Seq::<Order>::empty());
        while k < at.len()
            invariant
                k <= at.len(),
                at@.len() == orders.len(),
                residual_orders@ == orders,
                forall|j: int| 0 <= j < at@.len() ==> #[trigger] at@[j] < orders.len(),
                queue == taken(orders, at@),
                pool.pair == pair,
                pool.reserve_x == run_pool(x, y, queue.take(k as int)).x,
                pool.reserve_y == run_pool(x, y, queue.take(k as int)).y,
                left@ == run_pool(x, y, queue.take(k as int)).left,
                are_pool_trades(trades@, pair, run_pool(x, y, queue.take(k as int)).filled, last),
                *trade_id_counter == last + trades@.len(),
                trades@.len() <= k,
                last + orders.len() <= u64::MAX,
            decreases at.len() - k,
        {
            assert(queue.take(k + 1).drop_last() =~= queue.take(k as int));
            assert(queue.take(k + 1).last() == orders[at@[k as int] as int]);
            let order: &Order = &residual_orders[at[k]];
            if order.remaining > 0 {
                match fill_from(pool, order) {
                    Some(price) => {
                        *trade_id_counter = *trade_id_counter + 1;
                        let (buyer_id, seller_id, buy_order_id, sell_order_id): (String, String, u64, u64) = match order.side() {
                            Side::Buy => (order.user_id.clone(), "AMM_POOL".to_string(), order.oid, 0),
                            Side::Sell => ("AMM_POOL".to_string(), order.user_id.clone(), 0, order.oid),
                        };
                        trades.push(
                            Trade {
                                trade_id: *trade_id_counter,
                                pair: pool.pair.clone(),
                                price,
                                quantity: order.remaining,
                                buyer_id,
                                seller_id,
                                buy_order_id,
                                sell_order_id,
                                ts: order.ts,
                                trade_tx_hash: None,
                                chain_id: None,
                            },
                        );
                    },
                    None => {
                        left.push(order.clone());
                    },
                }
            }
            k += 1;
        }
        assert(queue.take(k as int) =~= queue);
        *residual_orders = left;
        trades
    }
}

/// Bringing a pool to a price never shrinks the product of its reserves, as
/// far as that can be represented.
pub proof fn law_arbitrage_keeps_the_product(x: int, y: int, price: int)
    requires
        0 <= x <= u128::MAX,
        0 <= y <= u128::MAX,
        0 <= price <= u128::MAX,
        moves(x, y, price),
    ensures
        ({
            let (x2, y2) = moved_to(x, y, price);
            product(x, y) <= x2 * y2 < product(x, y) + x2
        }),
{
    let k: int = product(x, y);
    assert(x * y >= 0) by (nonlinear_arith)
        requires
            x >= 0,
            y >= 0,
    ;
    lemma_target(x, y, price);
    let t: int = target_x(x, y, price);
    vstd::arithmetic::div_mod::lemma_fundamental_div_mod(k, t);
    assert(0 <= k % t < t);
    let q: int = k / t;
    assert(t * (q + 1) == t * q + t) by (nonlinear_arith);
}

pub proof fn lemma_target(x: int, y: int, price: int)
    requires
        0 <= x,
        0 <= y,
        0 < price,
    ensures
        is_root(saturated(product(x, y) * PRICE_SCALE) / price, target_x(x, y, price)),
        target_x(x, y, price) >= 0,
{
    assert(x * y >= 0) by (nonlinear_arith)
        requires
            x >= 0,
            y >= 0,
    ;
    let n: int = saturated(product(x, y) * PRICE_SCALE) / price;
    assert(n >= 0) by {
        vstd::arithmetic::div_mod::lemma_div_pos_is_pos(saturated(product(x, y) * PRICE_SCALE), price);
    }
    assert(n < (n + 1) * (n + 1)) by (nonlinear_arith)
        requires
            n >= 0,
    ;
    let r: int = lemma_root_exists(n, n);
}

proof fn lemma_root_exists(n: int, m: int) -> (r: int)
    requires
        0 <= n,
        0 <= m,
        n < (m + 1) * (m + 1),
    ensures
        is_root(n, r),
    decreases m,
{
    if m * m <= n {
        m
    } else {
        assert(m > 0) by (nonlinear_arith)
            requires
                m * m > n,
                n >= 0,
                m >= 0,
        ;
        lemma_root_exists(n, m - 1)
    }
}

/// The pool is brought as close to the price as whole units allow: the
/// reserve it gets is the largest whose square, at that price, is no more
/// than the product of the reserves.
pub proof fn law_arbitrage_hits_the_price(x: int, y: int, price: int)
    requires
        0 <= x,
        0 <= y,
        0 < price,
        x * y * PRICE_SCALE <= u128::MAX,
        moves(x, y, price),
    ensures
        ({
            let (x2, y2) = moved_to(x, y, price);
            x2 * x2 * price <= x * y * PRICE_SCALE < (x2 + 1) * (x2 + 1) * price
        }),
{
    assert(x * y >= 0) by (nonlinear_arith)
        requires
            x >= 0,
            y >= 0,
    ;
    lemma_target(x, y, price);
    let n: int = x * y * PRICE_SCALE;
    assert(product(x, y) == x * y);
    let t: int = target_x(x, y, price);
    vstd::arithmetic::div_mod::lemma_fundamental_div_mod(n, price);
    assert(0 <= n % price < price);
    let q: int = n / price;
    assert(t * t * price <= n) by (nonlinear_arith)
        requires
            t * t <= q,
            n == price * q + n % price,
            0 <= n % price,
            price > 0,
    ;
    assert(n < (t + 1) * (t + 1) * price) by (nonlinear_arith)
        requires
            q < (t + 1) * (t + 1),
            n == price * q + n % price,
            n % price < price,
            price > 0,
    ;
}

/// The average price of a batch lies between its lowest and highest price.
pub proof fn law_batch_price_is_between(trades: Seq<Trade>, pair: PairView, low: int, high: int)
    requires
        forall|i: int|
            0 <= i < trades.len() && (#[trigger] trades[i]).pair@ == pair ==> {
                &&& low <= trades[i].price <= high
                &&& trades[i].quantity * trades[i].price <= u128::MAX
            },
        total(trades, volume_part(pair)) <= u128::MAX,
        total(trades, value_part(pair)) <= u128::MAX,
    ensures
        batch_price(trades, pair) matches Some(p) ==> low <= p <= high,
{
    let fv = volume_part(pair);
    let fw = value_part(pair);
    lemma_average(trades, pair, low, high);
    let v: int = total(trades, fv);
    let w: int = total(trades, fw);
    lemma_total_nonneg(trades, fv);
    if v > 0 {
        assert(low <= w / v <= high) by (nonlinear_arith)
            requires
                low * v <= w <= high * v,
                v > 0,
        ;
        assert(0 <= w / v <= w) by (nonlinear_arith)
            requires
                v > 0,
                w >= 0,
        ;
    }
}

proof fn lemma_average(trades: Seq<Trade>, pair: PairView, low: int, high: int)
    requires
        forall|i: int|
            0 <= i < trades.len() && (#[trigger] trades[i]).pair@ == pair ==> {
                &&& low <= trades[i].price <= high
                &&& trades[i].quantity * trades[i].price <= u128::MAX
            },
    ensures
        low * total(trades, volume_part(pair)) <= total(trades, value_part(pair)) <= high * total(
            trades,
            volume_part(pair),
        ),
        total(trades, value_part(pair)) >= 0,
    decreases trades.len(),
{
    if trades.len() > 0 {
        let rest: Seq<Trade> = trades.drop_last();
        let t: Trade = trades.last();
        assert(trades[trades.len() - 1] == t);
        assert forall|i: int| 0 <= i < rest.len() && (#[trigger] rest[i]).pair@ == pair implies {
            &&& low <= rest[i].price <= high
            &&& rest[i].quantity * rest[i].price <= u128::MAX
        } by {
            assert(trades[i] == rest[i]);
        }
        lemma_average(rest, pair, low, high);
        let v: int = total(rest, volume_part(pair));
        let q: int = t.quantity as int;
        let p: int = t.price as int;
        assert(low * (v + q) == low * v + low * q) by (nonlinear_arith);
        assert(high * (v + q) == high * v + high * q) by (nonlinear_arith);
        assert(q * p >= 0) by (nonlinear_arith)
            requires
                q >= 0,
                p >= 0,
        ;
        if t.pair@ == pair {
            assert(low * q <= q * p <= high * q) by (nonlinear_arith)
                requires
                    low <= p <= high,
                    q >= 0,
            ;
        }
    }
}

/// The pool never loses on a fill: the product of its reserves does not
/// shrink.
pub proof fn law_fills_never_cost_the_pool(x: int, y: int, o: Order)
    requires
        0 <= x <= u128::MAX,
        0 <= y <= u128::MAX,
        o.remaining > 0,
        fill_price(x, y, o) is Some,
        y * o.remaining <= u128::MAX,
        x + o.remaining <= u128::MAX,
        y + cost(x, y, o.remaining as int) <= u128::MAX,
    ensures
        ({
            let (x2, y2) = filled_reserves(x, y, o);
            x2 * y2 >= x * y
        }),
{
    let dx: int = o.remaining as int;
    assert(y * dx >= 0) by (nonlinear_arith)
        requires
            y >= 0,
            dx >= 0,
    ;
    match o.side() {
        Side::Buy => {
            let d: int = x - dx;
            let n: int = y * dx;
            vstd::arithmetic::div_mod::lemma_fundamental_div_mod(n, d);
            let c: int = cost(x, y, dx);
            assert(d * c >= n) by (nonlinear_arith)
                requires
                    d > 0,
                    n == d * (n / d) + n % d,
                    0 <= n % d < d,
                    c == (if n % d == 0 { n / d } else { n / d + 1 }),
            ;
            assert(d * (y + c) >= x * y) by (nonlinear_arith)
                requires
                    d == x - dx,
                    n == y * dx,
                    d * c >= n,
            ;
        },
        Side::Sell => {
            let d: int = x + dx;
            let n: int = y * dx;
            vstd::arithmetic::div_mod::lemma_fundamental_div_mod(n, d);
            let p: int = proceeds(x, y, dx);
            assert(d * p <= n);
            assert(p <= y) by (nonlinear_arith)
                requires
                    d * p <= n,
                    n == y * dx,
                    d == x + dx,
                    dx > 0,
                    x >= 0,
                    y >= 0,
            ;
            assert(d * (y - p) >= x * y) by (nonlinear_arith)
                requires
                    d == x + dx,
                    n == y * dx,
                    d * p <= n,
            ;
        },
    }
}

/// No order is filled at a price worse than its limit.
pub proof fn law_pool_respects_limits(x: int, y: int, o: Order)
    ensures
        fill_price(x, y, o) matches Some(price) ==> (o.limit_price() matches Some(limit) ==> match o.side() {
            Side::Buy => price <= limit,
            Side::Sell => price >= limit,
        }),
{
}

} // verus!
