//! What a netted batch and its clearing program say, in terms of the orders
//! that were collected.

use vstd::prelude::*;
use crate::engines::plain::{law_codes_tell_the_order, lesser};
use crate::multi_asset::clearing::{joined_by, orders_of};
use crate::multi_asset::lp::{clearing_program, flow_terms, limits_of, objective_terms, Program};
use crate::multi_asset::netting::{
    are_net_orders, is_net_order, law_wants_add_up, left_of, net_sides, netted_orders, wanted, wants_of, NetOrder,
    Wants,
};
use crate::multi_asset::pair_laws::{bare, lemma_bare};
use crate::multi_asset::types::{Order, PairView};
use crate::seqs::{lemma_total_same, total};
use crate::tables::{ascending, lemma_placed, lemma_put_new, lemma_put_old, lemma_table, Ranked};
use crate::text::{decimal, joined};
use crate::types::{Amount, Side};

verus! {

/// Whether these are the sides that are wanted, each once: at `at[k]` among
/// the participants, what is bought before what is sold.
spec fn placed_sides(items: Seq<(Seq<char>, Wants)>, at: Seq<int>) -> bool {
    let sides = net_sides(items);
    &&& at.len() == sides.len()
    &&& forall|k: int|
        0 <= k < at.len() ==> 0 <= #[trigger] at[k] < items.len() && sides[k].0 == items[at[k]].0 && wanted(
            items[at[k]].1,
            sides[k].1,
        ) == Some(sides[k].2)
    &&& forall|i: int, j: int|
        0 <= i < j < at.len() ==> #[trigger] at[i] < #[trigger] at[j] || (at[i] == at[j] && sides[i].1 == Side::Buy
            && sides[j].1 == Side::Sell)
}

spec fn has_side(items: Seq<(Seq<char>, Wants)>, a: int, side: Side) -> bool {
    exists|k: int|
        0 <= k < net_sides(items).len() && (#[trigger] net_sides(items)[k]).0 == items[a].0 && net_sides(items)[k].1
            == side
}

proof fn lemma_net_sides(items: Seq<(Seq<char>, Wants)>) -> (at: Seq<int>)
    ensures
        placed_sides(items, at),
        forall|a: int, side: Side|
            0 <= a < items.len() && #[trigger] wanted(items[a].1, side) is Some ==> has_side(items, a, side),
    decreases items.len(),
{
    if items.len() == 0 {
        Seq::empty()
    } else {
        let before: Seq<(Seq<char>, Wants)> = items.drop_last();
        let earlier: Seq<int> = lemma_net_sides(before);
        let n: int = items.len() - 1;
        let (who, wants) = items.last();
        let old_sides: Seq<(Seq<char>, Side, Amount)> = net_sides(before);
        let buys: Seq<int> = if wants.buy is Some { seq![n] } else { Seq::empty() };
        let sells: Seq<int> = if wants.sell is Some { seq![n] } else { Seq::empty() };
        let at: Seq<int> = earlier + buys + sells;
        let sides: Seq<(Seq<char>, Side, Amount)> = net_sides(items);
        let m: int = earlier.len() as int;
        assert(items[n] == items.last());
        assert forall|k: int| 0 <= k < m implies sides[k] == #[trigger] old_sides[k] && at[k] == earlier[k] by {}
        if wants.buy is Some {
            assert(sides[m] == (who, Side::Buy, wants.buy->0));
        }
        if wants.sell is Some {
            assert(sides[sides.len() - 1] == (who, Side::Sell, wants.sell->0));
        }
        assert forall|k: int| 0 <= k < at.len() implies 0 <= #[trigger] at[k] < items.len() && sides[k].0
            == items[at[k]].0 && wanted(items[at[k]].1, sides[k].1) == Some(sides[k].2) by {
            if k < m {
                assert(at[k] == earlier[k]);
                assert(sides[k] == old_sides[k]);
                assert(before[earlier[k]] == items[earlier[k]]);
            }
        }
        assert forall|i: int, j: int| 0 <= i < j < at.len() implies #[trigger] at[i] < #[trigger] at[j] || (at[i]
            == at[j] && sides[i].1 == Side::Buy && sides[j].1 == Side::Sell) by {
            if i < m {
                assert(at[i] == earlier[i]);
                assert(sides[i] == old_sides[i]);
                if j < m {
                    assert(at[j] == earlier[j]);
                    assert(sides[j] == old_sides[j]);
                }
            }
        }
        assert forall|a: int, side: Side|
            0 <= a < items.len() && #[trigger] wanted(items[a].1, side) is Some implies has_side(items, a, side) by {
            if a < n {
                assert(before[a] == items[a]);
                assert(wanted(before[a].1, side) is Some);
                assert(has_side(before, a, side));
                let k: int = choose|k: int|
                    0 <= k < old_sides.len() && (#[trigger] old_sides[k]).0 == before[a].0 && old_sides[k].1 == side;
                assert(sides[k] == old_sides[k]);
            } else if side == Side::Buy {
                assert(sides[m].0 == who && sides[m].1 == side);
            } else {
                assert(sides[sides.len() - 1].0 == who && sides[sides.len() - 1].1 == side);
            }
        }
        at
    }
}

/// What an order leaves, if this participant has placed it on this side.
pub open spec fn own_part(who: Seq<char>, ask: bool) -> spec_fn(Order) -> int {
    |o: Order|
        if o.user_id@ == who && o.is_ask == ask {
            o.remaining as int
        } else {
            0
        }
}

/// This participant has placed an order on this side.
pub open spec fn placed(orders: Seq<Order>, who: Seq<char>, ask: bool) -> bool {
    exists|i: int| 0 <= i < orders.len() && (#[trigger] orders[i]).user_id@ == who && orders[i].is_ask == ask
}

proof fn lemma_own_total(orders: Seq<Order>, who: Seq<char>, side: Side)
    ensures
        total(orders, left_of(who, side)) == total(orders, own_part(who, side == Side::Sell)),
        placed(orders, who, side == Side::Sell) <==> exists|i: int|
            0 <= i < orders.len() && (#[trigger] orders[i]).user_id@ == who && orders[i].side() == side,
{
    let ask: bool = side == Side::Sell;
    assert forall|i: int| 0 <= i < orders.len() implies ((#[trigger] orders[i]).side() == side) == (orders[i].is_ask
        == ask) by {
        lemma_bare(orders[i]);
        law_codes_tell_the_order(bare(orders[i]));
    }
    assert forall|i: int| 0 <= i < orders.len() implies left_of(who, side)(#[trigger] orders[i]) == own_part(who, ask)(
        orders[i],
    ) by {
        assert((orders[i].side() == side) == (orders[i].is_ask == ask));
    }
    lemma_total_same(orders, orders, left_of(who, side), own_part(who, ask));
    if placed(orders, who, ask) {
        let i: int = choose|i: int|
            0 <= i < orders.len() && (#[trigger] orders[i]).user_id@ == who && orders[i].is_ask == ask;
        assert(orders[i].side() == side);
    }
}

/// Netting stands one order for all that a participant has placed on a side:
/// in the pair of the first order, without an id, a moment or a limit, over the
/// sum of what those orders leave, up to the largest number there is. There is
/// one for each participant and side with an order, and no other.
pub proof fn law_net_orders_stand_for_all(net: Seq<NetOrder>, orders: Seq<Order>, who: Seq<char>, side: Side)
    requires
        are_net_orders(net, orders),
    ensures
        forall|i: int|
            0 <= i < net.len() ==> {
                let o = #[trigger] net[i];
                &&& placed(orders, o.participant_id@, o.side == Side::Sell)
                &&& o.remaining == lesser(
                    total(orders, own_part(o.participant_id@, o.side == Side::Sell)),
                    u128::MAX as int,
                )
                &&& o.pair == orders[0].pair
                &&& o.id == 0
                &&& o.timestamp == 0
                &&& o.limit_price is None
            },
        placed(orders, who, side == Side::Sell) ==> exists|i: int|
            0 <= i < net.len() && (#[trigger] net[i]).participant_id@ == who && net[i].side == side,
        forall|i: int, j: int|
            0 <= i < j < net.len() ==> (#[trigger] net[i]).participant_id@ != (#[trigger] net[j]).participant_id@
                || net[i].side != net[j].side,
{
    let items: Seq<(Seq<char>, Wants)> = netted_orders(orders);
    let sides: Seq<(Seq<char>, Side, Amount)> = net_sides(items);
    let at: Seq<int> = lemma_net_sides(items);
    law_wants_add_up(orders, who, side);
    lemma_own_total(orders, who, side);
    assert forall|i: int| 0 <= i < net.len() implies {
        let o = #[trigger] net[i];
        &&& placed(orders, o.participant_id@, o.side == Side::Sell)
        &&& o.remaining == lesser(
            total(orders, own_part(o.participant_id@, o.side == Side::Sell)),
            u128::MAX as int,
        )
        &&& o.pair == orders[0].pair
        &&& o.id == 0
        &&& o.timestamp == 0
        &&& o.limit_price is None
    } by {
        assert(is_net_order(net[i], orders[0].pair, sides[i]));
        let (w, s) = (sides[i].0, sides[i].1);
        law_wants_add_up(orders, w, s);
        lemma_own_total(orders, w, s);
        assert(items[at[i]].0 == w);
        lemma_put_old(items, w, items[at[i]].1, at[i]);
        assert(wants_of(items, w) == items[at[i]].1);
    }
    if placed(orders, who, side == Side::Sell) {
        let a: int = lemma_placed(items, who);
        if !(a < items.len() && items[a].0 == who) {
            lemma_put_new(items, who, Wants { buy: None, sell: None }, a);
        } else {
            lemma_put_old(items, who, items[a].1, a);
        }
        assert(wanted(items[a].1, side) is Some);
        assert(has_side(items, a, side));
        let k: int = choose|k: int|
            0 <= k < sides.len() && (#[trigger] sides[k]).0 == items[a].0 && sides[k].1 == side;
        assert(is_net_order(net[k], orders[0].pair, sides[k]));
    }
    assert forall|i: int, j: int| 0 <= i < j < net.len() implies (#[trigger] net[i]).participant_id@ != (
    #[trigger] net[j]).participant_id@ || net[i].side != net[j].side by {
        assert(is_net_order(net[i], orders[0].pair, sides[i]));
        assert(is_net_order(net[j], orders[0].pair, sides[j]));
        assert(at[i] < at[j] || at[i] == at[j]);
        if at[i] < at[j] {
            assert(items[at[i]].0.precedes(items[at[j]].0));
            Ranked::precedes_irreflexive(items[at[i]].0);
        }
    }
}

proof fn lemma_limits(orders: Seq<Order>)
    ensures
        limits_of(orders).constraints.len() == 2 * orders.len(),
        limits_of(orders).bounds.len() == 0,
        limits_of(orders).binaries.len() == 0,
        forall|i: int|
            0 <= i < orders.len() ==> {
                let id = decimal((#[trigger] orders[i]).oid as int);
                &&& limits_of(orders).constraints[2 * i] == "bound_min_"@ + id + ": "@ + ("v_"@ + id + " >= 0"@)
                &&& limits_of(orders).constraints[2 * i + 1] == "bound_max_"@ + id + ": "@ + ("v_"@ + id + " <= "@ + decimal(
                    orders[i].orig_sz as int,
                ))
            },
    decreases orders.len(),
{
    if orders.len() > 0 {
        let before: Seq<Order> = orders.drop_last();
        lemma_limits(before);
        let n: int = orders.len() - 1;
        assert(orders[n] == orders.last());
        assert forall|i: int| 0 <= i < orders.len() implies {
            let id = decimal((#[trigger] orders[i]).oid as int);
            &&& limits_of(orders).constraints[2 * i] == "bound_min_"@ + id + ": "@ + ("v_"@ + id + " >= 0"@)
            &&& limits_of(orders).constraints[2 * i + 1] == "bound_max_"@ + id + ": "@ + ("v_"@ + id + " <= "@ + decimal(
                orders[i].orig_sz as int,
            ))
        } by {
            if i < n {
                assert(before[i] == orders[i]);
                assert(limits_of(orders).constraints[2 * i] == limits_of(before).constraints[2 * i]);
                assert(limits_of(orders).constraints[2 * i + 1] == limits_of(before).constraints[2 * i + 1]);
            }
        }
    }
}

/// The program of a batch bounds what is filled of every order, from below by
/// nothing and from above by its size, and asks that as much is bought as is
/// sold: what is bought counts with a plus, what is sold with a minus. It
/// minimizes the negative of all fills. A batch without orders has a program
/// without constraints.
pub proof fn law_program_bounds_every_order(orders: Seq<Order>)
    requires
        orders.len() > 0,
    ensures
        ({
            let p = clearing_program(orders);
            let n = orders.len() as int;
            &&& p.constraints.len() == 2 * n + 1
            &&& p.bounds.len() == 0
            &&& p.binaries.len() == 0
            &&& forall|i: int|
                0 <= i < n ==> {
                    let id = decimal((#[trigger] orders[i]).oid as int);
                    &&& p.constraints[2 * i] == "bound_min_"@ + id + ": "@ + ("v_"@ + id + " >= 0"@)
                    &&& p.constraints[2 * i + 1] == "bound_max_"@ + id + ": "@ + ("v_"@ + id + " <= "@ + decimal(
                        orders[i].orig_sz as int,
                    ))
                }
            &&& p.constraints[2 * n] == "conservation_base"@ + ": "@ + (joined(flow_terms(orders), ' ') + " = 0"@)
            &&& p.objective == joined(objective_terms(orders), ' ')
            &&& forall|i: int|
                0 <= i < n ==> {
                    let id = decimal((#[trigger] orders[i]).oid as int);
                    &&& objective_terms(orders)[i] == "-1 "@ + ("v_"@ + id)
                    &&& flow_terms(orders)[i] == (if orders[i].is_ask {
                        "- 1 "@
                    } else {
                        "+ 1 "@
                    }) + ("v_"@ + id)
                }
        }),
        clearing_program(Seq::empty()).constraints.len() == 0,
        clearing_program(Seq::empty()).objective == "0"@,
{
    lemma_limits(orders);
    let p: Program = clearing_program(orders);
    let n: int = orders.len() as int;
    assert forall|i: int| 0 <= i < n implies {
        let id = decimal((#[trigger] orders[i]).oid as int);
        &&& p.constraints[2 * i] == "bound_min_"@ + id + ": "@ + ("v_"@ + id + " >= 0"@)
        &&& p.constraints[2 * i + 1] == "bound_max_"@ + id + ": "@ + ("v_"@ + id + " <= "@ + decimal(
            orders[i].orig_sz as int,
        ))
    } by {
        assert(p.constraints[2 * i] == limits_of(orders).constraints[2 * i]);
        assert(p.constraints[2 * i + 1] == limits_of(orders).constraints[2 * i + 1]);
    }
    assert forall|i: int| 0 <= i < n implies {
        let id = decimal((#[trigger] orders[i]).oid as int);
        &&& objective_terms(orders)[i] == "-1 "@ + ("v_"@ + id)
        &&& flow_terms(orders)[i] == (if orders[i].is_ask {
            "- 1 "@
        } else {
            "+ 1 "@
        }) + ("v_"@ + id)
    } by {
        lemma_bare(orders[i]);
        law_codes_tell_the_order(bare(orders[i]));
    }
}

/// An order joins the batch of its pair behind those that are there; the
/// batches of other pairs stay as they are.
pub proof fn law_order_joins_its_pair(b: Seq<(PairView, Seq<Order>)>, o: Order, pair: PairView)
    requires
        ascending(b),
    ensures
        ascending(joined_by(b, o)),
        orders_of(joined_by(b, o), o.pair@) == orders_of(b, o.pair@).push(o),
        pair != o.pair@ ==> orders_of(joined_by(b, o), pair) == orders_of(b, pair),
{
    lemma_table(b, o.pair@, orders_of(b, o.pair@).push(o));
}

} // verus!
