//! What a session does with entered orders and how it lists orders and trades.

use vstd::prelude::*;
use crate::engines::plain::{at_market, law_codes_tell_the_order, opens, withdraws};
use crate::inputs::cli::{meaning, price_text, law_written_price_reads_back, CommandView, EngineMode};
use crate::inputs::scan_cmd::{category_of, Category};
use crate::inputs::session::{display_rank, displayed, is_entered, live_count, on_side, trade_time, SessionState};
use crate::inputs::simulator::nearest_unit;
use crate::metrics::flushing_laws::{lemma_pick_sorted, lemma_sorted_members};
use crate::metrics::row_laws::lemma_sorted_in_turn;
use crate::seqs::{lemma_total_same, total};
use crate::sorting::{pick, sorted_by};
use crate::text::{ascii_folded, decimal, folded};
use crate::types::{Order, Price, Side, Trade};

verus! {

/// An entered order is live and whole: of the side, user and moment given, with
/// that id and all of the quantity unfilled; at the price given, or without one
/// at any price.
pub proof fn law_entered_order_is_live(
    o: Order,
    id: u64,
    user: Seq<char>,
    side: Side,
    price: Option<Price>,
    quantity: u128,
    ts: u64,
)
    requires
        is_entered(o, id, user, side, price, quantity, ts),
    ensures
        opens(o),
        !withdraws(o),
        o.oid == id,
        o.user_id@ == user,
        o.ts == ts,
        o.is_ask == (side == Side::Sell),
        at_market(o) == (price is None),
        price matches Some(p) ==> o.limit_px == p,
        o.remaining == quantity,
        o.orig_sz == quantity,
        o.sz == quantity,
{
    law_codes_tell_the_order(o);
}

/// Orders go to the book that is active, one after the other; the other book
/// stays as it is.
pub proof fn law_active_book_takes_the_order(state: SessionState, o: Order)
    ensures
        state.mode == EngineMode::Batch ==> state.took(o).fba == state.fba.submitted(o),
        state.mode == EngineMode::Batch ==> state.took(o).cda == state.cda,
        state.mode == EngineMode::Continuous ==> state.took(o).fba == state.fba,
        state.took(o).mode == state.mode,
        state.mode == EngineMode::Continuous && state.cda.has_room_for(o) ==> state.took(o).cda == state.cda.submitted(o),
        state.mode == EngineMode::Continuous && !state.cda.has_room_for(o) ==> state.took(o) == state,
        state.took_all(seq![o]) == state.took(o),
{
    let one: Seq<Order> = seq![o];
    assert(one.last() == o);
    assert(one.drop_last() =~= Seq::<Order>::empty());
    assert(state.took_all(one.drop_last()) == state);
}

/// One for each record that opens an order.
pub open spec fn opening() -> spec_fn(Order) -> int {
    |o: Order|
        if opens(o) {
            1
        } else {
            0
        }
}

/// Loading counts the records that open an order. A scan tells these from the
/// ones that withdraw an order, and both from all others.
pub proof fn law_records_are_told_apart(orders: Seq<Order>, o: Order)
    ensures
        live_count(orders) == total(orders, opening()),
        category_of(o) == Category::NewLiveOrder <==> opens(o),
        category_of(o) == Category::Cancellation <==> withdraws(o),
        category_of(o) == Category::Other <==> !opens(o) && !withdraws(o),
{
    law_codes_tell_the_order(o);
    let f = |x: Order| if x.is_new_live_order() { 1int } else { 0int };
    assert forall|i: int| 0 <= i < orders.len() implies f(#[trigger] orders[i]) == opening()(orders[i]) by {
        law_codes_tell_the_order(orders[i]);
    }
    lemma_total_same(orders, orders, f, opening());
}

/// A list in ascending order of key is the old one, rearranged: elements with
/// the same key keep their order. The places tell where each one was.
pub proof fn lemma_sorted_places<T>(s: Seq<T>, key: spec_fn(T) -> int) -> (at: Seq<int>)
    ensures
        at.len() == sorted_by(s, key).len(),
        at.len() == s.len(),
        forall|i: int| 0 <= i < at.len() ==> 0 <= #[trigger] at[i] < s.len() && sorted_by(s, key)[i] == s[at[i]],
        forall|i: int, j: int|
            0 <= i < j < at.len() ==> key(s[#[trigger] at[i]]) < key(s[#[trigger] at[j]]) || (key(s[at[i]]) == key(s[at[j]])
                && at[i] < at[j]),
        forall|x: int| 0 <= x < s.len() ==> #[trigger] at.contains(x),
{
    let all: Seq<int> = Seq::new(s.len(), |i: int| i);
    let k = |i: int| key(s[i]);
    let at: Seq<int> = sorted_by(all, k);
    lemma_sorted_in_turn(all, k);
    lemma_sorted_members(all, k);
    lemma_pick_sorted(s, all, k, key);
    assert(pick(s, all) =~= s);
    lemma_sorted_len(all, k);
    assert(pick(s, at) == sorted_by(s, key));
    assert forall|i: int| 0 <= i < at.len() implies 0 <= #[trigger] at[i] < s.len() && sorted_by(s, key)[i] == s[at[i]] by {
        assert(all.contains(at[i]));
        let m: int = choose|m: int| 0 <= m < all.len() && all[m] == at[i];
        assert(pick(s, at)[i] == s[at[i]]);
    }
    assert forall|i: int, j: int| 0 <= i < j < at.len() implies key(s[#[trigger] at[i]]) < key(s[#[trigger] at[j]]) || (key(
        s[at[i]],
    ) == key(s[at[j]]) && at[i] < at[j]) by {
        assert(k(at[i]) < k(at[j]) || (k(at[i]) == k(at[j]) && at[i] < at[j]));
    }
    assert forall|x: int| 0 <= x < s.len() implies #[trigger] at.contains(x) by {
        assert(all[x] == x);
        assert(at.contains(all[x]));
    }
    at
}

proof fn lemma_sorted_len(s: Seq<int>, key: spec_fn(int) -> int)
    ensures
        sorted_by(s, key).len() == s.len(),
    decreases s.len(),
{
    if s.len() > 0 {
        lemma_sorted_len(s.drop_last(), key);
        lemma_placed_len(sorted_by(s.drop_last(), key), s.last(), key);
    }
}

proof fn lemma_placed_len(s: Seq<int>, x: int, key: spec_fn(int) -> int)
    ensures
        crate::sorting::placed_by(s, x, key).len() == s.len() + 1,
    decreases s.len(),
{
    if s.len() > 0 {
        lemma_placed_len(s.drop_last(), x, key);
    }
}

/// `a` is listed before `b` of the same side: the higher bid, or the lower ask;
/// orders at any price come after all with a limit that says more than theirs.
pub open spec fn listed_before(a: Order, b: Order) -> bool {
    if a.is_ask {
        !at_market(a) && (!at_market(b) && a.limit_px < b.limit_px || at_market(b) && a.limit_px < u128::MAX)
    } else {
        !at_market(a) && (!at_market(b) && a.limit_px > b.limit_px || at_market(b) && a.limit_px > 0)
    }
}

/// A listing of one side has the orders of that side and no others, best
/// first; orders that are no better than each other stand in the order in which
/// they came.
pub proof fn law_listing_shows_the_best_first(orders: Seq<Order>, side: Side)
    ensures
        ({
            let shown = displayed(orders, side);
            &&& forall|i: int|
                0 <= i < shown.len() ==> orders.contains(#[trigger] shown[i]) && shown[i].is_ask == (side == Side::Sell)
            &&& forall|x: int|
                0 <= x < orders.len() && (#[trigger] orders[x]).is_ask == (side == Side::Sell) ==> shown.contains(
                    orders[x],
                )
            &&& shown.len() == total(orders, |o: Order| if o.is_ask == (side == Side::Sell) { 1int } else { 0int })
            &&& forall|i: int, j: int|
                0 <= i < j < shown.len() ==> !listed_before(#[trigger] shown[j], #[trigger] shown[i])
        }),
{
    let mine: Seq<Order> = orders.filter(on_side(side));
    let shown: Seq<Order> = displayed(orders, side);
    let key: spec_fn(Order) -> int = display_rank(side);
    let at: Seq<int> = lemma_sorted_places(mine, key);
    lemma_side(orders, side);
    assert forall|i: int| 0 <= i < shown.len() implies orders.contains(#[trigger] shown[i]) && shown[i].is_ask == (side
        == Side::Sell) by {
        assert(shown[i] == mine[at[i]]);
    }
    assert forall|x: int| 0 <= x < orders.len() && (#[trigger] orders[x]).is_ask == (side == Side::Sell) implies shown.contains(
        orders[x],
    ) by {
        assert(mine.contains(orders[x]));
        let m: int = choose|m: int| 0 <= m < mine.len() && mine[m] == orders[x];
        assert(at.contains(m));
        let i: int = choose|i: int| 0 <= i < at.len() && at[i] == m;
        assert(shown[i] == orders[x]);
    }
    assert forall|i: int, j: int| 0 <= i < j < shown.len() implies !listed_before(
        #[trigger] shown[j],
        #[trigger] shown[i],
    ) by {
        assert(key(mine[at[i]]) <= key(mine[at[j]]));
        assert(shown[i] == mine[at[i]] && shown[j] == mine[at[j]]);
        law_codes_tell_the_order(shown[i]);
        law_codes_tell_the_order(shown[j]);
    }
}

proof fn lemma_side(orders: Seq<Order>, side: Side)
    ensures
        ({
            let mine = orders.filter(on_side(side));
            &&& forall|i: int|
                0 <= i < mine.len() ==> orders.contains(#[trigger] mine[i]) && mine[i].is_ask == (side == Side::Sell)
            &&& forall|x: int|
                0 <= x < orders.len() && (#[trigger] orders[x]).is_ask == (side == Side::Sell) ==> mine.contains(
                    orders[x],
                )
            &&& mine.len() == total(orders, |o: Order| if o.is_ask == (side == Side::Sell) { 1int } else { 0int })
        }),
    decreases orders.len(),
{
    reveal(Seq::filter);
    if orders.len() > 0 {
        let short: Seq<Order> = orders.drop_last();
        lemma_side(short, side);
        law_codes_tell_the_order(orders.last());
        let e: Seq<Order> = short.filter(on_side(side));
        let r: Seq<Order> = orders.filter(on_side(side));
        assert(orders[orders.len() - 1] == orders.last());
        assert forall|i: int| 0 <= i < r.len() implies orders.contains(#[trigger] r[i]) && r[i].is_ask == (side
            == Side::Sell) by {
            if i < e.len() {
                assert(r[i] == e[i]);
                assert(short.contains(e[i]));
                let m: int = choose|m: int| 0 <= m < short.len() && short[m] == e[i];
                assert(orders[m] == r[i]);
            }
        }
        assert forall|x: int| 0 <= x < orders.len() && (#[trigger] orders[x]).is_ask == (side == Side::Sell) implies r.contains(
            orders[x],
        ) by {
            if x < short.len() {
                assert(short[x] == orders[x]);
                assert(e.contains(short[x]));
                let m: int = choose|m: int| 0 <= m < e.len() && e[m] == short[x];
                assert(r[m] == orders[x]);
            } else {
                assert(r[r.len() - 1] == orders[x]);
            }
        }
    }
}

/// A ledger has the trades of both lists and no others, each once, in the
/// order of time; at one moment those of the first list come first, and those
/// of one list in their order. The places tell where each one was.
pub proof fn law_ledger_is_in_time_order(first: Seq<Trade>, second: Seq<Trade>) -> (at: Seq<int>)
    ensures
        ({
            let r = sorted_by(first + second, trade_time());
            let from = |x: int|
                if x < first.len() {
                    first[x]
                } else {
                    second[x - first.len()]
                };
            &&& r.len() == first.len() + second.len()
            &&& at.len() == r.len()
            &&& forall|i: int| 0 <= i < at.len() ==> 0 <= #[trigger] at[i] < r.len() && r[i] == from(at[i])
            &&& forall|i: int, j: int|
                0 <= i < j < at.len() ==> from(#[trigger] at[i]).ts < from(#[trigger] at[j]).ts || (from(at[i]).ts == from(
                    at[j],
                ).ts && at[i] < at[j])
        }),
{
    let s: Seq<Trade> = first + second;
    let at: Seq<int> = lemma_sorted_places(s, trade_time());
    assert forall|i: int, j: int| 0 <= i < j < at.len() implies s[#[trigger] at[i]].ts < s[#[trigger] at[j]].ts || (s[at[i]].ts
        == s[at[j]].ts && at[i] < at[j]) by {
        assert(trade_time()(s[at[i]]) < trade_time()(s[at[j]]) || (trade_time()(s[at[i]]) == trade_time()(s[at[j]]) && at[i]
            < at[j]));
    }
    at
}

/// The first word of a command may be in any case.
pub proof fn law_command_word_in_any_case(words: Seq<Seq<char>>, other: Seq<char>)
    requires
        words.len() > 0,
        folded(other) == folded(words[0]),
    ensures
        meaning(words.update(0, other)) == meaning(words),
{
    let v: Seq<Seq<char>> = words.update(0, other);
    assert(v.skip(1) =~= words.skip(1));
    assert(v.len() == words.len());
    assert(forall|i: int| 0 < i < words.len() ==> #[trigger] v[i] == words[i]);
}

/// A typed order means what was typed: its side, its price as it is written
/// out, or none for a market order, its quantity, and its user. Too few words
/// are no order.
pub proof fn law_typed_order_means_itself(side: Side, price: u128, quantity: u128, user: Seq<char>)
    ensures
        ({
            let word = match side {
                Side::Buy => "buy"@,
                Side::Sell => "sell"@,
            };
            let typed = seq!["add"@, word, price_text(price as int), decimal(quantity as int), user];
            let at_any = seq!["add"@, word, "market"@, decimal(quantity as int), user];
            &&& meaning(typed) == Some(
                CommandView::Add { side, price: Some(price as int), qty: quantity as int, user },
            )
            &&& meaning(at_any) == Some(CommandView::Add { side, price: None, qty: quantity as int, user })
            &&& meaning(typed.drop_last()) is None
        }),
{
    reveal_strlit("add");
    reveal_strlit("buy");
    reveal_strlit("sell");
    reveal_strlit("market");
    let word: Seq<char> = match side {
        Side::Buy => "buy"@,
        Side::Sell => "sell"@,
    };
    let typed: Seq<Seq<char>> = seq!["add"@, word, price_text(price as int), decimal(quantity as int), user];
    let at_any: Seq<Seq<char>> = seq!["add"@, word, "market"@, decimal(quantity as int), user];
    assert(folded("add"@) =~= "add"@);
    assert(folded("buy"@) =~= "buy"@);
    assert(folded("sell"@) =~= "sell"@);
    assert(ascii_folded("market"@) =~= "market"@);
    assert("buy"@[0] == 'b' && "sell"@[0] == 's');
    law_written_price_reads_back(price);
    lemma_whole_number(quantity as int);
    crate::text::lemma_decimal(price as int / 1_000_000);
    assert(crate::text::is_digit(decimal(price as int / 1_000_000)[0]));
    assert(price_text(price as int)[0] == decimal(price as int / 1_000_000)[0]);
    assert(ascii_folded(price_text(price as int))[0] != "market"@[0]);
    assert(typed[0] == "add"@ && typed[1] == word && typed[2] == price_text(price as int) && typed[3] == decimal(
        quantity as int,
    ) && typed[4] == user);
    assert(at_any[0] == "add"@ && at_any[1] == word && at_any[2] == "market"@ && at_any[3] == decimal(quantity as int)
        && at_any[4] == user);
}

proof fn lemma_whole_number(n: int)
    requires
        0 <= n <= u128::MAX,
    ensures
        nearest_unit(decimal(n)) == Some(n),
{
    crate::inputs::intake_laws::lemma_parts(n, 0);
    vstd::arithmetic::power::lemma_pow0(10);
    crate::text::law_decimal_reads_back(n, u128::MAX as int);
}

} // verus!
