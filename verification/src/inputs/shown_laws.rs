//! What the text of a scenario tells, in terms of its trades and orders.

use vstd::prelude::*;
use crate::inputs::shown::{
    decimal_if_any, enumerated, field, order_part, order_parts, quoted, report, shown_bool, shown_list, shown_option,
    shown_tuple, trade_part, trade_parts, trade_text, OrderPart, TradePart,
};
use crate::text::{decimal, joined};
use crate::types::{EngineKind, Order, Trade};

verus! {

proof fn lemma_two(a: Seq<char>, b: Seq<char>)
    ensures
        shown_tuple(seq![a, b]) == "("@ + (a + ", "@ + b) + ")"@,
{
    reveal(shown_tuple);
    let two: Seq<Seq<char>> = seq![a, b];
    assert(two.drop_last() =~= seq![a]);
    assert(enumerated(two.drop_last()) == a);
    assert(two.last() == b);
}

proof fn lemma_three(a: Seq<char>, b: Seq<char>, c: Seq<char>)
    ensures
        shown_tuple(seq![a, b, c]) == "("@ + (a + ", "@ + b + ", "@ + c) + ")"@,
{
    reveal(shown_tuple);
    let three: Seq<Seq<char>> = seq![a, b, c];
    let two: Seq<Seq<char>> = seq![a, b];
    assert(three.drop_last() =~= two);
    assert(two.drop_last() =~= seq![a]);
    assert(enumerated(two.drop_last()) == a);
    assert(enumerated(two) == a + ", "@ + b);
    assert(three.last() == c);
}

/// Of a trade, the text tells who bought how much, or who sold how much at which
/// price; of an order, whose it is, or that and what is left of it, or its id
/// and what is left of it. Names are in quotes, numbers are written out.
pub proof fn law_parts_tell_who_and_how_much(t: Trade, o: Order)
    ensures
        trade_part(t, TradePart::Bought) == "("@ + (("\""@ + t.buyer_id@ + "\""@) + ", "@ + decimal(t.quantity as int))
            + ")"@,
        trade_part(t, TradePart::Sold) == "("@ + (("\""@ + t.seller_id@ + "\""@) + ", "@ + decimal(t.quantity as int)
            + ", "@ + decimal(t.price as int)) + ")"@,
        order_part(o, OrderPart::Owner) == "\""@ + o.user_id@ + "\""@,
        order_part(o, OrderPart::OwnerLeft) == "("@ + (("\""@ + o.user_id@ + "\""@) + ", "@ + decimal(
            o.remaining as int,
        )) + ")"@,
        order_part(o, OrderPart::IdLeft) == "("@ + (decimal(o.oid as int) + ", "@ + decimal(o.remaining as int)) + ")"@,
{
    reveal(quoted);
    lemma_two(quoted(t.buyer_id@), decimal(t.quantity as int));
    lemma_three(quoted(t.seller_id@), decimal(t.quantity as int), decimal(t.price as int));
    lemma_two(quoted(o.user_id@), decimal(o.remaining as int));
    lemma_two(decimal(o.oid as int), decimal(o.remaining as int));
}

/// Of a whole trade, the text tells every field under its name, in their order.
pub proof fn law_whole_trades_are_told(t: Trade)
    ensures
        trade_part(t, TradePart::Whole) == "Trade { trade_id: "@ + decimal(t.trade_id as int) + ", price: "@ + decimal(
            t.price as int,
        ) + ", quantity: "@ + decimal(t.quantity as int) + ", buyer_id: "@ + ("\""@ + t.buyer_id@ + "\""@)
            + ", seller_id: "@ + ("\""@ + t.seller_id@ + "\""@) + ", buy_order_id: "@ + decimal(t.buy_order_id as int)
            + ", sell_order_id: "@ + decimal(t.sell_order_id as int) + ", engine_type: "@ + (match t.engine_type {
            EngineKind::Fba => "Fba"@,
            EngineKind::Cda => "Cda"@,
        }) + ", ts: "@ + decimal(t.ts as int) + ", trade_tx_hash: "@ + (match t.trade_tx_hash {
            Some(hash) => "Some("@ + ("\""@ + hash@ + "\""@) + ")"@,
            None => "None"@,
        }) + ", chain_id: "@ + (match t.chain_id {
            Some(id) => "Some("@ + decimal(id as int) + ")"@,
            None => "None"@,
        }) + " }"@,
{
    reveal(trade_text);
    reveal(quoted);
    reveal(shown_option);
}

/// A list tells its parts in their order: one more part comes behind the
/// others. There is one part for each trade and each order.
pub proof fn law_lists_tell_every_part(parts: Seq<Seq<char>>, more: Seq<char>, trades: Seq<Trade>, orders: Seq<Order>)
    ensures
        shown_list(Seq::empty()) == "["@ + "]"@,
        shown_list(seq![more]) == "["@ + more + "]"@,
        parts.len() > 0 ==> enumerated(parts.push(more)) == enumerated(parts) + ", "@ + more,
        shown_list(parts) == "["@ + enumerated(parts) + "]"@,
        forall|part: TradePart| (#[trigger] trade_parts(trades, part)).len() == trades.len(),
        forall|part: TradePart, i: int|
            0 <= i < trades.len() ==> #[trigger] trade_parts(trades, part)[i] == trade_part(trades[i], part),
        forall|part: OrderPart| (#[trigger] order_parts(orders, part)).len() == orders.len(),
        forall|part: OrderPart, i: int|
            0 <= i < orders.len() ==> #[trigger] order_parts(orders, part)[i] == order_part(orders[i], part),
{
    reveal(shown_list);
    assert(parts.push(more).drop_last() =~= parts);
    assert("["@ + Seq::<char>::empty() =~= "["@);
    assert(seq![more].len() == 1);
}

/// A field is its name and what it holds; a number that is missing is told as
/// such; fields follow each other with a space between.
pub proof fn law_fields_tell_name_and_value(name: Seq<char>, value: Seq<char>, n: u128, fields: Seq<Seq<char>>)
    ensures
        field(name, value) == name + "="@ + value,
        shown_option(decimal_if_any(Some(n))) == "Some("@ + decimal(n as int) + ")"@,
        shown_option(decimal_if_any(None)) == "None"@,
        shown_bool(true) == "true"@,
        shown_bool(false) == "false"@,
        fields.len() > 0 ==> report(fields.push(value)) == report(fields).push(' ') + value,
        report(seq![value]) == value,
{
    reveal(field);
    reveal(shown_option);
    reveal(report);
    assert(fields.push(value).drop_last() =~= fields);
    assert(joined(seq![value], ' ') == value);
}

} // verus!
