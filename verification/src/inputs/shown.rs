//! What a scenario came to, as text: fields such as `bids=1`, with lists,
//! tuples and trades written out.

use vstd::prelude::*;
use crate::text::{chars_of, decimal, decimal_of, join, joined, push_chars, push_str, views};
use crate::types::{EngineKind, Order, Trade};

verus! {

/// Texts with a comma and a space between each two.
pub open spec fn enumerated(parts: Seq<Seq<char>>) -> Seq<char>
    decreases parts.len(),
{
    if parts.len() == 0 {
        Seq::empty()
    } else if parts.len() == 1 {
        parts[0]
    } else {
        enumerated(parts.drop_last()) + ", "@ + parts.last()
    }
}

/// A list: `[1, 2]`.
#[verifier::opaque]
pub open spec fn shown_list(parts: Seq<Seq<char>>) -> Seq<char> {
    "["@ + enumerated(parts) + "]"@
}

/// A tuple: `(1, 2)`.
#[verifier::opaque]
pub open spec fn shown_tuple(parts: Seq<Seq<char>>) -> Seq<char> {
    "("@ + enumerated(parts) + ")"@
}

/// A name in quotes. Nothing is escaped: names are letters, digits and
/// underscores.
#[verifier::opaque]
pub open spec fn quoted(name: Seq<char>) -> Seq<char> {
    "\""@ + name + "\""@
}

/// `Some(..)` or `None`.
#[verifier::opaque]
pub open spec fn shown_option(value: Option<Seq<char>>) -> Seq<char> {
    match value {
        Some(text) => "Some("@ + text + ")"@,
        None => "None"@,
    }
}

/// A number that may be missing, as text.
pub open spec fn decimal_if_any(n: Option<u128>) -> Option<Seq<char>> {
    match n {
        Some(v) => Some(decimal(v as int)),
        None => None,
    }
}

pub open spec fn shown_bool(b: bool) -> Seq<char> {
    if b {
        "true"@
    } else {
        "false"@
    }
}

pub open spec fn shown_engine(engine: EngineKind) -> Seq<char> {
    match engine {
        EngineKind::Fba => "Fba"@,
        EngineKind::Cda => "Cda"@,
    }
}

/// A trade, with all that it holds.
#[verifier::opaque]
pub open spec fn trade_text(
    id: int,
    price: int,
    quantity: int,
    buyer: Seq<char>,
    seller: Seq<char>,
    buy_order: int,
    sell_order: int,
    engine: EngineKind,
    ts: int,
    tx_hash: Option<Seq<char>>,
    chain: Option<int>,
) -> Seq<char> {
    "Trade { trade_id: "@ + decimal(id) + ", price: "@ + decimal(price) + ", quantity: "@ + decimal(quantity)
        + ", buyer_id: "@ + quoted(buyer) + ", seller_id: "@ + quoted(seller) + ", buy_order_id: "@ + decimal(buy_order)
        + ", sell_order_id: "@ + decimal(sell_order) + ", engine_type: "@ + shown_engine(engine) + ", ts: "@ + decimal(ts)
        + ", trade_tx_hash: "@ + shown_option(match tx_hash {
        Some(hash) => Some(quoted(hash)),
        None => None,
    }) + ", chain_id: "@ + shown_option(match chain {
        Some(id) => Some(decimal(id)),
        None => None,
    }) + " }"@
}

/// What is told of a trade.
#[derive(Clone, Copy, Debug)]
pub enum TradePart {
    /// All of it.
    Whole,
    /// Who bought, and how much.
    Bought,
    /// Who sold, how much and at which price.
    Sold,
}

pub open spec fn trade_part(t: Trade, part: TradePart) -> Seq<char> {
    match part {
        TradePart::Whole => trade_text(
            t.trade_id as int,
            t.price as int,
            t.quantity as int,
            t.buyer_id@,
            t.seller_id@,
            t.buy_order_id as int,
            t.sell_order_id as int,
            t.engine_type,
            t.ts as int,
            match t.trade_tx_hash {
                Some(hash) => Some(hash@),
                None => None,
            },
            match t.chain_id {
                Some(id) => Some(id as int),
                None => None,
            },
        ),
        TradePart::Bought => shown_tuple(seq![quoted(t.buyer_id@), decimal(t.quantity as int)]),
        TradePart::Sold => shown_tuple(seq![quoted(t.seller_id@), decimal(t.quantity as int), decimal(t.price as int)]),
    }
}

pub open spec fn trade_parts(trades: Seq<Trade>, part: TradePart) -> Seq<Seq<char>> {
    Seq::new(trades.len(), |i: int| trade_part(trades[i], part))
}

/// What is told of an order.
#[derive(Clone, Copy, Debug)]
pub enum OrderPart {
    /// Whose it is.
    Owner,
    /// Whose it is, and what is left of it.
    OwnerLeft,
    /// Its id, and what is left of it.
    IdLeft,
}

pub open spec fn order_part(o: Order, part: OrderPart) -> Seq<char> {
    match part {
        OrderPart::Owner => quoted(o.user_id@),
        OrderPart::OwnerLeft => shown_tuple(seq![quoted(o.user_id@), decimal(o.remaining as int)]),
        OrderPart::IdLeft => shown_tuple(seq![decimal(o.oid as int), decimal(o.remaining as int)]),
    }
}

pub open spec fn order_parts(orders: Seq<Order>, part: OrderPart) -> Seq<Seq<char>> {
    Seq::new(orders.len(), |i: int| order_part(orders[i], part))
}

/// A field: its name, and what it holds.
#[verifier::opaque]
pub open spec fn field(name: Seq<char>, value: Seq<char>) -> Seq<char> {
    name + "="@ + value
}

/// Fields, with spaces between them.
#[verifier::opaque]
pub open spec fn report(fields: Seq<Seq<char>>) -> Seq<char> {
    joined(fields, ' ')
}

fn enumerate(parts: &Vec<Vec<char>>) -> (r: Vec<char>)
    ensures
        r@ == enumerated(views(parts@)),
{
    let ghost all: Seq<Seq<char>> = views(parts@);
    let mut text: Vec<char> = Vec::new();
    let mut i: usize = 0;
    assert(text@ =~= enumerated(all.take(0)));
    while i < parts.len()
        invariant
            i <= parts.len(),
            all == views(parts@),
            text@ == enumerated(all.take(i as int)),
        decreases parts.len() - i,
    {
        proof {
            assert(all.take(i + 1).drop_last() =~= all.take(i as int));
            assert(all.take(i + 1).last() == parts@[i as int]@);
        }
        if i > 0 {
            push_str(&mut text, ", ");
        }
        push_chars(&mut text, &parts[i]);
        proof {
            if i == 0 {
                assert(text@ =~= parts@[0]@);
                assert(all.take(1)[0] == parts@[0]@);
            }
        }
        i += 1;
    }
    assert(all.take(i as int) =~= all);
    text
}

fn tuple(parts: &Vec<Vec<char>>) -> (r: Vec<char>)
    ensures
        r@ == shown_tuple(views(parts@)),
{
    proof {
        reveal(shown_tuple);
    }
    let mut text: Vec<char> = chars_of("(");
    push_chars(&mut text, &enumerate(parts));
    push_str(&mut text, ")");
    text
}

fn quote(name: &String) -> (r: Vec<char>)
    ensures
        r@ == quoted(name@),
{
    proof {
        reveal(quoted);
    }
    let mut text: Vec<char> = chars_of("\"");
    push_str(&mut text, name.as_str());
    push_str(&mut text, "\"");
    text
}

fn option(value: Option<Vec<char>>) -> (r: Vec<char>)
    ensures
        r@ == shown_option(match value {
            Some(text) => Some(text@),
            None => None,
        }),
{
    proof {
        reveal(shown_option);
    }
    match value {
        Some(text) => {
            let mut all: Vec<char> = chars_of("Some(");
            push_chars(&mut all, &text);
            push_str(&mut all, ")");
            all
        },
        None => chars_of("None"),
    }
}

fn show_trade(t: &Trade, part: TradePart) -> (r: Vec<char>)
    ensures
        r@ == trade_part(*t, part),
{
    proof {
        reveal(trade_text);
    }
    let mut parts: Vec<Vec<char>> = Vec::new();
    match part {
        TradePart::Whole => {
            let mut text: Vec<char> = chars_of("Trade { trade_id: ");
            push_chars(&mut text, &decimal_of(t.trade_id as u128));
            push_str(&mut text, ", price: ");
            push_chars(&mut text, &decimal_of(t.price));
            push_str(&mut text, ", quantity: ");
            push_chars(&mut text, &decimal_of(t.quantity));
            push_str(&mut text, ", buyer_id: ");
            push_chars(&mut text, &quote(&t.buyer_id));
            push_str(&mut text, ", seller_id: ");
            push_chars(&mut text, &quote(&t.seller_id));
            push_str(&mut text, ", buy_order_id: ");
            push_chars(&mut text, &decimal_of(t.buy_order_id as u128));
            push_str(&mut text, ", sell_order_id: ");
            push_chars(&mut text, &decimal_of(t.sell_order_id as u128));
            push_str(&mut text, ", engine_type: ");
            push_str(
                &mut text,
                match t.engine_type {
                    EngineKind::Fba => "Fba",
                    EngineKind::Cda => "Cda",
                },
            );
            push_str(&mut text, ", ts: ");
            push_chars(&mut text, &decimal_of(t.ts as u128));
            push_str(&mut text, ", trade_tx_hash: ");
            let hash: Option<Vec<char>> = match &t.trade_tx_hash {
                Some(hash) => Some(quote(hash)),
                None => None,
            };
            push_chars(&mut text, &option(hash));
            push_str(&mut text, ", chain_id: ");
            let chain: Option<Vec<char>> = match t.chain_id {
                Some(id) => Some(decimal_of(id as u128)),
                None => None,
            };
            push_chars(&mut text, &option(chain));
            push_str(&mut text, " }");
            text
        },
        TradePart::Bought => {
            parts.push(quote(&t.buyer_id));
            parts.push(decimal_of(t.quantity));
            assert(views(parts@) =~= seq![quoted(t.buyer_id@), decimal(t.quantity as int)]);
            tuple(&parts)
        },
        TradePart::Sold => {
            parts.push(quote(&t.seller_id));
            parts.push(decimal_of(t.quantity));
            parts.push(decimal_of(t.price));
            assert(views(parts@) =~= seq![quoted(t.seller_id@), decimal(t.quantity as int), decimal(t.price as int)]);
            tuple(&parts)
        },
    }
}

fn show_order(o: &Order, part: OrderPart) -> (r: Vec<char>)
    ensures
        r@ == order_part(*o, part),
{
    let mut parts: Vec<Vec<char>> = Vec::new();
    match part {
        OrderPart::Owner => quote(&o.user_id),
        OrderPart::OwnerLeft => {
            parts.push(quote(&o.user_id));
            parts.push(decimal_of(o.remaining));
            assert(views(parts@) =~= seq![quoted(o.user_id@), decimal(o.remaining as int)]);
            tuple(&parts)
        },
        OrderPart::IdLeft => {
            parts.push(decimal_of(o.oid as u128));
            parts.push(decimal_of(o.remaining));
            assert(views(parts@) =~= seq![decimal(o.oid as int), decimal(o.remaining as int)]);
            tuple(&parts)
        },
    }
}

/// Fields that are written one after the other.
pub struct Report {
    fields: Vec<Vec<char>>,
}

impl View for Report {
    type V = Seq<Seq<char>>;

    closed spec fn view(&self) -> Seq<Seq<char>> {
        views(self.fields@)
    }
}

impl Report {
    pub fn new() -> (r: Self)
        ensures
            r@ == Seq::<Seq<char>>::empty(),
    {
        let r: Report = Report { fields: Vec::new() };
        assert(views(r.fields@) =~= Seq::empty());
        r
    }

    /// A field with any text.
    pub fn text(&mut self, name: &str, value: &Vec<char>)
        ensures
            final(self)@ == old(self)@.push(field(name@, value@)),
    {
        proof {
            reveal(field);
        }
        let mut text: Vec<char> = chars_of(name);
        push_str(&mut text, "=");
        push_chars(&mut text, value);
        self.fields.push(text);
        assert(views(self.fields@) =~= views(old(self).fields@).push(field(name@, value@)));
    }

    /// A field with a fixed text.
    pub fn word(&mut self, name: &str, value: &str)
        ensures
            final(self)@ == old(self)@.push(field(name@, value@)),
    {
        self.text(name, &chars_of(value));
    }

    pub fn number(&mut self, name: &str, value: u128)
        ensures
            final(self)@ == old(self)@.push(field(name@, decimal(value as int))),
    {
        self.text(name, &decimal_of(value));
    }

    pub fn count(&mut self, name: &str, value: usize)
        ensures
            final(self)@ == old(self)@.push(field(name@, decimal(value as int))),
    {
        self.number(name, value as u128);
    }

    pub fn flag(&mut self, name: &str, value: bool)
        ensures
            final(self)@ == old(self)@.push(field(name@, shown_bool(value))),
    {
        self.word(
            name,
            if value {
                "true"
            } else {
                "false"
            },
        );
    }

    pub fn number_if_any(&mut self, name: &str, value: Option<u128>)
        ensures
            final(self)@ == old(self)@.push(field(name@, shown_option(decimal_if_any(value)))),
    {
        let text: Option<Vec<char>> = match value {
            Some(n) => Some(decimal_of(n)),
            None => None,
        };
        self.text(name, &option(text));
    }

    fn list(&mut self, name: &str, parts: &Vec<Vec<char>>)
        ensures
            final(self)@ == old(self)@.push(field(name@, shown_list(views(parts@)))),
    {
        proof {
            reveal(shown_list);
        }
        let mut text: Vec<char> = chars_of("[");
        push_chars(&mut text, &enumerate(parts));
        push_str(&mut text, "]");
        self.text(name, &text);
    }

    pub fn trades(&mut self, name: &str, trades: &Vec<Trade>, part: TradePart)
        ensures
            final(self)@ == old(self)@.push(field(name@, shown_list(trade_parts(trades@, part)))),
    {
        let mut parts: Vec<Vec<char>> = Vec::new();
        let mut i: usize = 0;
        while i < trades.len()
            invariant
                i <= trades.len(),
                *self == *old(self),
                parts@.len() == i,
                forall|k: int| 0 <= k < i ==> (#[trigger] parts@[k])@ == trade_part(trades@[k], part),
            decreases trades.len() - i,
        {
            parts.push(show_trade(&trades[i], part));
            i += 1;
        }
        assert(views(parts@) =~= trade_parts(trades@, part));
        self.list(name, &parts);
    }

    pub fn orders(&mut self, name: &str, orders: &Vec<Order>, part: OrderPart)
        ensures
            final(self)@ == old(self)@.push(field(name@, shown_list(order_parts(orders@, part)))),
    {
        let mut parts: Vec<Vec<char>> = Vec::new();
        let mut i: usize = 0;
        while i < orders.len()
            invariant
                i <= orders.len(),
                *self == *old(self),
                parts@.len() == i,
                forall|k: int| 0 <= k < i ==> (#[trigger] parts@[k])@ == order_part(orders@[k], part),
            decreases orders.len() - i,
        {
            parts.push(show_order(&orders[i], part));
            i += 1;
        }
        assert(views(parts@) =~= order_parts(orders@, part));
        self.list(name, &parts);
    }

    /// The same, of orders that rest in a book.
    pub fn resting(&mut self, name: &str, orders: &Vec<&Order>, part: OrderPart)
        ensures
            final(self)@ == old(self)@.push(
                field(name@, shown_list(Seq::new(orders@.len(), |i: int| order_part(*orders@[i], part)))),
            ),
    {
        let mut parts: Vec<Vec<char>> = Vec::new();
        let mut i: usize = 0;
        while i < orders.len()
            invariant
                i <= orders.len(),
                *self == *old(self),
                parts@.len() == i,
                forall|k: int| 0 <= k < i ==> (#[trigger] parts@[k])@ == order_part(*orders@[k], part),
            decreases orders.len() - i,
        {
            parts.push(show_order(orders[i], part));
            i += 1;
        }
        assert(views(parts@) =~= Seq::new(orders@.len(), |i: int| order_part(*orders@[i], part)));
        self.list(name, &parts);
    }

    /// All fields in one line.
    pub fn line(&self) -> (r: Vec<char>)
        ensures
            r@ == report(self@),
    {
        proof {
            reveal(report);
        }
        join(&self.fields, ' ')
    }
}

} // verus!
