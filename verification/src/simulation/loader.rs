//! Reads the orders of a pair from the text of a CSV file.

use vstd::prelude::*;
use crate::inputs::simulator::{is_row_order, line_numbers, trimmed_rows, yields_order};
use crate::multi_asset::types::{AssetPair, Order};
use crate::text::{chars_of, lines, lines_of, string_of, trim, trimmed, views};
use crate::types::Order as Record;

pub use crate::inputs::simulator::{parse_dataset_ts, parse_fixed_point, round_to_unit};

verus! {

/// A record as an order of a pair.
pub open spec fn order_of(r: Record, pair: AssetPair) -> Order {
    Order {
        ts: r.ts,
        user_id: r.user_id,
        is_builder: r.is_builder,
        status_id: r.status_id,
        is_ask: r.is_ask,
        limit_px: r.limit_px,
        sz: r.sz,
        oid: r.oid,
        timestamp_diff: r.timestamp_diff,
        trigger_condition: r.trigger_condition,
        triggered: r.triggered,
        is_trigger: r.is_trigger,
        has_children: r.has_children,
        is_position_tpsl: r.is_position_tpsl,
        reduce_only: r.reduce_only,
        order_type_id: r.order_type_id,
        tif_id: r.tif_id,
        trigger_px: r.trigger_px,
        orig_sz: r.orig_sz,
        status: r.status,
        order_type: r.order_type,
        tif: r.tif,
        pair,
        remaining: r.remaining,
        wallet: None,
        client_order_id: None,
        chain_id: None,
    }
}

/// A record as an order of a pair.
pub fn to_order(r: Record, pair: AssetPair) -> (o: Order)
    ensures
        o == order_of(r, pair),
{
    Order {
        ts: r.ts,
        user_id: r.user_id,
        is_builder: r.is_builder,
        status_id: r.status_id,
        is_ask: r.is_ask,
        limit_px: r.limit_px,
        sz: r.sz,
        oid: r.oid,
        timestamp_diff: r.timestamp_diff,
        trigger_condition: r.trigger_condition,
        triggered: r.triggered,
        is_trigger: r.is_trigger,
        has_children: r.has_children,
        is_position_tpsl: r.is_position_tpsl,
        reduce_only: r.reduce_only,
        order_type_id: r.order_type_id,
        tif_id: r.tif_id,
        trigger_px: r.trigger_px,
        orig_sz: r.orig_sz,
        status: r.status,
        order_type: r.order_type,
        tif: r.tif,
        pair,
        remaining: r.remaining,
        wallet: None,
        client_order_id: None,
        chain_id: None,
    }
}

/// Whether `o` is the order in a row, in the usual pair.
pub open spec fn is_loaded(o: Order, line: Seq<char>) -> bool {
    o.pair@ == crate::multi_asset::types::PairView::plain("SOL"@, "USD"@) && exists|r: Record| #[trigger]
        is_row_order(r, line) && o == order_of(r, o.pair)
}

/// Reads one row: nothing where a column cannot be read, or the size rounds
/// to zero.
pub fn parse_row(line: &str) -> (r: Option<Order>)
    ensures
        match r {
            Some(o) => yields_order(line@) && is_loaded(o, line@),
            None => !yields_order(line@),
        },
{
    match crate::inputs::simulator::parse_row(line) {
        Ok(Some(record)) => Some(to_order(record, AssetPair::default())),
        _ => None,
    }
}

/// The orders in a text, and the numbers of the lines without one.
#[derive(Debug)]
pub struct Loaded {
    pub orders: Vec<Order>,
    /// The numbers, from 1, of the lines that hold no order.
    pub skipped: Vec<usize>,
}

/// The numbers of the lines that are neither blank nor hold an order, where
/// the first of `lines` has number `first`.
pub open spec fn barren_lines(lines: Seq<Seq<char>>, first: int) -> Seq<int>
    decreases lines.len(),
{
    if lines.len() == 0 {
        Seq::empty()
    } else {
        let earlier = barren_lines(lines.drop_last(), first);
        if trim(lines.last()).len() > 0 && !yields_order(trim(lines.last())) {
            earlier.push(first + lines.len() - 1)
        } else {
            earlier
        }
    }
}

/// The lines of a text but for the first.
pub open spec fn data_lines(text: Seq<char>) -> Seq<Seq<char>> {
    if lines(text).len() == 0 {
        Seq::empty()
    } else {
        lines(text).skip(1)
    }
}

pub open spec fn holds_order() -> spec_fn(Seq<char>) -> bool {
    |row: Seq<char>| yields_order(row)
}

pub open spec fn are_loaded(orders: Seq<Order>, rows: Seq<Seq<char>>) -> bool {
    &&& orders.len() == rows.len()
    &&& forall|i: int| 0 <= i < orders.len() ==> is_loaded(#[trigger] orders[i], rows[i])
}

/// Reads the text of a CSV file. Its first line is the header, whatever it
/// says.
pub fn load_order_status_csv(contents: &str) -> (r: Loaded)
    ensures
        are_loaded(r.orders@, trimmed_rows(data_lines(contents@)).filter(holds_order())),
        line_numbers(r.skipped@) == barren_lines(data_lines(contents@), 2),
{
    let file: Vec<Vec<char>> = lines_of(&chars_of(contents));
    let ghost all: Seq<Seq<char>> = lines(contents@);
    let ghost keep = holds_order();
    let mut r: Loaded = Loaded { orders: Vec::new(), skipped: Vec::new() };
    proof {
        reveal(Seq::filter);
        assert(views(file@).len() == file@.len());
        assert(forall|i: int| 0 <= i < file@.len() ==> #[trigger] all[i] == file@[i]@);
        assert(line_numbers(r.skipped@) =~= Seq::<int>::empty());
        assert(all.skip(1).take(0) =~= Seq::<Seq<char>>::empty());
        assert(Seq::<Seq<char>>::empty().filter(keep) =~= Seq::empty());
    }
    if file.len() == 0 {
        return r;
    }
    let mut i: usize = 1;
    while i < file.len()
        invariant
            1 <= i <= file.len(),
            all == views(file@),
            keep == holds_order(),
            are_loaded(r.orders@, trimmed_rows(all.skip(1).take(i - 1)).filter(keep)),
            line_numbers(r.skipped@) == barren_lines(all.skip(1).take(i - 1), 2),
        decreases file.len() - i,
    {
        let line: Vec<char> = trimmed(&file[i]);
        let ghost before: Seq<Seq<char>> = all.skip(1).take(i - 1);
        let ghost now: Seq<Seq<char>> = all.skip(1).take(i as int);
        let ghost so_far: Seq<Seq<char>> = trimmed_rows(before);
        let ghost orders: Seq<Order> = r.orders@;
        let ghost numbers: Seq<usize> = r.skipped@;
        proof {
            assert(now.drop_last() =~= before);
            assert(now.last() == file@[i as int]@);
            assert(so_far.push(line@).drop_last() =~= so_far);
            reveal(Seq::filter);
        }
        if line.len() > 0 {
            match parse_row(string_of(&line).as_str()) {
                Some(order) => {
                    r.orders.push(order);
                    assert(are_loaded(r.orders@, so_far.filter(keep).push(line@)));
                },
                None => {
                    r.skipped.push(i + 1);
                    assert(line_numbers(r.skipped@) =~= line_numbers(numbers).push(i + 1));
                },
            }
        }
        i += 1;
    }
    assert(all.skip(1).take(i - 1) =~= all.skip(1));
    r
}

} // verus!
