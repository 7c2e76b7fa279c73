//! The packed record format of the order-status archive: fixed offsets,
//! little-endian numbers, and prices that carry their own count of decimals.

use vstd::arithmetic::power::pow;
use vstd::prelude::*;
use crate::text::{decimal, decimal_of, string_of};
use crate::types::{Amount, Order, Price, PRICE_SCALE};

verus! {

/// Bytes per record.
pub const RECORD_SIZE: usize = 54;

/// The number in some bytes, the lowest byte first.
pub open spec fn little_endian(bytes: Seq<u8>) -> int
    decreases bytes.len(),
{
    if bytes.len() == 0 {
        0
    } else {
        bytes[0] as int + 256 * little_endian(bytes.drop_first())
    }
}

/// The number in the `width` bytes from `at`.
pub open spec fn number_at(bytes: Seq<u8>, at: int, width: int) -> int {
    little_endian(bytes.subrange(at, at + width))
}

/// A value with `decimals` decimal places in `PRICE_SCALE` fixed point:
/// exact for up to six places, the nearest unit (halves up) for more.
pub open spec fn scaled(value: int, decimals: nat) -> int {
    if decimals <= 6 {
        value * pow(10, (6 - decimals) as nat)
    } else {
        let divisor = pow(10, (decimals - 6) as nat);
        (value + divisor / 2) / divisor
    }
}

/// The price in an encoded word: the top three bits count the decimals, the
/// other 29 hold the digits.
pub open spec fn price_in(encoded: int) -> int {
    scaled(encoded % 0x2000_0000, (encoded / 0x2000_0000) as nat)
}

/// The signed price in an encoded word: like `price_in`, with the highest of
/// the 29 bits for a minus sign.
pub open spec fn signed_price_in(encoded: int) -> int {
    let magnitude = scaled(encoded % 0x1000_0000, (encoded / 0x2000_0000) as nat);
    if encoded / 0x1000_0000 % 2 == 1 {
        -magnitude
    } else {
        magnitude
    }
}

/// The nearest whole number of units to an amount in fixed point, halves up.
pub open spec fn whole_units(scaled: int) -> int {
    (scaled + 500_000) / 1_000_000
}

/// A value with `decimals` decimal places in `PRICE_SCALE` fixed point.
fn scale_to_price_units(value: u128, decimals: u32) -> (r: u128)
    requires
        value < 0x2000_0000,
        decimals <= 7,
    ensures
        r == scaled(value as int, decimals as nat),
        r <= 0x2000_0000 * 1_000_000,
{
    proof {
        reveal_with_fuel(pow, 8);
    }
    match decimals {
        0 => value * 1_000_000,
        1 => value * 100_000,
        2 => value * 10_000,
        3 => value * 1_000,
        4 => value * 100,
        5 => value * 10,
        6 => value,
        _ => (value + 5) / 10,
    }
}

/// The price in an encoded word.
pub fn decode_price(encoded: u32) -> (r: Price)
    ensures
        r == price_in(encoded as int),
        r <= 0x2000_0000 * 1_000_000,
{
    scale_to_price_units((encoded % 0x2000_0000) as u128, encoded / 0x2000_0000)
}

/// The signed price in an encoded word.
pub fn decode_signed_price(encoded: u32) -> (r: i128)
    ensures
        r == signed_price_in(encoded as int),
{
    let magnitude: i128 = scale_to_price_units((encoded % 0x1000_0000) as u128, encoded / 0x2000_0000) as i128;
    if encoded / 0x1000_0000 % 2 == 1 {
        -magnitude
    } else {
        magnitude
    }
}

/// The quantity in an encoded word, as a whole number of units.
pub fn decode_qty_to_whole_units(encoded: u32) -> (r: Amount)
    ensures
        r == whole_units(price_in(encoded as int)),
{
    (decode_price(encoded) + PRICE_SCALE / 2) / PRICE_SCALE
}

/// The four-byte number at `at`.
fn u32_at(bytes: &[u8; 54], at: usize) -> (r: u32)
    requires
        at + 4 <= 54,
    ensures
        r == number_at(bytes@, at as int, 4),
{
    proof {
        reveal_with_fuel(little_endian, 5);
        let s: Seq<u8> = bytes@.subrange(at as int, at + 4);
        assert(s.drop_first().drop_first().drop_first().drop_first() =~= Seq::<u8>::empty());
    }
    bytes[at] as u32 + 256 * (bytes[at + 1] as u32 + 256 * (bytes[at + 2] as u32 + 256 * (bytes[at + 3] as u32)))
}

/// The eight-byte number at `at`.
fn u64_at(bytes: &[u8; 54], at: usize) -> (r: u64)
    requires
        at + 8 <= 54,
    ensures
        r == number_at(bytes@, at as int, 8),
{
    let low: u32 = u32_at(bytes, at);
    let high: u32 = u32_at(bytes, at + 4);
    proof {
        reveal_with_fuel(little_endian, 5);
        let s: Seq<u8> = bytes@.subrange(at as int, at + 8);
        assert(s.drop_first().drop_first().drop_first().drop_first() =~= bytes@.subrange(at + 4, at + 8));
        let t: Seq<u8> = bytes@.subrange(at as int, at + 4);
        assert(t.drop_first().drop_first().drop_first().drop_first() =~= Seq::<u8>::empty());
        assert(s[0] == t[0] && s[1] == t[1] && s[2] == t[2] && s[3] == t[3]);
    }
    low as u64 + 0x1_0000_0000 * (high as u64)
}

/// The moment of a record.
pub fn timestamp_of(bytes: &[u8; 54]) -> (r: u64)
    ensures
        r == number_at(bytes@, 0, 8),
{
    u64_at(bytes, 0)
}

/// The original size in a record, in whole units.
pub open spec fn record_size(bytes: Seq<u8>) -> int {
    whole_units(price_in(number_at(bytes, 50, 4)))
}

/// The order in a record, with `user_id` for its owner's name.
pub open spec fn record_order(bytes: Seq<u8>, user_id: String) -> Order {
    Order {
        ts: number_at(bytes, 0, 8) as u64,
        user_id,
        is_builder: bytes[12] != 0,
        status_id: bytes[13],
        is_ask: bytes[14] != 0,
        limit_px: price_in(number_at(bytes, 15, 4)) as u128,
        sz: whole_units(price_in(number_at(bytes, 19, 4))) as u128,
        oid: number_at(bytes, 23, 8) as u64,
        timestamp_diff: number_at(bytes, 31, 4) as u32,
        trigger_condition: signed_price_in(number_at(bytes, 35, 4)) as i128,
        triggered: bytes[39] != 0,
        is_trigger: bytes[40] != 0,
        has_children: bytes[41] != 0,
        is_position_tpsl: bytes[42] != 0,
        reduce_only: bytes[43] != 0,
        order_type_id: bytes[44],
        tif_id: bytes[45],
        trigger_px: price_in(number_at(bytes, 46, 4)) as u128,
        orig_sz: record_size(bytes) as u128,
        closed_ts: 0,
        status: None,
        order_type: None,
        tif: None,
        remaining: record_size(bytes) as u128,
    }
}

/// Reads one record. The only records without an order are those whose
/// original size rounds to zero. The owner's name is the number of the user;
/// the labels stay empty.
pub fn parse_record(bytes: &[u8; 54]) -> (r: Option<Order>)
    ensures
        match r {
            Some(order) => record_size(bytes@) > 0 && order.user_id@ == decimal(number_at(bytes@, 8, 4)) && order
                == record_order(bytes@, order.user_id),
            None => record_size(bytes@) == 0,
        },
{
    let ts: u64 = u64_at(bytes, 0);
    let user: u32 = u32_at(bytes, 8);
    let limit_px: Price = decode_price(u32_at(bytes, 15));
    let sz: Amount = decode_qty_to_whole_units(u32_at(bytes, 19));
    let oid: u64 = u64_at(bytes, 23);
    let timestamp_diff: u32 = u32_at(bytes, 31);
    let trigger_condition: i128 = decode_signed_price(u32_at(bytes, 35));
    let trigger_px: Price = decode_price(u32_at(bytes, 46));
    let orig_sz: Amount = decode_qty_to_whole_units(u32_at(bytes, 50));
    if orig_sz == 0 {
        return None;
    }
    Some(
        Order {
            ts,
            user_id: string_of(&decimal_of(user as u128)),
            is_builder: bytes[12] != 0,
            status_id: bytes[13],
            is_ask: bytes[14] != 0,
            limit_px,
            sz,
            oid,
            timestamp_diff,
            trigger_condition,
            triggered: bytes[39] != 0,
            is_trigger: bytes[40] != 0,
            has_children: bytes[41] != 0,
            is_position_tpsl: bytes[42] != 0,
            reduce_only: bytes[43] != 0,
            order_type_id: bytes[44],
            tif_id: bytes[45],
            trigger_px,
            orig_sz,
            closed_ts: 0,
            status: None,
            order_type: None,
            tif: None,
            remaining: orig_sz,
        },
    )
}

} // verus!
