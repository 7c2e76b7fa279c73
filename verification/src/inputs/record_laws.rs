//! What a packed record and a written row say of an order: each field, where
//! it stands, and that both tell the same.

use vstd::arithmetic::power::pow;
use vstd::prelude::*;
use crate::inputs::binary_format::{
    little_endian, number_at, price_in, record_order, record_size, scaled, signed_price_in, whole_units,
};
use crate::inputs::intake_laws::{law_prices_agree, law_sizes_agree, notation};
use crate::inputs::simulator::{flag, row_order};
use crate::text::{decimal, is_digit, law_decimal_reads_back, lemma_decimal, trim, unsigned_value};
use crate::types::Order;

verus! {

/// A number with decimals: its digits without the point, and how many of them
/// stand behind it.
pub struct Places {
    pub digits: int,
    pub decimals: int,
}

/// What a packed record tells of an order, field by field.
pub struct Fields {
    pub ts: u64,
    pub user: u32,
    pub builder: bool,
    pub status: u8,
    pub ask: bool,
    pub price: Places,
    pub size: Places,
    pub oid: u64,
    pub delay: u32,
    pub negative: bool,
    pub condition: Places,
    pub triggered: bool,
    pub conditional: bool,
    pub parent: bool,
    pub tpsl: bool,
    pub reduces: bool,
    pub kind: u8,
    pub tif: u8,
    pub trigger_price: Places,
    pub first_size: Places,
}

/// Fits in the 29 bits of digits and the 3 bits of decimals of a word.
pub open spec fn fits(p: Places) -> bool {
    0 <= p.digits < 0x2000_0000 && 0 <= p.decimals <= 7
}

/// All numbers fit in their words; that of the condition leaves a bit for its
/// sign.
pub open spec fn all_fit(f: Fields) -> bool {
    fits(f.price) && fits(f.size) && fits(f.condition) && f.condition.digits < 0x1000_0000 && fits(f.trigger_price)
        && fits(f.first_size)
}

/// A number in so many bytes, the lowest first.
pub open spec fn bytes_of(n: int, width: nat) -> Seq<u8>
    decreases width,
{
    if width == 0 {
        Seq::empty()
    } else {
        seq![(n % 256) as u8] + bytes_of(n / 256, (width - 1) as nat)
    }
}

pub open spec fn mark(b: bool) -> u8 {
    if b {
        1
    } else {
        0
    }
}

/// A number with decimals in a word: the decimals in its three highest bits,
/// the digits in the others.
pub open spec fn word(p: Places) -> int {
    p.decimals * 0x2000_0000 + p.digits
}

pub open spec fn signed_word(negative: bool, p: Places) -> int {
    word(p) + if negative {
        0x1000_0000int
    } else {
        0
    }
}

/// A record begins with its moment, user, builder mark, status and side.
pub open spec fn opening(f: Fields) -> Seq<u8> {
    bytes_of(f.ts as int, 8) + bytes_of(f.user as int, 4) + seq![mark(f.builder)] + seq![f.status] + seq![mark(f.ask)]
}

/// Then come the price, the size and the id.
pub open spec fn amounts(f: Fields) -> Seq<u8> {
    bytes_of(word(f.price), 4) + bytes_of(word(f.size), 4) + bytes_of(f.oid as int, 8)
}

/// Then the delay, the condition, the marks, the type and the time in force.
pub open spec fn terms(f: Fields) -> Seq<u8> {
    bytes_of(f.delay as int, 4) + bytes_of(signed_word(f.negative, f.condition), 4) + seq![mark(f.triggered)] + seq![
        mark(f.conditional),
    ] + seq![mark(f.parent)] + seq![mark(f.tpsl)] + seq![mark(f.reduces)] + seq![f.kind] + seq![f.tif]
}

/// It ends with the trigger price and the original size.
pub open spec fn closing(f: Fields) -> Seq<u8> {
    bytes_of(word(f.trigger_price), 4) + bytes_of(word(f.first_size), 4)
}

/// A record with these fields: one after the other, without gaps.
pub open spec fn written(f: Fields) -> Seq<u8> {
    opening(f) + amounts(f) + terms(f) + closing(f)
}

pub proof fn lemma_bytes(n: int, width: nat)
    requires
        0 <= n < pow(256, width),
    ensures
        bytes_of(n, width).len() == width,
        little_endian(bytes_of(n, width)) == n,
    decreases width,
{
    vstd::arithmetic::power::lemma_pow0(256);
    if width > 0 {
        reveal(pow);
        let p: int = pow(256, (width - 1) as nat);
        assert(pow(256, width) == 256 * p);
        lemma_bytes(n / 256, (width - 1) as nat);
        assert(bytes_of(n, width).drop_first() =~= bytes_of(n / 256, (width - 1) as nat));
    }
}

proof fn lemma_bytes_len(n: int, width: nat)
    ensures
        bytes_of(n, width).len() == width,
    decreases width,
{
    if width > 0 {
        lemma_bytes_len(n / 256, (width - 1) as nat);
    }
}

pub proof fn lemma_widths()
    ensures
        pow(256, 4) == 0x1_0000_0000,
        pow(256, 8) == 0x1_0000_0000_0000_0000,
{
    reveal_with_fuel(pow, 9);
}

/// Where the fields of a record stand.
pub proof fn lemma_places(f: Fields)
    ensures
        ({
            let r = written(f);
            &&& r.len() == 54
            &&& r.subrange(0, 8) == bytes_of(f.ts as int, 8)
            &&& r.subrange(8, 12) == bytes_of(f.user as int, 4)
            &&& r[12] == mark(f.builder)
            &&& r[13] == f.status
            &&& r[14] == mark(f.ask)
            &&& r.subrange(15, 19) == bytes_of(word(f.price), 4)
            &&& r.subrange(19, 23) == bytes_of(word(f.size), 4)
            &&& r.subrange(23, 31) == bytes_of(f.oid as int, 8)
            &&& r.subrange(31, 35) == bytes_of(f.delay as int, 4)
            &&& r.subrange(35, 39) == bytes_of(signed_word(f.negative, f.condition), 4)
            &&& r[39] == mark(f.triggered)
            &&& r[40] == mark(f.conditional)
            &&& r[41] == mark(f.parent)
            &&& r[42] == mark(f.tpsl)
            &&& r[43] == mark(f.reduces)
            &&& r[44] == f.kind
            &&& r[45] == f.tif
            &&& r.subrange(46, 50) == bytes_of(word(f.trigger_price), 4)
            &&& r.subrange(50, 54) == bytes_of(word(f.first_size), 4)
        }),
{
    lemma_opening(f);
    lemma_amounts(f);
    lemma_terms(f);
    lemma_closing(f);
    let r: Seq<u8> = written(f);
    assert(r.subrange(0, 15) =~= opening(f));
    assert(r.subrange(15, 31) =~= amounts(f));
    assert(r.subrange(31, 46) =~= terms(f));
    assert(r.subrange(46, 54) =~= closing(f));
    assert(r.subrange(0, 15)[12] == r[12] && r.subrange(0, 15)[13] == r[13] && r.subrange(0, 15)[14] == r[14]);
    assert(r.subrange(31, 46)[8] == r[39] && r.subrange(31, 46)[9] == r[40] && r.subrange(31, 46)[10] == r[41]);
    assert(r.subrange(31, 46)[11] == r[42] && r.subrange(31, 46)[12] == r[43] && r.subrange(31, 46)[13] == r[44]
        && r.subrange(31, 46)[14] == r[45]);
    lemma_within(r, 0, 15, 0, 8);
    lemma_within(r, 0, 15, 8, 12);
    lemma_within(r, 15, 31, 0, 4);
    lemma_within(r, 15, 31, 4, 8);
    lemma_within(r, 15, 31, 8, 16);
    lemma_within(r, 31, 46, 0, 4);
    lemma_within(r, 31, 46, 4, 8);
    lemma_within(r, 46, 54, 0, 4);
    lemma_within(r, 46, 54, 4, 8);
}

proof fn lemma_within(s: Seq<u8>, from: int, to: int, lo: int, hi: int)
    requires
        0 <= from <= to <= s.len(),
        0 <= lo <= hi <= to - from,
    ensures
        s.subrange(from + lo, from + hi) == s.subrange(from, to).subrange(lo, hi),
{
    assert(s.subrange(from + lo, from + hi) =~= s.subrange(from, to).subrange(lo, hi));
}

proof fn lemma_opening(f: Fields)
    ensures
        opening(f).len() == 15,
        opening(f).subrange(0, 8) == bytes_of(f.ts as int, 8),
        opening(f).subrange(8, 12) == bytes_of(f.user as int, 4),
        opening(f)[12] == mark(f.builder),
        opening(f)[13] == f.status,
        opening(f)[14] == mark(f.ask),
{
    lemma_bytes_len(f.ts as int, 8);
    lemma_bytes_len(f.user as int, 4);
    assert(opening(f).subrange(0, 8) =~= bytes_of(f.ts as int, 8));
    assert(opening(f).subrange(8, 12) =~= bytes_of(f.user as int, 4));
}

proof fn lemma_amounts(f: Fields)
    ensures
        amounts(f).len() == 16,
        amounts(f).subrange(0, 4) == bytes_of(word(f.price), 4),
        amounts(f).subrange(4, 8) == bytes_of(word(f.size), 4),
        amounts(f).subrange(8, 16) == bytes_of(f.oid as int, 8),
{
    lemma_bytes_len(word(f.price), 4);
    lemma_bytes_len(word(f.size), 4);
    lemma_bytes_len(f.oid as int, 8);
    assert(amounts(f).subrange(0, 4) =~= bytes_of(word(f.price), 4));
    assert(amounts(f).subrange(4, 8) =~= bytes_of(word(f.size), 4));
    assert(amounts(f).subrange(8, 16) =~= bytes_of(f.oid as int, 8));
}

proof fn lemma_terms(f: Fields)
    ensures
        terms(f).len() == 15,
        terms(f).subrange(0, 4) == bytes_of(f.delay as int, 4),
        terms(f).subrange(4, 8) == bytes_of(signed_word(f.negative, f.condition), 4),
        terms(f)[8] == mark(f.triggered),
        terms(f)[9] == mark(f.conditional),
        terms(f)[10] == mark(f.parent),
        terms(f)[11] == mark(f.tpsl),
        terms(f)[12] == mark(f.reduces),
        terms(f)[13] == f.kind,
        terms(f)[14] == f.tif,
{
    lemma_bytes_len(f.delay as int, 4);
    lemma_bytes_len(signed_word(f.negative, f.condition), 4);
    assert(terms(f).subrange(0, 4) =~= bytes_of(f.delay as int, 4));
    assert(terms(f).subrange(4, 8) =~= bytes_of(signed_word(f.negative, f.condition), 4));
}

proof fn lemma_closing(f: Fields)
    ensures
        closing(f).len() == 8,
        closing(f).subrange(0, 4) == bytes_of(word(f.trigger_price), 4),
        closing(f).subrange(4, 8) == bytes_of(word(f.first_size), 4),
{
    lemma_bytes_len(word(f.trigger_price), 4);
    lemma_bytes_len(word(f.first_size), 4);
    assert(closing(f).subrange(0, 4) =~= bytes_of(word(f.trigger_price), 4));
    assert(closing(f).subrange(4, 8) =~= bytes_of(word(f.first_size), 4));
}

/// The fixed-point price is that number, in millionths: exactly for up to six
/// decimals, and the nearest one, halves up, for seven.
pub open spec fn is_price(price: int, p: Places) -> bool {
    if p.decimals <= 6 {
        price * pow(10, p.decimals as nat) == p.digits * 1_000_000
    } else {
        price * 10 <= p.digits + 5 < price * 10 + 10
    }
}

/// The nearest whole number of units to a price in millionths, halves up.
pub open spec fn is_nearest(units: int, price: int) -> bool {
    units * 1_000_000 - 500_000 <= price < units * 1_000_000 + 500_000
}

pub proof fn lemma_price(p: Places)
    requires
        fits(p),
    ensures
        0 <= word(p) < 0x1_0000_0000,
        is_price(price_in(word(p)), p),
        0 <= price_in(word(p)) <= 0x2000_0000 * 1_000_000,
{
    let (d, v): (int, int) = (p.decimals, p.digits);
    assert(word(p) % 0x2000_0000 == v);
    assert(word(p) / 0x2000_0000 == d);
    lemma_powers();
    let x: int = price_in(word(p));
    assert(x == scaled(v, d as nat));
    if d == 0 {
        assert(x == v * 1_000_000 && pow(10, d as nat) == 1);
    } else if d == 1 {
        assert(x == v * 100_000 && pow(10, d as nat) == 10);
    } else if d == 2 {
        assert(x == v * 10_000 && pow(10, d as nat) == 100);
    } else if d == 3 {
        assert(x == v * 1_000 && pow(10, d as nat) == 1_000);
    } else if d == 4 {
        assert(x == v * 100 && pow(10, d as nat) == 10_000);
    } else if d == 5 {
        assert(x == v * 10 && pow(10, d as nat) == 100_000);
    } else if d == 6 {
        assert(x == v * 1 && pow(10, d as nat) == 1_000_000);
    } else {
        assert(x == (v + 5) / 10);
    }
}

proof fn lemma_powers()
    ensures
        pow(10, 0) == 1,
        pow(10, 1) == 10,
        pow(10, 2) == 100,
        pow(10, 3) == 1_000,
        pow(10, 4) == 10_000,
        pow(10, 5) == 100_000,
        pow(10, 6) == 1_000_000,
{
    reveal_with_fuel(pow, 8);
}

proof fn lemma_signed_price(negative: bool, p: Places)
    requires
        fits(p),
        p.digits < 0x1000_0000,
    ensures
        0 <= signed_word(negative, p) < 0x1_0000_0000,
        is_price(
            if negative {
                -signed_price_in(signed_word(negative, p))
            } else {
                signed_price_in(signed_word(negative, p))
            },
            p,
        ),
        -0x2000_0000 * 1_000_000 <= signed_price_in(signed_word(negative, p)) <= 0x2000_0000 * 1_000_000,
{
    lemma_price(p);
    let w: int = signed_word(negative, p);
    assert(w % 0x1000_0000 == p.digits);
    assert(w / 0x2000_0000 == p.decimals);
    assert(w / 0x1000_0000 == 2 * p.decimals + if negative {
        1int
    } else {
        0
    });
    assert(word(p) % 0x2000_0000 == p.digits);
    assert(word(p) / 0x2000_0000 == p.decimals);
}

proof fn lemma_units(p: Places)
    requires
        fits(p),
    ensures
        is_nearest(whole_units(price_in(word(p))), price_in(word(p))),
        0 <= whole_units(price_in(word(p))) <= 0x2000_0000,
{
    lemma_price(p);
}

/// Every field of a written record reads back: the moment, the user, the
/// codes, the side, the ids, the marks, and the numbers with decimals. The
/// sizes are read in whole units, and all of the original size is unfilled.
pub proof fn law_record_reads_back(f: Fields, order: Order)
    requires
        all_fit(f),
        order.user_id@ == decimal(number_at(written(f), 8, 4)),
        order == record_order(written(f), order.user_id),
    ensures
        order.ts == f.ts,
        order.user_id@ == decimal(f.user as int),
        order.is_builder == f.builder,
        order.status_id == f.status,
        order.is_ask == f.ask,
        is_price(order.limit_px as int, f.price),
        exists|px: int| #[trigger] is_price(px, f.size) && is_nearest(order.sz as int, px),
        order.oid == f.oid,
        order.timestamp_diff == f.delay,
        is_price(
            if f.negative {
                -order.trigger_condition
            } else {
                order.trigger_condition as int
            },
            f.condition,
        ),
        order.triggered == f.triggered,
        order.is_trigger == f.conditional,
        order.has_children == f.parent,
        order.is_position_tpsl == f.tpsl,
        order.reduce_only == f.reduces,
        order.order_type_id == f.kind,
        order.tif_id == f.tif,
        is_price(order.trigger_px as int, f.trigger_price),
        exists|px: int| #[trigger] is_price(px, f.first_size) && is_nearest(order.orig_sz as int, px),
        order.remaining == order.orig_sz,
        order.closed_ts == 0,
        order.status is None && order.order_type is None && order.tif is None,
{
    lemma_places(f);
    lemma_widths();
    lemma_price(f.price);
    lemma_price(f.size);
    lemma_units(f.size);
    lemma_signed_price(f.negative, f.condition);
    lemma_price(f.trigger_price);
    lemma_price(f.first_size);
    lemma_units(f.first_size);
    lemma_bytes(f.ts as int, 8);
    lemma_bytes(f.user as int, 4);
    lemma_bytes(word(f.price), 4);
    lemma_bytes(word(f.size), 4);
    lemma_bytes(f.oid as int, 8);
    lemma_bytes(f.delay as int, 4);
    lemma_bytes(signed_word(f.negative, f.condition), 4);
    lemma_bytes(word(f.trigger_price), 4);
    lemma_bytes(word(f.first_size), 4);
    assert(is_price(price_in(word(f.size)), f.size));
    assert(is_price(price_in(word(f.first_size)), f.first_size));
}

/// A record has no order in it exactly if its original size is less than half
/// a unit.
pub proof fn law_empty_sizes_have_no_order(f: Fields)
    requires
        all_fit(f),
    ensures
        exists|px: int| #[trigger] is_price(px, f.first_size) && (record_size(written(f)) == 0 <==> px < 500_000),
{
    lemma_places(f);
    lemma_widths();
    lemma_price(f.first_size);
    lemma_units(f.first_size);
    lemma_bytes(word(f.first_size), 4);
    assert(is_price(price_in(word(f.first_size)), f.first_size));
}

/// What a row writes for a mark.
pub open spec fn mark_text(b: bool) -> Seq<char> {
    if b {
        "True"@
    } else {
        "False"@
    }
}

/// The columns of a row spell out the same fields: the code of the status, the
/// side, the price, the id, the condition mark, the codes of the type and the
/// time in force, and the original size, each in its column.
pub open spec fn spells(cols: Seq<Seq<char>>, f: Fields) -> bool {
    &&& cols.len() == 22
    &&& cols[3] == decimal(f.status as int)
    &&& cols[4] == mark_text(f.ask)
    &&& cols[5] == notation(f.price.digits, f.price.decimals as nat)
    &&& cols[7] == decimal(f.oid as int)
    &&& cols[11] == mark_text(f.conditional)
    &&& cols[15] == decimal(f.kind as int)
    &&& cols[16] == decimal(f.tif as int)
    &&& cols[18] == notation(f.first_size.digits, f.first_size.decimals as nat)
}

pub proof fn lemma_mark_text(b: bool)
    ensures
        flag(mark_text(b)) == Some(b),
{
    reveal_strlit("True");
    reveal_strlit("true");
    reveal_strlit("False");
    reveal_strlit("false");
    let s: Seq<char> = mark_text(b);
    crate::inputs::intake_laws::lemma_no_white(s);
    if !b {
        assert(s[0] == 'F');
        assert("True"@[0] == 'T' && "true"@[0] == 't');
    }
}

pub proof fn lemma_number_text(n: int, most: int)
    requires
        0 <= n <= most,
    ensures
        unsigned_value(trim(decimal(n)), most) == Some(n),
{
    lemma_decimal(n);
    assert(is_digit(decimal(n)[0]));
    assert(is_digit(decimal(n)[decimal(n).len() - 1]));
    crate::inputs::intake_laws::lemma_no_white(decimal(n));
    law_decimal_reads_back(n, most);
}

/// A record and the row that spells out the same fields give the same order:
/// the same side, price, size, id, codes and mark. This holds for up to six
/// decimals.
pub proof fn law_record_and_row_agree(f: Fields, cols: Seq<Seq<char>>, from_record: Order, from_row: Order)
    requires
        all_fit(f),
        f.price.decimals <= 6,
        f.first_size.decimals <= 6,
        spells(cols, f),
        from_record == record_order(written(f), from_record.user_id),
        from_row == row_order(cols, from_row.user_id, from_row.status, from_row.order_type, from_row.tif),
    ensures
        from_record.is_ask == f.ask,
        from_row.is_ask == f.ask,
        from_row.status_id == from_record.status_id,
        from_row.limit_px == from_record.limit_px,
        from_row.oid == from_record.oid,
        from_row.is_trigger == from_record.is_trigger,
        from_row.order_type_id == from_record.order_type_id,
        from_row.tif_id == from_record.tif_id,
        from_row.orig_sz == from_record.orig_sz,
        from_row.remaining == from_record.remaining,
        from_row.sz == from_row.orig_sz,
{
    lemma_places(f);
    lemma_widths();
    lemma_price(f.price);
    lemma_price(f.first_size);
    lemma_bytes(word(f.price), 4);
    lemma_bytes(f.oid as int, 8);
    lemma_bytes(word(f.first_size), 4);
    lemma_mark_text(f.ask);
    lemma_mark_text(f.conditional);
    lemma_number_text(f.status as int, u8::MAX as int);
    lemma_number_text(f.oid as int, u64::MAX as int);
    lemma_number_text(f.kind as int, u8::MAX as int);
    lemma_number_text(f.tif as int, u8::MAX as int);
    assert(word(f.price) % 0x2000_0000 == f.price.digits && word(f.price) / 0x2000_0000 == f.price.decimals);
    assert(word(f.first_size) % 0x2000_0000 == f.first_size.digits && word(f.first_size) / 0x2000_0000
        == f.first_size.decimals);
    law_prices_agree(word(f.price) as u32);
    law_sizes_agree(word(f.first_size) as u32);
}

} // verus!
