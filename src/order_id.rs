use vstd::prelude::*;

use crate::state::Side;

verus! {

/// Set in an order id exactly when the order is a bid.
pub const ORDER_ID_SIDE_FLAG: u128 = 1u128 << 63u128;

/// 2^64, the weight of the price half of an order id.
pub const PRICE_SHIFT: u128 = 18446744073709551616;

/// The low half of an order id: the sequence number for an ask, its bitwise
/// complement for a bid.
pub open spec fn seq_part(side: Side, seq: u64) -> int {
    match side {
        Side::Bid => 18446744073709551615 - seq as int,
        Side::Ask => seq as int,
    }
}

/// The order id of an order at `price` on `side` with sequence number `seq`:
/// the price in the high 64 bits, the sequence part in the low 64 bits.
pub open spec fn order_id_spec(price: u64, side: Side, seq: u64) -> int {
    price as int * PRICE_SHIFT as int + seq_part(side, seq)
}

/// The price held in an order id.
pub open spec fn price_of(key: u128) -> u64 {
    (key as int / PRICE_SHIFT as int) as u64
}

/// The side held in an order id: bit 63 set means a bid.
pub open spec fn side_of(key: u128) -> Side {
    if key as int % PRICE_SHIFT as int >= 9223372036854775808 {
        Side::Bid
    } else {
        Side::Ask
    }
}

/// Builds the order id of an order at `price` on `side` with sequence number `seq`.
pub fn gen_order_id(price: u64, side: Side, seq: u64) -> (r: u128)
    ensures
        r as int == order_id_spec(price, side, seq),
{
    let lower: u64 = match side {
        Side::Bid => !seq,
        Side::Ask => seq,
    };
    proof {
        assert(!seq == 18446744073709551615u64 - seq) by (bit_vector);
        let p = price as u128;
        let l = lower as u128;
        assert((p << 64u128) | l == p * 18446744073709551616u128 + l) by (bit_vector)
            requires
                p < 18446744073709551616u128,
                l < 18446744073709551616u128,
        ;
    }
    ((price as u128) << 64u128) | (lower as u128)
}

/// Reads the price back out of an order id.
pub fn price_from_key(key: u128) -> (r: u64)
    ensures
        r == price_of(key),
{
    (key / PRICE_SHIFT) as u64
}

/// Deduces an order's side from its order id.
pub fn get_side_from_order_id(order_id: u128) -> (r: Side)
    ensures
        r == side_of(order_id),
{
    proof {
        assert((order_id & (1u128 << 63u128)) != 0 <==> order_id % 18446744073709551616u128
            >= 9223372036854775808u128) by (bit_vector);
        assert(ORDER_ID_SIDE_FLAG == 1u128 << 63u128);
        assert(order_id as int % PRICE_SHIFT as int == (order_id % 18446744073709551616u128) as int);
    }
    if order_id & ORDER_ID_SIDE_FLAG != 0 {
        Side::Bid
    } else {
        Side::Ask
    }
}

/// A price and side survive the trip through an order id, for any sequence
/// number below 2^63.
pub proof fn lemma_order_id_round_trip(price: u64, side: Side, seq: u64)
    requires
        seq < 9223372036854775808,
    ensures
        0 <= order_id_spec(price, side, seq) < PRICE_SHIFT as int * PRICE_SHIFT as int,
        price_of(order_id_spec(price, side, seq) as u128) == price,
        side_of(order_id_spec(price, side, seq) as u128) == side,
        order_id_spec(price, side, seq) % PRICE_SHIFT as int == seq_part(side, seq),
{
    let k = order_id_spec(price, side, seq);
    let l = seq_part(side, seq);
    assert(0 <= l < PRICE_SHIFT as int);
    assert(0 <= k < PRICE_SHIFT as int * PRICE_SHIFT as int) by (nonlinear_arith)
        requires
            k == price as int * PRICE_SHIFT as int + l,
            0 <= l < PRICE_SHIFT as int,
            0 <= price < PRICE_SHIFT as int,
    ;
    vstd::arithmetic::div_mod::lemma_fundamental_div_mod_converse(
        k,
        PRICE_SHIFT as int,
        price as int,
        l,
    );
}

} // verus!
