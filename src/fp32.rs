use vstd::prelude::*;

use crate::state::Side;

verus! {

/// One unit in 32.32 fixed point.
pub const FP32_ONE: u128 = 4294967296;

/// The largest value a `u64` holds, as an `int`.
pub open spec fn u64_max() -> int {
    18446744073709551615
}

/// `v` clamped to the `u64` range from above.
pub open spec fn saturate(v: int) -> int {
    if v > u64_max() {
        u64_max()
    } else {
        v
    }
}

/// `a * p` where `p` is a 32.32 fixed-point price, floored, saturating at `u64::MAX`.
pub open spec fn fp32_mul_spec(a: u64, p: u64) -> int {
    saturate((a as int * p as int) / (FP32_ONE as int))
}

/// `a / p` where `p` is a 32.32 fixed-point price, floored, saturating at `u64::MAX`;
/// zero when `p` is zero.
pub open spec fn fp32_div_spec(a: u64, p: u64) -> int {
    if p == 0 {
        0
    } else {
        saturate((a as int * FP32_ONE as int) / (p as int))
    }
}

/// Multiplies a base amount by a 32.32 fixed-point price.
pub fn fp32_mul(a: u64, p: u64) -> (r: u64)
    ensures
        r as int == fp32_mul_spec(a, p),
{
    proof {
        assert(a as int * p as int <= u64_max() * u64_max()) by (nonlinear_arith)
            requires
                a as int <= u64_max(),
                p as int <= u64_max(),
                0 <= a,
                0 <= p,
        ;
    }
    let prod: u128 = (a as u128) * (p as u128);
    let q: u128 = prod / FP32_ONE;
    if q > u64::MAX as u128 {
        u64::MAX
    } else {
        q as u64
    }
}

/// Divides a base amount by a 32.32 fixed-point price; a zero price gives zero.
pub fn fp32_div(a: u64, p: u64) -> (r: u64)
    ensures
        r as int == fp32_div_spec(a, p),
{
    if p == 0 {
        return 0;
    }
    let num: u128 = (a as u128) * FP32_ONE;
    let q: u128 = num / (p as u128);
    if q > u64::MAX as u128 {
        u64::MAX
    } else {
        q as u64
    }
}

/// The multiple of `tick` nearest to `raw` on the side that does not improve the
/// order: down for a bid, up for an ask.
pub open spec fn round_price_spec(tick: u64, raw: u64, side: Side) -> int
    recommends
        tick > 0,
{
    match side {
        Side::Bid => (raw as int / tick as int) * tick as int,
        Side::Ask => ((raw as int + tick as int - 1) / tick as int) * tick as int,
    }
}

/// Whether an ask at `raw` can be rounded up to a multiple of `tick` within `u64`.
pub open spec fn round_price_fits(tick: u64, raw: u64, side: Side) -> bool {
    tick > 0 && (side == Side::Ask ==> round_price_spec(tick, raw, side) <= u64_max())
}

/// Snaps a raw price to the tick grid: bids round down, asks round up.
pub fn round_price(tick: u64, raw: u64, side: Side) -> (r: u64)
    requires
        round_price_fits(tick, raw, side),
    ensures
        r as int == round_price_spec(tick, raw, side),
        r as int % tick as int == 0,
        side == Side::Bid ==> r <= raw && raw - r < tick,
        side == Side::Ask ==> r >= raw && r - raw < tick,
{
    let t: u128 = tick as u128;
    let x: u128 = raw as u128;
    proof {
        let ti = tick as int;
        let xi = raw as int;
        assert(0 <= (xi / ti) * ti <= xi && xi - (xi / ti) * ti < ti) by (nonlinear_arith)
            requires
                ti > 0,
                xi >= 0,
        ;
        assert(((xi / ti) * ti) % ti == 0) by (nonlinear_arith)
            requires
                ti > 0,
        ;
        let c = xi + ti - 1;
        assert(xi <= (c / ti) * ti && (c / ti) * ti - xi < ti) by (nonlinear_arith)
            requires
                ti > 0,
                xi >= 0,
                c == xi + ti - 1,
        ;
        assert(((c / ti) * ti) % ti == 0) by (nonlinear_arith)
            requires
                ti > 0,
        ;
        assert((c / ti) * ti <= c + 1) by (nonlinear_arith)
            requires
                ti > 0,
                c >= 0,
        ;
    }
    match side {
        Side::Bid => ((x / t) * t) as u64,
        Side::Ask => (((x + t - 1) / t) * t) as u64,
    }
}

/// A base amount bought with at most `q` quote at price `p` costs at most `q`.
pub proof fn lemma_mul_div_bound(b: u64, q: u64, p: u64)
    requires
        b as int <= fp32_div_spec(q, p),
    ensures
        fp32_mul_spec(b, p) <= q as int,
{
    let s = FP32_ONE as int;
    if p == 0 {
        assert(b == 0);
        assert((0 * p as int) / s == 0);
    } else {
        let d = (q as int * s) / (p as int);
        assert(b as int <= d);
        assert(b as int * p as int <= d * p as int) by (nonlinear_arith)
            requires
                b as int <= d,
                p > 0,
        ;
        assert(d * p as int <= q as int * s) by (nonlinear_arith)
            requires
                d == (q as int * s) / (p as int),
                p > 0,
                q >= 0,
                s > 0,
        ;
        assert((b as int * p as int) / s <= q as int) by (nonlinear_arith)
            requires
                b as int * p as int <= q as int * s,
                s > 0,
                q >= 0,
        ;
    }
}

/// A price already on the tick grid is left where it is, on either side.
pub proof fn lemma_round_price_on_grid(tick: u64, p: u64, side: Side)
    requires
        tick > 0,
        p as int % tick as int == 0,
    ensures
        round_price_spec(tick, p, side) == p,
        round_price_fits(tick, p, side),
{
    let t = tick as int;
    let x = p as int;
    vstd::arithmetic::div_mod::lemma_fundamental_div_mod(x, t);
    assert((x / t) * t == x) by (nonlinear_arith)
        requires
            x == t * (x / t) + x % t,
            x % t == 0,
    ;
    assert((x + t - 1) / t == x / t) by {
        vstd::arithmetic::div_mod::lemma_fundamental_div_mod_converse(x + t - 1, t, x / t, t - 1);
        assert(x + t - 1 == (x / t) * t + (t - 1));
    }
}

} // verus!
