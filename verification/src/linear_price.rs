//! The linear-price bonding curve. The price of one bonded token B,
//! denominated in collateral token A, is `slope * b + initial_price`, where
//! `b` counts the B tokens already swapped out. The amount of A locked at a
//! point on the curve is the integral `0.5*slope*b^2 + initial_price*b`, and
//! the swap engine inverts it with a quadratic solver. Every rounding step
//! is directed so the pool, never the trader, keeps the dust.

use vstd::prelude::*;
use crate::precise_number::DFSPreciseNumber;

verus! {

use crate::precise_number::one_r;
use crate::precise_number::half_r;
use crate::precise_number::opt_raw;
use crate::precise_number::spec_add;
use crate::precise_number::spec_sub;
use crate::precise_number::spec_mul;
use crate::precise_number::spec_div;
use crate::precise_number::spec_floor;
use crate::precise_number::spec_ceiling;
use crate::precise_number::spec_to_imprecise;
use crate::precise_number::spec_sqrt_u64;
use crate::precise_number::isqrt;
use crate::inner_uint::p256;
use crate::inner_uint::bit_len;
use vstd::arithmetic::power2::pow2;

/// Which token the trader is sending in.
#[derive(Clone, Copy, Debug, PartialEq, Eq, Structural)]
pub enum TradeDirection {
    /// Collateral in, bonded token out.
    AtoB,
    /// Bonded token in, collateral out.
    BtoA,
}

/// Rounding directions for pool-token conversions.
#[derive(Clone, Copy, Debug, PartialEq, Eq, Structural)]
pub enum RoundDirection {
    /// Round down.
    Floor,
    /// Round up.
    Ceiling,
}

/// The amounts a successful swap moves: both are always nonzero.
#[derive(Clone, Copy, Debug, PartialEq, Eq, Structural)]
pub struct SwapWithoutFeesResult {
    /// How much of the source token the pool takes.
    pub source_amount_swapped: u128,
    /// How much of the destination token the pool pays out.
    pub destination_amount_swapped: u128,
}

/// Trading-token amounts for pool-token conversions.
#[derive(Clone, Copy, Debug, PartialEq, Eq, Structural)]
pub struct TradingTokenResult {
    /// Amount of token A.
    pub token_a_amount: u128,
    /// Amount of token B.
    pub token_b_amount: u128,
}

/// The named configuration and validation failures.
#[derive(Clone, Copy, Debug, PartialEq, Eq, Structural)]
pub enum SwapError {
    /// The curve parameters are degenerate.
    InvalidCurve,
    /// The initial supply holds no bonded token.
    EmptySupply,
    /// The initial supply holds collateral, which the curve cannot track.
    InvalidSupply,
    /// A serialized record has the wrong size.
    InvalidInput,
}

/// Maps a zero amount to `None`: a trade that moves nothing is no trade.
pub fn map_zero_to_none(x: u128) -> (r: Option<u128>)
    ensures
        x == 0 ==> r is None,
        x != 0 ==> r == Some(x),
{
    if x == 0 {
        None
    } else {
        Some(x)
    }
}

/// A linear price curve: the slope and the price at zero supply, each kept
/// as a fraction of two 64-bit integers.
#[derive(Clone, Copy, Debug, Default, PartialEq, Eq, Structural)]
pub struct LinearPriceCurve {
    /// Numerator of the slope: price increase per bonded token issued.
    pub slope_numerator: u64,
    /// Denominator of the slope.
    pub slope_denominator: u64,
    /// Numerator of the price of one bonded token at zero supply.
    pub initial_token_a_price_numerator: u64,
    /// Denominator of that initial price.
    pub initial_token_a_price_denominator: u64,
}

/// A curve is valid when both slope parts and the initial-price denominator
/// are nonzero and the slope is at least `1e-18`, the smallest value the
/// fixed-point type can represent.
pub open spec fn curve_params_valid(c: LinearPriceCurve) -> bool {
    &&& c.slope_numerator >= 1
    &&& c.slope_denominator >= 1
    &&& c.initial_token_a_price_denominator >= 1
    &&& c.slope_denominator <= c.slope_numerator * 1_000_000_000_000_000_000
}

/// Checks the curve parameters; `None` means a degenerate curve whose slope
/// is zero, undefined, or below the fixed-point resolution of `1e-18`.
pub fn is_curve_param_valid(curve: &LinearPriceCurve) -> (r: Option<()>)
    ensures
        r is Some <==> curve_params_valid(*curve),
{
    if curve.slope_numerator == 0 || curve.slope_denominator == 0
        || curve.initial_token_a_price_denominator == 0 {
        return None;
    }
    let numerator = match DFSPreciseNumber::new(curve.slope_numerator as u128) {
        Some(n) => n,
        None => DFSPreciseNumber::zero(),  // unreachable
    };
    let denominator = match DFSPreciseNumber::new(curve.slope_denominator as u128) {
        Some(n) => n,
        None => DFSPreciseNumber::zero(),  // unreachable
    };
    let one_fp = match DFSPreciseNumber::new(1) {
        Some(n) => n,
        None => DFSPreciseNumber::zero(),  // unreachable
    };
    let scale_fp = match DFSPreciseNumber::new(1_000_000_000_000_000_000) {
        Some(n) => n,
        None => DFSPreciseNumber::zero(),  // unreachable
    };
    let minimum = match one_fp.checked_div(&scale_fp) {
        Some(m) => m,
        None => DFSPreciseNumber::zero(),  // unreachable
    };
    proof {
        lemma_minimum_is_one_raw();
        lemma_slope_quotient(curve.slope_numerator as nat, curve.slope_denominator as nat);
    }
    let q = match numerator.checked_div(&denominator) {
        Some(q) => q,
        None => DFSPreciseNumber::zero(),  // unreachable
    };
    if q.greater_than_or_equal(&minimum) {
        Some(())
    } else {
        None
    }
}

/// The constant `1 / 1e18` has raw value exactly one.
proof fn lemma_minimum_is_one_raw()
    ensures
        spec_div(1 * one_r(), 1_000_000_000_000_000_000 * one_r()) == Some(1nat),
{
    crate::inner_uint::lemma_p128_is_pow2();
    vstd::arithmetic::div_mod::lemma_fundamental_div_mod_converse((1_000_000_000_000_000_000
        * one_r() + half_r()) as int, (1_000_000_000_000_000_000 * one_r()) as int, 1,
        half_r() as int);
}

/// The rounded-to-nearest slope quotient reaches one raw unit exactly when
/// the denominator is at most `numerator * 1e18`.
proof fn lemma_slope_quotient(sn: nat, sd: nat)
    requires
        1 <= sn,
        1 <= sd,
        sn <= u64::MAX,
        sd <= u64::MAX,
    ensures
        spec_div(sn * one_r(), sd * one_r()) matches Some(q) && (q >= 1 <==> sd <= sn
            * 1_000_000_000_000_000_000),
{
    let a = sn * one_r();
    let b = sd * one_r();
    assert(a * one_r() < p256() && a * one_r() + half_r() < p256());
    let q = (a * one_r() + half_r()) / b;
    assert(spec_div(a, b) == Some(q));
    vstd::arithmetic::div_mod::lemma_fundamental_div_mod((a * one_r() + half_r()) as int,
        b as int);
    vstd::arithmetic::div_mod::lemma_mod_bound((a * one_r() + half_r()) as int, b as int);
    if sd <= sn * 1_000_000_000_000_000_000 {
        // dividend >= divisor, so the quotient is at least one
        assert(b <= a * one_r());
        if q == 0 {
            assert(a * one_r() + half_r() < b);
            assert(false);
        }
    } else {
        // divisor exceeds dividend plus correction, so the quotient is zero
        assert(b >= a * one_r() + one_r());
        assert(a * one_r() + half_r() < b);
        vstd::arithmetic::div_mod::lemma_basic_div((a * one_r() + half_r()) as int, b as int);
    }
}

impl LinearPriceCurve {
    /// Validates the curve parameters: rejects a zero, undefined, or
    /// below-resolution slope and an undefined initial price.
    pub fn validate(&self) -> (r: Result<(), SwapError>)
        ensures
            r is Ok <==> curve_params_valid(*self),
            !curve_params_valid(*self) ==> r == Result::<(), SwapError>::Err(
                SwapError::InvalidCurve,
            ),
    {
        match is_curve_param_valid(self) {
            Some(_val) => Ok(()),
            None => Err(SwapError::InvalidCurve),
        }
    }

    /// Validates the initial supply: the pool must open with some bonded
    /// token and no collateral, since the curve infers its position from
    /// the collateral balance alone.
    pub fn validate_supply(&self, token_a_amount: u64, token_b_amount: u64) -> (r: Result<
        (),
        SwapError,
    >)
        ensures
            r is Ok <==> (token_b_amount != 0 && token_a_amount == 0),
            token_b_amount == 0 ==> r == Result::<(), SwapError>::Err(SwapError::EmptySupply),
            token_b_amount != 0 && token_a_amount != 0 ==> r == Result::<(), SwapError>::Err(
                SwapError::InvalidSupply,
            ),
    {
        if token_b_amount == 0 {
            return Err(SwapError::EmptySupply);
        }
        if token_a_amount != 0 {
            return Err(SwapError::InvalidSupply);
        }
        Ok(())
    }

    /// Pool-token conversions are disabled for this curve: deposits and
    /// withdrawals beyond the initial one are unsupported by design.
    pub fn pool_tokens_to_trading_tokens(
        &self,
        _pool_tokens: u128,
        _pool_token_supply: u128,
        _swap_token_a_amount: u128,
        _swap_token_b_amount: u128,
        _round_direction: RoundDirection,
    ) -> (r: Option<TradingTokenResult>)
        ensures
            r is None,
    {
        None
    }

    /// Deposits of a single token type are disabled for this curve.
    pub fn deposit_single_token_type(
        &self,
        _source_amount: u128,
        _swap_token_a_amount: u128,
        _swap_token_b_amount: u128,
        _pool_supply: u128,
        _trade_direction: TradeDirection,
    ) -> (r: Option<u128>)
        ensures
            r is None,
    {
        None
    }

    /// Withdrawals of a single token type are disabled for this curve.
    pub fn withdraw_single_token_type_exact_out(
        &self,
        _source_amount: u128,
        _swap_token_a_amount: u128,
        _swap_token_b_amount: u128,
        _pool_supply: u128,
        _trade_direction: TradeDirection,
    ) -> (r: Option<u128>)
        ensures
            r is None,
    {
        None
    }

    /// Deposits beyond the initial one are rejected.
    pub fn allows_deposits(&self) -> (r: bool)
        ensures
            r == false,
    {
        false
    }
}

/// Pairs of raw `u128` amounts, viewed as mathematical values.
pub open spec fn opt_pair(r: Option<(u128, u128)>) -> Option<(nat, nat)> {
    match r {
        Some(p) => Some((p.0 as nat, p.1 as nat)),
        None => None,
    }
}

/// The amount of token A locked when `b` bonded tokens (as a raw
/// fixed-point value) have been issued: the integral
/// `0.5*slope*b^2 + initial_price*b`, evaluated with the fixed-point
/// operations in the order the engine performs them.
pub open spec fn spec_amt_a_locked(c: LinearPriceCurve, b: nat) -> Option<nat> {
    match spec_mul((c.slope_numerator as nat) * one_r(), b) {
        Some(t1) => match spec_mul(t1, b) {
            Some(t2) => match spec_div(t2, (c.slope_denominator as nat) * one_r()) {
                Some(t3) => match spec_div(t3, 2 * one_r()) {
                    Some(half_m_b2) => match spec_mul(
                        (c.initial_token_a_price_numerator as nat) * one_r(),
                        b,
                    ) {
                        Some(u1) => match spec_div(
                            u1,
                            (c.initial_token_a_price_denominator as nat) * one_r(),
                        ) {
                            Some(a0b) => spec_add(half_m_b2, a0b),
                            None => None,
                        },
                        None => None,
                    },
                    None => None,
                },
                None => None,
            },
            None => None,
        },
        None => None,
    }
}

/// The positive root of `0 = k*x^2 + e*x - lhs` with `k = kn/kd` and
/// `e = en/ed`, all raw fixed-point values: `(sqrt(e^2 + 4*k*lhs) - e)/2k`,
/// evaluated step by step. A square root shortfall that drives the
/// numerator negative is clamped to zero.
pub open spec fn spec_solve_quadratic(kn: nat, kd: nat, en: nat, ed: nat, lhs: nat,
    up: bool) -> Option<nat> {
    match spec_mul(kn, 4 * one_r()) {
        Some(t1) => match spec_mul(t1, lhs) {
            Some(t2) => match spec_div(t2, kd) {
                Some(fkl) => match spec_mul(en, en) {
                    Some(s1) => match spec_div(s1, ed) {
                        Some(s2) => match spec_div(s2, ed) {
                            Some(s3) => match spec_add(s3, fkl) {
                                Some(disc) => match spec_sqrt_u64(disc, up) {
                                    Some(root) => match spec_div(en, ed) {
                                        Some(ev) => {
                                            let numr: nat = if root >= ev {
                                                (root - ev) as nat
                                            } else {
                                                0
                                            };
                                            match spec_mul(numr, kd) {
                                                Some(m1) => match spec_div(m1, kn) {
                                                    Some(m2) => spec_div(m2, 2 * one_r()),
                                                    None => None,
                                                },
                                                None => None,
                                            }
                                        },
                                        None => None,
                                    },
                                    None => None,
                                },
                                None => None,
                            },
                            None => None,
                        },
                        None => None,
                    },
                    None => None,
                },
                None => None,
            },
            None => None,
        },
        None => None,
    }
}

/// The bonded-token position `b` at which `a` token A (raw fixed-point) is
/// locked: the positive root of `a = 0.5*slope*b^2 + initial_price*b`.
pub open spec fn spec_b_value(c: LinearPriceCurve, a: nat, up: bool) -> Option<nat> {
    match spec_mul((c.slope_numerator as nat) * one_r(), 1 * one_r()) {
        Some(kn) => match spec_mul((c.slope_denominator as nat) * one_r(), 2 * one_r()) {
            Some(kd) => spec_solve_quadratic(
                kn,
                kd,
                (c.initial_token_a_price_numerator as nat) * one_r(),
                (c.initial_token_a_price_denominator as nat) * one_r(),
                a,
                up,
            ),
            None => None,
        },
        None => None,
    }
}

/// When draining the whole remaining bonded reserve would cost at most
/// `source_amount` of token A, the exact cost and the full reserve;
/// otherwise (or when any step fails) nothing.
pub open spec fn spec_max_a_remaining(c: LinearPriceCurve, a_start: nat, b_start: nat,
    source_amount: nat, swap_destination_amount: nat) -> Option<(nat, nat)> {
    match spec_add(b_start, swap_destination_amount * one_r()) {
        Some(maxb) => match spec_amt_a_locked(c, maxb) {
            Some(maxlock) => match spec_sub(maxlock, a_start) {
                Some(diff) => match spec_to_imprecise(diff) {
                    Some(rem) => if rem <= source_amount {
                        Some((rem, swap_destination_amount))
                    } else {
                        None
                    },
                    None => None,
                },
                None => None,
            },
            None => None,
        },
        None => None,
    }
}

/// A collateral-to-bonded swap. The start position comes from the locked
/// collateral with the root rounded up; if the remaining bonded reserve is
/// cheaper than the offer, the trade is liquidity-limited and returns the
/// exact cost with the whole reserve; otherwise the end position is rounded
/// down and the payout is the floored difference.
pub open spec fn spec_swap_a_to_b(c: LinearPriceCurve, source_amount: nat,
    swap_source_amount: nat, swap_destination_amount: nat) -> Option<(nat, nat)> {
    let a_start = swap_source_amount * one_r();
    match spec_b_value(c, a_start, true) {
        Some(b_start) => match spec_max_a_remaining(c, a_start, b_start, source_amount,
            swap_destination_amount) {
            Some(pair) => Some(pair),
            None => match spec_add(a_start, source_amount * one_r()) {
                Some(a_end) => match spec_b_value(c, a_end, false) {
                    Some(b_end) => match spec_sub(b_end, b_start) {
                        Some(diff) => match spec_to_imprecise(spec_floor(diff)) {
                            Some(dest) => Some((source_amount, dest)),
                            None => None,
                        },
                        None => None,
                    },
                    None => None,
                },
                None => None,
            },
        },
        None => None,
    }
}

/// A bonded-to-collateral swap. The start position comes from the locked
/// collateral with the root rounded up; an offer that would push the
/// position below zero drains the pool instead, taking only the bonded
/// amount that covers the whole collateral reserve; otherwise the end
/// position is rounded up to a whole bonded token and the payout is the
/// floored difference of locked amounts.
pub open spec fn spec_swap_b_to_a(c: LinearPriceCurve, source_amount: nat,
    swap_destination_amount: nat) -> Option<(nat, nat)> {
    match spec_b_value(c, swap_destination_amount * one_r(), true) {
        Some(b_start) => {
            let src = source_amount * one_r();
            let neg = b_start < src;
            let babs: nat = if neg {
                (src - b_start) as nat
            } else {
                (b_start - src) as nat
            };
            match spec_ceiling(babs) {
                Some(b_end) => if neg {
                    match spec_to_imprecise(b_start) {
                        Some(bs) => Some((bs, swap_destination_amount)),
                        None => None,
                    }
                } else {
                    match spec_amt_a_locked(c, b_end) {
                        Some(a_end) => match spec_sub(swap_destination_amount * one_r(), a_end) {
                            Some(d) => match spec_to_imprecise(spec_floor(d)) {
                                Some(am) => Some((source_amount, am)),
                                None => None,
                            },
                            None => None,
                        },
                        None => None,
                    }
                },
                None => None,
            }
        },
        None => None,
    }
}

/// A swap in either direction, with zero amounts rejected: a result is
/// returned only when both sides move a nonzero amount.
pub open spec fn spec_swap_without_fees(c: LinearPriceCurve, source_amount: nat,
    swap_source_amount: nat, swap_destination_amount: nat, dir: TradeDirection) -> Option<
    (nat, nat),
> {
    let base = if dir == TradeDirection::AtoB {
        spec_swap_a_to_b(c, source_amount, swap_source_amount, swap_destination_amount)
    } else {
        spec_swap_b_to_a(c, source_amount, swap_destination_amount)
    };
    match base {
        Some(p) => if p.0 == 0 || p.1 == 0 {
            None
        } else {
            Some(p)
        },
        None => None,
    }
}

/// Integer square root of a 128-bit value by the Babylonian iteration;
/// it rounds down and never fails.
pub fn sqrt_babylonian(x: u128) -> (r: Option<u128>)
    ensures
        r matches Some(v) && v == isqrt(x as nat),
{
    proof {
        crate::precise_number::lemma_isqrt_bounds(x as nat);
        lemma_isqrt_fits_u64(x as nat);
        crate::precise_number::lemma_isqrt_below_half(x as nat);
    }
    let ghost s = isqrt(x as nat);
    let mut z: u128 = if x == u128::MAX {
        x / 2
    } else {
        (x + 1) / 2
    };
    let mut y: u128 = x;
    proof {
        if x == u128::MAX {
            assert(s <= (x + 1) / 2);
            assert((x + 1) / 2 <= x / 2 + 1) by {
                vstd::arithmetic::div_mod::lemma_fundamental_div_mod((x + 1) as int, 2);
                vstd::arithmetic::div_mod::lemma_fundamental_div_mod(x as int, 2);
            };
            assert(s < 0x1_0000_0000_0000_0000);
        }
        assert(s <= x) by {
            if s >= 1 {
                assert(s <= s * s) by (nonlinear_arith)
                    requires
                        s >= 1,
                ;
            }
        };
        if x >= 2 {
            vstd::arithmetic::div_mod::lemma_multiply_divide_lt((x + 1) as int, 2, x as int);
            vstd::arithmetic::div_mod::lemma_multiply_divide_lt(x as int, 2, x as int);
        } else {
            assert(x * x <= x) by (nonlinear_arith)
                requires
                    x <= 1,
            ;
        }
    }
    while z < y
        invariant
            s == isqrt(x as nat),
            s * s <= x,
            x < (s + 1) * (s + 1),
            s < 0x1_0000_0000_0000_0000,
            z >= s,
            y >= s,
            y <= x,
            z <= (x as int + 1) / 2 + 1,
            z >= y ==> y * y <= x,
        decreases y,
    {
        proof {
            if x <= 1 {
                if x == 1 {
                    assert(s == 1) by {
                        crate::precise_number::lemma_isqrt_unique(1, 1);
                    };
                } else {
                    assert(s == 0) by {
                        crate::precise_number::lemma_isqrt_unique(0, 0);
                    };
                    assert(y == 0);
                }
                assert(false);
            }
            assert(s >= 1) by {
                if s == 0 {
                    assert((s + 1) * (s + 1) == 1) by (nonlinear_arith)
                        requires
                            s == 0,
                    ;
                    assert(x < 1);
                }
            };
        }
        y = z;
        proof {
            assert(x as nat <= s * s + 2 * s) by (nonlinear_arith)
                requires
                    x < (s + 1) * (s + 1),
            ;
            vstd::arithmetic::div_mod::lemma_div_is_ordered_by_denominator(x as int, s as int,
                y as int);
            assert((s * s + 2 * s) / s == s + 2) by {
                vstd::arithmetic::div_mod::lemma_div_multiples_vanish((s + 2) as int, s as int);
                assert(s * (s + 2) == s * s + 2 * s) by (nonlinear_arith);
            };
            vstd::arithmetic::div_mod::lemma_div_is_ordered(x as int, (s * s + 2 * s) as int,
                s as int);
            assert(x / y <= s + 2);
        }
        let q = x / y;
        let w = q + y;
        z = w / 2;
        proof {
            crate::precise_number::lemma_newton_ge_sqrt(x as nat, y as nat);
            if y >= s + 2 {
                assert(x as nat <= (s + 2) * y) by (nonlinear_arith)
                    requires
                        x as nat <= s * s + 2 * s,
                        y >= s + 2,
                        s >= 0,
                ;
                vstd::arithmetic::div_mod::lemma_multiply_divide_le(x as int, y as int, (s
                    + 2) as int);
                assert(q <= s + 2);
                assert(w <= 2 * y);
                vstd::arithmetic::div_mod::lemma_div_is_ordered(w as int, (2 * y) as int, 2);
                vstd::arithmetic::div_mod::lemma_div_multiples_vanish(y as int, 2);
            } else {
                assert(w <= 2 * s + 3);
                vstd::arithmetic::div_mod::lemma_div_is_ordered(w as int, (2 * s + 3) as int, 2);
                assert((2 * s + 3) / 2 == s + 1) by {
                    vstd::arithmetic::div_mod::lemma_fundamental_div_mod_converse((2 * s
                        + 3) as int, 2, (s + 1) as int, 1);
                };
                assert(s + 1 <= (x as int + 1) / 2 + 1) by {
                    crate::precise_number::lemma_isqrt_below_half(x as nat);
                };
            }
            if z >= y {
                assert(w >= 2 * y) by {
                    vstd::arithmetic::div_mod::lemma_fundamental_div_mod(w as int, 2);
                    vstd::arithmetic::div_mod::lemma_mod_bound(w as int, 2);
                };
                assert(q >= y);
                assert(x >= y * y) by {
                    vstd::arithmetic::div_mod::lemma_fundamental_div_mod(x as int, y as int);
                    vstd::arithmetic::div_mod::lemma_mod_bound(x as int, y as int);
                    assert(y * (x / y) >= y * y) by (nonlinear_arith)
                        requires
                            x / y >= y,
                            y > 0,
                    ;
                };
            }
        }
    }
    proof {
        assert(y * y <= x);
        assert(y <= s) by {
            if y >= s + 1 {
                assert(y * y >= (s + 1) * (s + 1)) by (nonlinear_arith)
                    requires
                        y >= s + 1,
                ;
            }
        };
    }
    Some(y)
}

/// Below 2^128, the integer square root stays below 2^64.
proof fn lemma_isqrt_fits_u64(x: nat)
    requires
        x <= u128::MAX,
    ensures
        isqrt(x) < 0x1_0000_0000_0000_0000,
{
    crate::precise_number::lemma_isqrt_bounds(x);
    let s = isqrt(x);
    if s >= 0x1_0000_0000_0000_0000 {
        assert(s * s >= 0x1_0000_0000_0000_0000_0000_0000_0000_0000) by (nonlinear_arith)
            requires
                s >= 0x1_0000_0000_0000_0000,
        ;
        assert(false);
    }
}

/// Solves `0 = k*x^2 + e*x - lhs` for the unique non-negative root, with
/// the coefficients passed as fractions to preserve precision. The sign of
/// the rounding at the square root step is the caller's choice.
pub fn solve_quadratic_positive_root(
    k_numerator: &DFSPreciseNumber,
    k_denominator: &DFSPreciseNumber,
    e_value_numerator: &DFSPreciseNumber,
    e_value_denominator: &DFSPreciseNumber,
    lhs_value: &DFSPreciseNumber,
    should_round_sqrt_up: bool,
) -> (r: Option<DFSPreciseNumber>)
    ensures
        opt_raw(r) == spec_solve_quadratic(k_numerator@, k_denominator@, e_value_numerator@,
            e_value_denominator@, lhs_value@, should_round_sqrt_up),
{
    let four = match DFSPreciseNumber::new(4) {
        Some(f) => f,
        None => DFSPreciseNumber::zero(),  // unreachable
    };
    let t1 = match k_numerator.checked_mul(&four) {
        Some(t) => t,
        None => {
            return None;
        },
    };
    let t2 = match t1.checked_mul(lhs_value) {
        Some(t) => t,
        None => {
            return None;
        },
    };
    let four_k_lhs = match t2.checked_div(k_denominator) {
        Some(t) => t,
        None => {
            return None;
        },
    };
    let s1 = match e_value_numerator.checked_mul(e_value_numerator) {
        Some(t) => t,
        None => {
            return None;
        },
    };
    let s2 = match s1.checked_div(e_value_denominator) {
        Some(t) => t,
        None => {
            return None;
        },
    };
    let s3 = match s2.checked_div(e_value_denominator) {
        Some(t) => t,
        None => {
            return None;
        },
    };
    let e2_plus_4_k_lhs = match s3.checked_add(&four_k_lhs) {
        Some(t) => t,
        None => {
            return None;
        },
    };
    let sqrt_e2_plus_4_k_lhs = match e2_plus_4_k_lhs.sqrt_u64(should_round_sqrt_up) {
        Some(t) => t,
        None => {
            return None;
        },
    };
    let e_value = match e_value_numerator.checked_div(e_value_denominator) {
        Some(t) => t,
        None => {
            return None;
        },
    };
    // a root that rounded down past `e` is clamped to zero
    let numerator = match sqrt_e2_plus_4_k_lhs.checked_sub(&e_value) {
        Some(val) => val,
        None => DFSPreciseNumber::zero(),
    };
    let m1 = match numerator.checked_mul(k_denominator) {
        Some(t) => t,
        None => {
            return None;
        },
    };
    let m2 = match m1.checked_div(k_numerator) {
        Some(t) => t,
        None => {
            return None;
        },
    };
    let two = match DFSPreciseNumber::new(2) {
        Some(f) => f,
        None => DFSPreciseNumber::zero(),  // unreachable
    };
    m2.checked_div(&two)
}

impl LinearPriceCurve {
    /// The amount of token A locked at bonded position `b_value`: the
    /// integral of the price line from zero to `b_value`.
    pub fn amt_a_locked_at_b_value_quadratic(&self, b_value: &DFSPreciseNumber) -> (r: Option<
        DFSPreciseNumber,
    >)
        ensures
            opt_raw(r) == spec_amt_a_locked(*self, b_value@),
    {
        let slope_num = match DFSPreciseNumber::new(self.slope_numerator as u128) {
            Some(t) => t,
            None => DFSPreciseNumber::zero(),  // unreachable
        };
        let t1 = match slope_num.checked_mul(b_value) {
            Some(t) => t,
            None => {
                return None;
            },
        };
        let t2 = match t1.checked_mul(b_value) {
            Some(t) => t,
            None => {
                return None;
            },
        };
        let slope_den = match DFSPreciseNumber::new(self.slope_denominator as u128) {
            Some(t) => t,
            None => DFSPreciseNumber::zero(),  // unreachable
        };
        let t3 = match t2.checked_div(&slope_den) {
            Some(t) => t,
            None => {
                return None;
            },
        };
        let two = match DFSPreciseNumber::new(2) {
            Some(t) => t,
            None => DFSPreciseNumber::zero(),  // unreachable
        };
        let half_m_b_squared = match t3.checked_div(&two) {
            Some(t) => t,
            None => {
                return None;
            },
        };
        let price_num = match DFSPreciseNumber::new(self.initial_token_a_price_numerator
            as u128) {
            Some(t) => t,
            None => DFSPreciseNumber::zero(),  // unreachable
        };
        let u1 = match price_num.checked_mul(b_value) {
            Some(t) => t,
            None => {
                return None;
            },
        };
        let price_den = match DFSPreciseNumber::new(self.initial_token_a_price_denominator
            as u128) {
            Some(t) => t,
            None => DFSPreciseNumber::zero(),  // unreachable
        };
        let a0_times_b = match u1.checked_div(&price_den) {
            Some(t) => t,
            None => {
                return None;
            },
        };
        half_m_b_squared.checked_add(&a0_times_b)
    }

    /// The bonded position at which `token_a_amount` of A is locked: the
    /// positive root of the integral, via the quadratic solver.
    pub fn b_value_with_amt_a_locked_quadratic(
        &self,
        token_a_amount: &DFSPreciseNumber,
        should_round_sqrt_up: bool,
    ) -> (r: Option<DFSPreciseNumber>)
        ensures
            opt_raw(r) == spec_b_value(*self, token_a_amount@, should_round_sqrt_up),
    {
        let slope_numerator = match DFSPreciseNumber::new(self.slope_numerator as u128) {
            Some(t) => t,
            None => DFSPreciseNumber::zero(),  // unreachable
        };
        let slope_denominator = match DFSPreciseNumber::new(self.slope_denominator as u128) {
            Some(t) => t,
            None => DFSPreciseNumber::zero(),  // unreachable
        };
        let one_fp = match DFSPreciseNumber::new(1) {
            Some(t) => t,
            None => DFSPreciseNumber::zero(),  // unreachable
        };
        let two_fp = match DFSPreciseNumber::new(2) {
            Some(t) => t,
            None => DFSPreciseNumber::zero(),  // unreachable
        };
        // k is kept as a fraction: pre-dividing the slope would round away
        // precision that the root then multiplies back up
        let k_numerator = match slope_numerator.checked_mul(&one_fp) {
            Some(t) => t,
            None => {
                return None;
            },
        };
        let k_denominator = match slope_denominator.checked_mul(&two_fp) {
            Some(t) => t,
            None => {
                return None;
            },
        };
        let e_value_numerator = match DFSPreciseNumber::new(self.initial_token_a_price_numerator
            as u128) {
            Some(t) => t,
            None => DFSPreciseNumber::zero(),  // unreachable
        };
        let e_value_denominator = match DFSPreciseNumber::new(
            self.initial_token_a_price_denominator as u128,
        ) {
            Some(t) => t,
            None => DFSPreciseNumber::zero(),  // unreachable
        };
        solve_quadratic_positive_root(&k_numerator, &k_denominator, &e_value_numerator,
            &e_value_denominator, token_a_amount, should_round_sqrt_up)
    }

    /// If draining the whole remaining bonded reserve costs at most
    /// `source_amount`, returns that exact cost and the reserve; `None`
    /// says the reserve can cover the offer (or a step failed, in which
    /// case the main path recomputes and fails there).
    pub fn maximum_a_remaining_for_swap_a_to_b(
        &self,
        a_start: &DFSPreciseNumber,
        b_start: &DFSPreciseNumber,
        source_amount: u128,
        swap_destination_amount: u128,
    ) -> (r: Option<(u128, u128)>)
        ensures
            opt_pair(r) == spec_max_a_remaining(*self, a_start@, b_start@, source_amount as nat,
                swap_destination_amount as nat),
    {
        let dest_fp = match DFSPreciseNumber::new(swap_destination_amount) {
            Some(t) => t,
            None => DFSPreciseNumber::zero(),  // unreachable
        };
        let maximum_b_value = match b_start.checked_add(&dest_fp) {
            Some(t) => t,
            None => {
                return None;
            },
        };
        let maximum_a_locked = match self.amt_a_locked_at_b_value_quadratic(&maximum_b_value) {
            Some(t) => t,
            None => {
                return None;
            },
        };
        let diff = match maximum_a_locked.checked_sub(a_start) {
            Some(t) => t,
            None => {
                return None;
            },
        };
        let maximum_a_remaining = match diff.to_imprecise() {
            Some(t) => t,
            None => {
                return None;
            },
        };
        if maximum_a_remaining <= source_amount {
            Some((maximum_a_remaining, swap_destination_amount))
        } else {
            None
        }
    }

    /// Swaps collateral in for bonded tokens out, moving right on the
    /// curve. The payout is floored and the start position rounded up, so
    /// rounding always favours the pool.
    pub fn swap_a_to_b(
        &self,
        source_amount: u128,
        swap_source_amount: u128,
        swap_destination_amount: u128,
    ) -> (r: Option<(u128, u128)>)
        ensures
            opt_pair(r) == spec_swap_a_to_b(*self, source_amount as nat,
                swap_source_amount as nat, swap_destination_amount as nat),
    {
        let a_start = match DFSPreciseNumber::new(swap_source_amount) {
            Some(t) => t,
            None => DFSPreciseNumber::zero(),  // unreachable
        };
        let b_start = match self.b_value_with_amt_a_locked_quadratic(&a_start, true) {
            Some(t) => t,
            None => {
                return None;
            },
        };
        match self.maximum_a_remaining_for_swap_a_to_b(&a_start, &b_start, source_amount,
            swap_destination_amount) {
            Some(val) => {
                return Some(val);
            },
            None => (),
        }
        let source_fp = match DFSPreciseNumber::new(source_amount) {
            Some(t) => t,
            None => DFSPreciseNumber::zero(),  // unreachable
        };
        let a_end = match a_start.checked_add(&source_fp) {
            Some(t) => t,
            None => {
                return None;
            },
        };
        let b_end = match self.b_value_with_amt_a_locked_quadratic(&a_end, false) {
            Some(t) => t,
            None => {
                return None;
            },
        };
        let difference = match b_end.checked_sub(&b_start) {
            Some(t) => t,
            None => {
                return None;
            },
        };
        // floor, not round-to-nearest: dust must never round up for free
        let floored = match difference.floor() {
            Some(t) => t,
            None => {
                return None;
            },
        };
        let destination_amount = match floored.to_imprecise() {
            Some(t) => t,
            None => {
                return None;
            },
        };
        Some((source_amount, destination_amount))
    }

    /// Swaps bonded tokens in for collateral out, moving left on the
    /// curve. The end position is rounded up to a whole bonded token and
    /// the payout floored; an offer that overshoots position zero drains
    /// the pool and takes only the bonded amount that covers it.
    pub fn swap_b_to_a(
        &self,
        source_amount: u128,
        _swap_source_amount: u128,
        swap_destination_amount: u128,
    ) -> (r: Option<(u128, u128)>)
        ensures
            opt_pair(r) == spec_swap_b_to_a(*self, source_amount as nat,
                swap_destination_amount as nat),
    {
        let dest_fp = match DFSPreciseNumber::new(swap_destination_amount) {
            Some(t) => t,
            None => DFSPreciseNumber::zero(),  // unreachable
        };
        let b_start = match self.b_value_with_amt_a_locked_quadratic(&dest_fp, true) {
            Some(t) => t,
            None => {
                return None;
            },
        };
        let source_fp = match DFSPreciseNumber::new(source_amount) {
            Some(t) => t,
            None => DFSPreciseNumber::zero(),  // unreachable
        };
        // the position after the swap can be negative when the trader
        // offers more bonded tokens than the curve can absorb
        let (b_end_abs, b_end_is_negative) = b_start.unsigned_sub(&source_fp);
        // round the position up to a whole token: using the fractional
        // value directly lets repeated small swaps extract value for free
        let b_end = match b_end_abs.ceiling() {
            Some(t) => t,
            None => {
                return None;
            },
        };
        if b_end_is_negative {
            let b_start_int = match b_start.to_imprecise() {
                Some(t) => t,
                None => {
                    return None;
                },
            };
            return Some((b_start_int, swap_destination_amount));
        }
        let a_end = match self.amt_a_locked_at_b_value_quadratic(&b_end) {
            Some(t) => t,
            None => {
                return None;
            },
        };
        let diff = match dest_fp.checked_sub(&a_end) {
            Some(t) => t,
            None => {
                return None;
            },
        };
        // floor, not round-to-nearest: dust must never round up for free
        let floored = match diff.floor() {
            Some(t) => t,
            None => {
                return None;
            },
        };
        let destination_amount = match floored.to_imprecise() {
            Some(t) => t,
            None => {
                return None;
            },
        };
        Some((source_amount, destination_amount))
    }

    /// Calculates the destination amount for a source amount in either
    /// direction. A result is returned only for a real trade: a zero on
    /// either side is reported as failure, never as an empty success.
    pub fn swap_without_fees(
        &self,
        source_amount: u128,
        swap_source_amount: u128,
        swap_destination_amount: u128,
        trade_direction: TradeDirection,
    ) -> (r: Option<SwapWithoutFeesResult>)
        ensures
            match spec_swap_without_fees(*self, source_amount as nat, swap_source_amount as nat,
                swap_destination_amount as nat, trade_direction) {
                Some(p) => (r matches Some(w) && w.source_amount_swapped == p.0
                    && w.destination_amount_swapped == p.1),
                None => r is None,
            },
            r matches Some(w) ==> w.source_amount_swapped > 0 && w.destination_amount_swapped
                > 0,
    {
        let swapped = match trade_direction {
            TradeDirection::AtoB => self.swap_a_to_b(source_amount, swap_source_amount,
                swap_destination_amount),
            TradeDirection::BtoA => self.swap_b_to_a(source_amount, swap_source_amount,
                swap_destination_amount),
        };
        let (source_amount_swapped, destination_amount_swapped) = match swapped {
            Some(pair) => pair,
            None => {
                return None;
            },
        };
        let source_amount_swapped = match map_zero_to_none(source_amount_swapped) {
            Some(t) => t,
            None => {
                return None;
            },
        };
        let destination_amount_swapped = match map_zero_to_none(destination_amount_swapped) {
            Some(t) => t,
            None => {
                return None;
            },
        };
        Some(SwapWithoutFeesResult { source_amount_swapped, destination_amount_swapped })
    }
}

/// The exact amount of token A locked at bonded position `b`, as the
/// numerator of a fraction over the fixed positive denominator
/// `2 * slope_denominator * initial_price_denominator`: the integral
/// `0.5*(sn/sd)*b^2 + (ipn/ipd)*b` cleared of fractions.
pub open spec fn ideal_a_locked_numerator(c: LinearPriceCurve, b: int) -> int {
    c.slope_numerator * c.initial_token_a_price_denominator * b * b + 2
        * c.initial_token_a_price_numerator * c.slope_denominator * b
}

/// For a valid curve the amount of token A locked is strictly increasing
/// in the bonded position: more bonded tokens out always means strictly
/// more collateral in, so distinct positions never collide.
pub proof fn lemma_amount_locked_strictly_increasing(c: LinearPriceCurve, b1: int, b2: int)
    requires
        curve_params_valid(c),
        0 <= b1 < b2,
    ensures
        ideal_a_locked_numerator(c, b1) < ideal_a_locked_numerator(c, b2),
{
    let k = c.slope_numerator * c.initial_token_a_price_denominator;
    assert(k >= 1) by (nonlinear_arith)
        requires
            k == c.slope_numerator * c.initial_token_a_price_denominator,
            c.slope_numerator >= 1,
            c.initial_token_a_price_denominator >= 1,
    ;
    assert(k * b1 * b1 < k * b2 * b2) by (nonlinear_arith)
        requires
            k >= 1,
            0 <= b1 < b2,
    ;
    let j = 2 * c.initial_token_a_price_numerator * c.slope_denominator;
    assert(j >= 0) by (nonlinear_arith)
        requires
            j == 2 * c.initial_token_a_price_numerator * c.slope_denominator,
            c.initial_token_a_price_numerator >= 0,
            c.slope_denominator >= 1,
    ;
    assert(j * b1 <= j * b2) by (nonlinear_arith)
        requires
            j >= 0,
            b1 < b2,
    ;
}

/// The locked-amount curve is injective: equal locked amounts mean equal
/// bonded positions, so the position can be recovered from the collateral
/// balance alone — inverting the integral is well defined.
pub proof fn lemma_amount_locked_injective(c: LinearPriceCurve, b1: int, b2: int)
    requires
        curve_params_valid(c),
        0 <= b1,
        0 <= b2,
        ideal_a_locked_numerator(c, b1) == ideal_a_locked_numerator(c, b2),
    ensures
        b1 == b2,
{
    if b1 < b2 {
        lemma_amount_locked_strictly_increasing(c, b1, b2);
    }
    if b2 < b1 {
        lemma_amount_locked_strictly_increasing(c, b2, b1);
    }
}

/// A liquidity-limited collateral-to-bonded swap consumes exactly what the
/// remaining reserve costs and pays out exactly the whole reserve: when
/// draining the pool needs at most the offered amount, the result is the
/// pair `(amount actually needed, whole reserve)`, never the full offer.
pub proof fn lemma_liquidity_limited_a_to_b(c: LinearPriceCurve, source_amount: nat,
    swap_source_amount: nat, swap_destination_amount: nat, b_start: nat, needed: nat)
    requires
        spec_b_value(c, swap_source_amount * one_r(), true) == Some(b_start),
        spec_max_a_remaining(c, swap_source_amount * one_r(), b_start, source_amount,
            swap_destination_amount) == Some((needed, swap_destination_amount)),
    ensures
        needed <= source_amount,
        spec_swap_a_to_b(c, source_amount, swap_source_amount, swap_destination_amount) == Some(
            (needed, swap_destination_amount),
        ),
{
}

/// A bonded-to-collateral swap that overshoots the origin of the curve is
/// liquidity-limited on the collateral side: it pays out the whole
/// collateral reserve and consumes only the bonded amount that covers it,
/// leaving the rest of the offer unused.
pub proof fn lemma_liquidity_limited_b_to_a(c: LinearPriceCurve, source_amount: nat,
    swap_destination_amount: nat, b_start: nat, b_start_int: nat)
    requires
        spec_b_value(c, swap_destination_amount * one_r(), true) == Some(b_start),
        b_start < source_amount * one_r(),
        spec_ceiling((source_amount * one_r() - b_start) as nat) is Some,
        spec_to_imprecise(b_start) == Some(b_start_int),
    ensures
        spec_swap_b_to_a(c, source_amount, swap_destination_amount) == Some(
            (b_start_int, swap_destination_amount),
        ),
{
}

/// Flooring to whole units and then rounding to the nearest integer is an
/// exact division by the scale.
proof fn lemma_floor_then_imprecise(x: nat)
    requires
        x <= u128::MAX * one_r(),
    ensures
        spec_to_imprecise(spec_floor(x)) == Some(x / one_r()),
{
    crate::inner_uint::lemma_p128_is_pow2();
    let q = x / one_r();
    assert((q * one_r() + half_r()) / one_r() == q) by {
        vstd::arithmetic::div_mod::lemma_fundamental_div_mod_converse((q * one_r()
            + half_r()) as int, one_r() as int, q as int, half_r() as int);
    };
    assert(q * one_r() <= x) by {
        vstd::arithmetic::div_mod::lemma_fundamental_div_mod(x as int, one_r() as int);
        vstd::arithmetic::div_mod::lemma_mod_bound(x as int, one_r() as int);
        assert(one_r() * q == q * one_r()) by (nonlinear_arith);
    };
    // the quotient fits in 128 bits, so neither guard of the conversion fires
    assert(q <= u128::MAX) by {
        vstd::arithmetic::div_mod::lemma_div_is_ordered(x as int, (u128::MAX
            * one_r()) as int, one_r() as int);
        vstd::arithmetic::div_mod::lemma_div_multiples_vanish(u128::MAX as int, one_r() as int);
        assert(one_r() * u128::MAX == u128::MAX * one_r()) by (nonlinear_arith);
    };
    assert(q * one_r() <= u128::MAX * one_r()) by (nonlinear_arith)
        requires
            q <= u128::MAX,
            one_r() > 0,
    ;
}

/// A swap in either direction never consumes more than the trader offered:
/// on the liquidity-limited path it takes exactly the cost of the reserve,
/// which the branch condition caps by the offer, and on the main path it
/// takes the offer itself — in the bonded-to-collateral case rounded down
/// from a position known to be below the offer.
pub proof fn lemma_swap_consumes_at_most_offer(c: LinearPriceCurve, source_amount: nat,
    swap_source_amount: nat, swap_destination_amount: nat, dir: TradeDirection)
    requires
        source_amount * one_r() < p256(),
        spec_swap_without_fees(c, source_amount, swap_source_amount, swap_destination_amount,
            dir) is Some,
    ensures
        spec_swap_without_fees(c, source_amount, swap_source_amount, swap_destination_amount,
            dir) matches Some(p) && p.0 <= source_amount,
{
    crate::inner_uint::lemma_p128_is_pow2();
    if dir == TradeDirection::BtoA {
        let b_start = spec_b_value(c, swap_destination_amount * one_r(), true).unwrap();
        let src = source_amount * one_r();
        if b_start < src {
            // the drained pool takes only the bonded position, which sits
            // strictly below the offer
            let bs = (b_start + half_r()) / one_r();
            assert(b_start + half_r() < one_r() * (source_amount + 1));
            vstd::arithmetic::div_mod::lemma_multiply_divide_lt((b_start + half_r()) as int,
                one_r() as int, (source_amount + 1) as int);
            assert(bs <= source_amount);
        }
    }
}

/// A bonded-to-collateral swap never pays out more than the collateral the
/// pool holds: the drained path pays exactly the reserve, and the main
/// path pays the floored difference between the reserve and a smaller
/// locked amount.
pub proof fn lemma_b_to_a_payout_within_reserve(c: LinearPriceCurve, source_amount: nat,
    swap_destination_amount: nat)
    requires
        swap_destination_amount <= u128::MAX,
        spec_swap_b_to_a(c, source_amount, swap_destination_amount) is Some,
    ensures
        spec_swap_b_to_a(c, source_amount, swap_destination_amount) matches Some(p) && p.1
            <= swap_destination_amount,
{
    crate::inner_uint::lemma_p128_is_pow2();
    let b_start = spec_b_value(c, swap_destination_amount * one_r(), true).unwrap();
    let src = source_amount * one_r();
    if b_start >= src {
        let b_end = spec_ceiling((b_start - src) as nat).unwrap();
        if spec_amt_a_locked(c, b_end) is Some {
            let a_end = spec_amt_a_locked(c, b_end).unwrap();
            if a_end <= swap_destination_amount * one_r() {
                let d = (swap_destination_amount * one_r() - a_end) as nat;
                assert(swap_destination_amount * one_r() <= u128::MAX * one_r())
                    by (nonlinear_arith)
                    requires
                        swap_destination_amount <= u128::MAX,
                        one_r() > 0,
                ;
                lemma_floor_then_imprecise(d);
                // the floored payout divides out to at most the reserve
                vstd::arithmetic::div_mod::lemma_div_is_ordered(d as int, (
                    swap_destination_amount * one_r()) as int, one_r() as int);
                vstd::arithmetic::div_mod::lemma_div_multiples_vanish(
                    swap_destination_amount as int, one_r() as int);
                assert(one_r() * swap_destination_amount == swap_destination_amount * one_r())
                    by (nonlinear_arith);
            }
        }
    }
}

impl LinearPriceCurve {
    /// The pool's total value denominated in bonded tokens: the bonded
    /// position covered by the collateral reserve plus the bonded reserve,
    /// truncated to the 32 significant bits the square root can support.
    pub fn normalized_value(&self, swap_token_a_amount: u128, swap_token_b_amount: u128) -> (r:
        Option<DFSPreciseNumber>)
        ensures
            match spec_normalized_value(*self, swap_token_a_amount as nat,
                swap_token_b_amount as nat) {
                Some(v) => (r matches Some(p) && p@ == v),
                None => r is None,
            },
    {
        let a_fp = match DFSPreciseNumber::new(swap_token_a_amount) {
            Some(t) => t,
            None => DFSPreciseNumber::zero(),  // unreachable
        };
        let b_value_of_a = match self.b_value_with_amt_a_locked_quadratic(&a_fp, false) {
            Some(t) => t,
            None => {
                return None;
            },
        };
        let b_fp = match DFSPreciseNumber::new(swap_token_b_amount) {
            Some(t) => t,
            None => DFSPreciseNumber::zero(),  // unreachable
        };
        let total_value = match b_value_of_a.checked_add(&b_fp) {
            Some(t) => t,
            None => {
                return None;
            },
        };
        let value_bits = total_value.value.bits();
        proof {
            crate::inner_uint::lemma_view_bound(total_value.value);
            crate::inner_uint::lemma_bit_len_bounds(total_value@);
            if bit_len(total_value@) > 256 {
                crate::inner_uint::lemma_p128_is_pow2();
                if 256 < bit_len(total_value@) - 1 {
                    vstd::arithmetic::power2::lemma_pow2_strictly_increases(256, (bit_len(
                        total_value@,
                    ) - 1) as nat);
                }
                assert(false);
            }
        }
        let truncated_value = if value_bits > 32 {
            total_value.value.shr(value_bits - 32)
        } else {
            total_value.value
        };
        Some(DFSPreciseNumber { value: truncated_value })
    }
}

/// The pool's total bonded-token value, truncated to 32 significant bits.
pub open spec fn spec_normalized_value(c: LinearPriceCurve, a: nat, b: nat) -> Option<nat> {
    match spec_b_value(c, a * one_r(), false) {
        Some(bva) => match spec_add(bva, b * one_r()) {
            Some(total) => {
                let bits = bit_len(total);
                if bits > 32 {
                    Some(total / pow2((bits - 32) as nat))
                } else {
                    Some(total)
                }
            },
            None => None,
        },
        None => None,
    }
}

/// The size of the serialized curve record: four 64-bit fields.
pub const CURVE_RECORD_LEN: usize = 32;

/// The value of eight bytes read as a little-endian 64-bit integer.
pub open spec fn u64_from_le(s: Seq<u8>, off: int) -> nat
    recommends
        0 <= off,
        off + 8 <= s.len(),
{
    (s[off] + s[off + 1] * 0x100 + s[off + 2] * 0x10000 + s[off + 3] * 0x1000000 + s[off + 4]
        * 0x100000000 + s[off + 5] * 0x10000000000 + s[off + 6] * 0x1000000000000 + s[off + 7]
        * 0x100000000000000) as nat
}

/// Reads a little-endian 64-bit integer from a byte slice.
fn read_u64_le(input: &[u8], offset: usize) -> (r: u64)
    requires
        offset + 8 <= input@.len(),
    ensures
        r == u64_from_le(input@, offset as int),
{
    (input[offset] as u64) + (input[offset + 1] as u64) * 0x100 + (input[offset + 2] as u64)
        * 0x10000 + (input[offset + 3] as u64) * 0x1000000 + (input[offset + 4] as u64)
        * 0x100000000 + (input[offset + 5] as u64) * 0x10000000000 + (input[offset + 6] as u64)
        * 0x1000000000000 + (input[offset + 7] as u64) * 0x100000000000000
}

/// A 64-bit value equals its base-256 digits recombined.
proof fn lemma_u64_le_decomp(v: nat)
    requires
        v < 0x1_0000_0000_0000_0000,
    ensures
        v == (v % 0x100) + ((v / 0x100) % 0x100) * 0x100 + ((v / 0x10000) % 0x100) * 0x10000 + ((v
            / 0x1000000) % 0x100) * 0x1000000 + ((v / 0x100000000) % 0x100) * 0x100000000 + ((v
            / 0x10000000000) % 0x100) * 0x10000000000 + ((v / 0x1000000000000) % 0x100)
            * 0x1000000000000 + ((v / 0x100000000000000) % 0x100) * 0x100000000000000,
{
    let x0 = v as int;
    let x1 = x0 / 0x100;
    let x2 = x1 / 0x100;
    let x3 = x2 / 0x100;
    let x4 = x3 / 0x100;
    let x5 = x4 / 0x100;
    let x6 = x5 / 0x100;
    let x7 = x6 / 0x100;
    vstd::arithmetic::div_mod::lemma_fundamental_div_mod(x0, 0x100);
    vstd::arithmetic::div_mod::lemma_fundamental_div_mod(x1, 0x100);
    vstd::arithmetic::div_mod::lemma_fundamental_div_mod(x2, 0x100);
    vstd::arithmetic::div_mod::lemma_fundamental_div_mod(x3, 0x100);
    vstd::arithmetic::div_mod::lemma_fundamental_div_mod(x4, 0x100);
    vstd::arithmetic::div_mod::lemma_fundamental_div_mod(x5, 0x100);
    vstd::arithmetic::div_mod::lemma_fundamental_div_mod(x6, 0x100);
    vstd::arithmetic::div_mod::lemma_fundamental_div_mod(x7, 0x100);
    vstd::arithmetic::div_mod::lemma_div_denominator(x0, 0x100, 0x100);
    vstd::arithmetic::div_mod::lemma_div_denominator(x0, 0x10000, 0x100);
    vstd::arithmetic::div_mod::lemma_div_denominator(x0, 0x1000000, 0x100);
    vstd::arithmetic::div_mod::lemma_div_denominator(x0, 0x100000000, 0x100);
    vstd::arithmetic::div_mod::lemma_div_denominator(x0, 0x10000000000, 0x100);
    vstd::arithmetic::div_mod::lemma_div_denominator(x0, 0x1000000000000, 0x100);
    assert(x7 < 0x100);
    vstd::arithmetic::div_mod::lemma_small_mod(x7 as nat, 0x100);
}

/// Writes a 64-bit integer into eight bytes, little-endian, leaving the
/// rest of the buffer unchanged.
fn write_u64_le(output: &mut Vec<u8>, offset: usize, v: u64)
    requires
        offset + 8 <= old(output)@.len(),
    ensures
        final(output)@.len() == old(output)@.len(),
        u64_from_le(final(output)@, offset as int) == v,
        forall|i: int|
            0 <= i < final(output)@.len() && !(offset <= i < offset + 8) ==> final(output)@[i]
                == old(output)@[i],
{
    let n = output.len();
    proof {
        lemma_u64_le_decomp(v as nat);
    }
    output.set(offset, (v % 0x100) as u8);
    output.set(offset + 1, ((v / 0x100) % 0x100) as u8);
    output.set(offset + 2, ((v / 0x10000) % 0x100) as u8);
    output.set(offset + 3, ((v / 0x1000000) % 0x100) as u8);
    output.set(offset + 4, ((v / 0x100000000) % 0x100) as u8);
    output.set(offset + 5, ((v / 0x10000000000) % 0x100) as u8);
    output.set(offset + 6, ((v / 0x1000000000000) % 0x100) as u8);
    output.set(offset + 7, ((v / 0x100000000000000) % 0x100) as u8);
}

impl LinearPriceCurve {
    /// Serializes the four curve parameters as little-endian 64-bit fields
    /// into the first 32 bytes of the buffer.
    pub fn pack_into_slice(&self, output: &mut Vec<u8>)
        requires
            old(output)@.len() >= 32,
        ensures
            final(output)@.len() == old(output)@.len(),
            u64_from_le(final(output)@, 0) == self.slope_numerator,
            u64_from_le(final(output)@, 8) == self.slope_denominator,
            u64_from_le(final(output)@, 16) == self.initial_token_a_price_numerator,
            u64_from_le(final(output)@, 24) == self.initial_token_a_price_denominator,
            forall|i: int| 32 <= i < final(output)@.len() ==> final(output)@[i] == old(output)@[i],
    {
        write_u64_le(output, 0, self.slope_numerator);
        write_u64_le(output, 8, self.slope_denominator);
        write_u64_le(output, 16, self.initial_token_a_price_numerator);
        write_u64_le(output, 24, self.initial_token_a_price_denominator);
    }

    /// Deserializes the four curve parameters from the first 32 bytes.
    pub fn unpack_from_slice(input: &[u8]) -> (r: Result<LinearPriceCurve, SwapError>)
        requires
            input@.len() >= 32,
        ensures
            r matches Ok(c) && c.slope_numerator == u64_from_le(input@, 0)
                && c.slope_denominator == u64_from_le(input@, 8)
                && c.initial_token_a_price_numerator == u64_from_le(input@, 16)
                && c.initial_token_a_price_denominator == u64_from_le(input@, 24),
    {
        Ok(LinearPriceCurve {
            slope_numerator: read_u64_le(input, 0),
            slope_denominator: read_u64_le(input, 8),
            initial_token_a_price_numerator: read_u64_le(input, 16),
            initial_token_a_price_denominator: read_u64_le(input, 24),
        })
    }

    /// Deserializes a full record, rejecting any other length.
    pub fn unpack(input: &[u8]) -> (r: Result<LinearPriceCurve, SwapError>)
        ensures
            input@.len() == 32 ==> (r matches Ok(c) && c.slope_numerator == u64_from_le(input@, 0)
                && c.slope_denominator == u64_from_le(input@, 8)
                && c.initial_token_a_price_numerator == u64_from_le(input@, 16)
                && c.initial_token_a_price_denominator == u64_from_le(input@, 24)),
            input@.len() != 32 ==> r == Result::<LinearPriceCurve, SwapError>::Err(
                SwapError::InvalidInput,
            ),
    {
        if input.len() != 32 {
            return Err(SwapError::InvalidInput);
        }
        Self::unpack_from_slice(input)
    }
}

} // verus!
