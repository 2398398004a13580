//! A fixed-point decimal over the 256-bit integer: a value is `raw / 10^18`.
//! Arithmetic rounds to nearest and reports overflow instead of wrapping;
//! the square root narrows to 64 bits with explicit pre- and post-scaling.

use vstd::prelude::*;
use crate::inner_uint::InnerUint;
use crate::inner_uint::p256;

verus! {

use crate::inner_uint::bit_len;
use crate::inner_uint::lemma_view_bound;
use vstd::arithmetic::power2::pow2;

/// The number one in raw units: 10^18, the fixed-point scale.
pub const ONE: u128 = 1_000_000_000_000_000_000;

/// 10^9, the square root of the scale, used to rescale narrowed roots.
pub const SQRT_ONE: u128 = 1_000_000_000;

/// The scale as a spec value.
pub open spec fn one_r() -> nat {
    1_000_000_000_000_000_000nat
}

/// Half the scale: the correction added before a truncating division so the
/// overall rounding is to nearest.
pub open spec fn half_r() -> nat {
    500_000_000_000_000_000nat
}

/// A non-negative fixed-point number; `value` holds the scaled integer.
#[derive(Clone, Copy, Debug, PartialEq, Eq, Structural)]
pub struct DFSPreciseNumber {
    pub value: InnerUint,
}

impl View for DFSPreciseNumber {
    type V = nat;

    open spec fn view(&self) -> nat {
        self.value@
    }
}

/// The raw values of an optional fixed-point number.
pub open spec fn opt_raw(r: Option<DFSPreciseNumber>) -> Option<nat> {
    match r {
        Some(p) => Some(p@),
        None => None,
    }
}

/// Raw result of addition: exact, overflow reported.
pub open spec fn spec_add(a: nat, b: nat) -> Option<nat> {
    if a + b < p256() {
        Some((a + b) as nat)
    } else {
        None
    }
}

/// Raw result of subtraction: exact, underflow reported.
pub open spec fn spec_sub(a: nat, b: nat) -> Option<nat> {
    if a >= b {
        Some((a - b) as nat)
    } else {
        None
    }
}

/// Raw result of multiplication. When the raw product fits in 256 bits the
/// result is `a * b / ONE` rounded to nearest; otherwise the larger operand
/// is truncated to a whole number first, which loses its fraction.
pub open spec fn spec_mul(a: nat, b: nat) -> Option<nat> {
    if a * b < p256() {
        if a * b + half_r() < p256() {
            Some((a * b + half_r()) / one_r())
        } else {
            None
        }
    } else if a >= b {
        if (a / one_r()) * b < p256() {
            Some((a / one_r()) * b)
        } else {
            None
        }
    } else {
        if (b / one_r()) * a < p256() {
            Some((b / one_r()) * a)
        } else {
            None
        }
    }
}

/// Raw result of division. When `a * ONE` fits in 256 bits the result is
/// `a * ONE / b` rounded to nearest (in raw units, `(a*ONE + ONE/2) / b`);
/// otherwise the quotient is computed on whole units and rescaled.
pub open spec fn spec_div(a: nat, b: nat) -> Option<nat> {
    if b == 0 {
        None
    } else if a * one_r() < p256() {
        if a * one_r() + half_r() < p256() {
            Some((a * one_r() + half_r()) / b)
        } else {
            None
        }
    } else {
        if a + half_r() >= p256() {
            None
        } else if ((a + half_r()) / b) * one_r() < p256() {
            Some((((a + half_r()) / b) * one_r()) as nat)
        } else {
            None
        }
    }
}

/// Conversion back to an integer: round to nearest, reporting values that
/// do not fit in 128 bits.
pub open spec fn spec_to_imprecise(a: nat) -> Option<nat> {
    if a + half_r() >= p256() {
        None
    } else if (a + half_r()) / one_r() > u128::MAX {
        None
    } else {
        Some((a + half_r()) / one_r())
    }
}

/// Rounding down to a whole number of units, in raw form.
pub open spec fn spec_floor(a: nat) -> nat {
    (a / one_r()) * one_r()
}

/// Rounding up to a whole number of units, in raw form; overflow reported.
pub open spec fn spec_ceiling(a: nat) -> Option<nat> {
    if a + (one_r() - 1) >= p256() {
        None
    } else {
        Some((((a + (one_r() - 1)) / (one_r() as int)) * one_r()) as nat)
    }
}

impl DFSPreciseNumber {
    /// The rounding correction `ONE / 2` used before truncating divisions.
    fn rounding_correction() -> (r: InnerUint)
        ensures
            r@ == half_r(),
    {
        InnerUint::from_u128(ONE / 2)
    }

    /// The value zero.
    pub fn zero() -> (r: Self)
        ensures
            r@ == 0,
    {
        DFSPreciseNumber { value: InnerUint::zero() }
    }

    /// Whether the value is zero.
    pub fn is_zero(&self) -> (r: bool)
        ensures
            r == (self@ == 0),
    {
        proof {
            if self.value.lo == 0 && self.value.hi == 0 {
                assert(self@ == 0);
            } else {
                crate::inner_uint::lemma_nonzero_view(self.value);
            }
        }
        self.value.lo == 0 && self.value.hi == 0
    }

    /// Builds the fixed-point image of an integer: raw value `v * ONE`.
    /// This always succeeds for a 128-bit input.
    pub fn new(v: u128) -> (r: Option<Self>)
        ensures
            r matches Some(p) && p@ == v * one_r(),
    {
        proof {
            assert((v as nat) * one_r() < p256()) by (nonlinear_arith)
                requires
                    v <= u128::MAX,
                    (u128::MAX as nat) * one_r() < p256(),
            ;
        }
        let value = match InnerUint::from_u128(v).checked_mul(&InnerUint::from_u128(ONE)) {
            Some(w) => w,
            None => InnerUint::zero(),  // unreachable
        };
        Some(DFSPreciseNumber { value })
    }

    /// Rounds to the nearest integer, reporting values over 128 bits.
    pub fn to_imprecise(&self) -> (r: Option<u128>)
        ensures
            match spec_to_imprecise(self@) {
                Some(v) => r == Some((v as u128)),
                None => r is None,
            },
    {
        let corrected = match self.value.checked_add(&Self::rounding_correction()) {
            Some(c) => c,
            None => {
                return None;
            },
        };
        let q = match corrected.checked_div(&InnerUint::from_u128(ONE)) {
            Some(q) => q,
            None => InnerUint::zero(),  // unreachable: ONE is not zero
        };
        q.to_u128_checked()
    }

    /// Whether two values differ by less than `precision` raw units.
    pub fn almost_eq(&self, rhs: &Self, precision: InnerUint) -> (r: bool)
        ensures
            r == (if self@ >= rhs@ {
                self@ - rhs@ < precision@
            } else {
                rhs@ - self@ < precision@
            }),
    {
        let (difference, _) = self.unsigned_sub(rhs);
        difference.value.lt(&precision)
    }

    /// Strict order on the underlying values.
    pub fn less_than(&self, rhs: &Self) -> (r: bool)
        ensures
            r == (self@ < rhs@),
    {
        self.value.lt(&rhs.value)
    }

    /// Strict order on the underlying values.
    pub fn greater_than(&self, rhs: &Self) -> (r: bool)
        ensures
            r == (self@ > rhs@),
    {
        rhs.value.lt(&self.value)
    }

    /// Order on the underlying values.
    pub fn less_than_or_equal(&self, rhs: &Self) -> (r: bool)
        ensures
            r == (self@ <= rhs@),
    {
        self.value.le(&rhs.value)
    }

    /// Order on the underlying values.
    pub fn greater_than_or_equal(&self, rhs: &Self) -> (r: bool)
        ensures
            r == (self@ >= rhs@),
    {
        rhs.value.le(&self.value)
    }

    /// Rounds down to a whole number of units; never fails.
    pub fn floor(&self) -> (r: Option<Self>)
        ensures
            r matches Some(p) && p@ == spec_floor(self@),
    {
        let q = match self.value.checked_div(&InnerUint::from_u128(ONE)) {
            Some(q) => q,
            None => InnerUint::zero(),  // unreachable: ONE is not zero
        };
        proof {
            lemma_quot_times_divisor_le(self@, one_r());
            lemma_view_bound(self.value);
        }
        let value = match q.checked_mul(&InnerUint::from_u128(ONE)) {
            Some(w) => w,
            None => InnerUint::zero(),  // unreachable
        };
        Some(DFSPreciseNumber { value })
    }

    /// Rounds up to a whole number of units; fails only on overflow.
    pub fn ceiling(&self) -> (r: Option<Self>)
        ensures
            match spec_ceiling(self@) {
                Some(v) => (r matches Some(p) && p@ == v),
                None => r is None,
            },
    {
        let bumped = match self.value.checked_add(&InnerUint::from_u128(ONE - 1)) {
            Some(c) => c,
            None => {
                return None;
            },
        };
        let q = match bumped.checked_div(&InnerUint::from_u128(ONE)) {
            Some(q) => q,
            None => InnerUint::zero(),  // unreachable: ONE is not zero
        };
        proof {
            lemma_quot_times_divisor_le(bumped@, one_r());
            lemma_view_bound(bumped);
        }
        let value = match q.checked_mul(&InnerUint::from_u128(ONE)) {
            Some(w) => w,
            None => InnerUint::zero(),  // unreachable
        };
        Some(DFSPreciseNumber { value })
    }

    /// Division rounded to nearest; fails on a zero divisor or overflow.
    pub fn checked_div(&self, rhs: &Self) -> (r: Option<Self>)
        ensures
            match spec_div(self@, rhs@) {
                Some(v) => (r matches Some(p) && p@ == v),
                None => r is None,
            },
    {
        if rhs.is_zero() {
            return None;
        }
        match self.value.checked_mul(&InnerUint::from_u128(ONE)) {
            Some(v) => {
                let c = match v.checked_add(&Self::rounding_correction()) {
                    Some(c) => c,
                    None => {
                        return None;
                    },
                };
                let value = match c.checked_div(&rhs.value) {
                    Some(q) => q,
                    None => InnerUint::zero(),  // unreachable: rhs is not zero
                };
                Some(DFSPreciseNumber { value })
            },
            None => {
                let c = match self.value.checked_add(&Self::rounding_correction()) {
                    Some(c) => c,
                    None => {
                        return None;
                    },
                };
                let q = match c.checked_div(&rhs.value) {
                    Some(q) => q,
                    None => InnerUint::zero(),  // unreachable: rhs is not zero
                };
                let value = match q.checked_mul(&InnerUint::from_u128(ONE)) {
                    Some(w) => w,
                    None => {
                        return None;
                    },
                };
                Some(DFSPreciseNumber { value })
            },
        }
    }

    /// Multiplication rounded to nearest while the raw product fits; once it
    /// would overflow, the larger operand is truncated to whole units first.
    pub fn checked_mul(&self, rhs: &Self) -> (r: Option<Self>)
        ensures
            match spec_mul(self@, rhs@) {
                Some(v) => (r matches Some(p) && p@ == v),
                None => r is None,
            },
    {
        match self.value.checked_mul(&rhs.value) {
            Some(v) => {
                let c = match v.checked_add(&Self::rounding_correction()) {
                    Some(c) => c,
                    None => {
                        return None;
                    },
                };
                let value = match c.checked_div(&InnerUint::from_u128(ONE)) {
                    Some(q) => q,
                    None => InnerUint::zero(),  // unreachable: ONE is not zero
                };
                Some(DFSPreciseNumber { value })
            },
            None => {
                let value = if rhs.value.le(&self.value) {
                    let q = match self.value.checked_div(&InnerUint::from_u128(ONE)) {
                        Some(q) => q,
                        None => InnerUint::zero(),  // unreachable: ONE is not zero
                    };
                    match q.checked_mul(&rhs.value) {
                        Some(w) => w,
                        None => {
                            return None;
                        },
                    }
                } else {
                    let q = match rhs.value.checked_div(&InnerUint::from_u128(ONE)) {
                        Some(q) => q,
                        None => InnerUint::zero(),  // unreachable: ONE is not zero
                    };
                    match q.checked_mul(&self.value) {
                        Some(w) => w,
                        None => {
                            return None;
                        },
                    }
                };
                Some(DFSPreciseNumber { value })
            },
        }
    }

    /// Exact addition; fails on overflow.
    pub fn checked_add(&self, rhs: &Self) -> (r: Option<Self>)
        ensures
            match spec_add(self@, rhs@) {
                Some(v) => (r matches Some(p) && p@ == v),
                None => r is None,
            },
    {
        match self.value.checked_add(&rhs.value) {
            Some(value) => Some(DFSPreciseNumber { value }),
            None => None,
        }
    }

    /// Exact subtraction; fails when the result would be negative.
    pub fn checked_sub(&self, rhs: &Self) -> (r: Option<Self>)
        ensures
            match spec_sub(self@, rhs@) {
                Some(v) => (r matches Some(p) && p@ == v),
                None => r is None,
            },
    {
        match self.value.checked_sub(&rhs.value) {
            Some(value) => Some(DFSPreciseNumber { value }),
            None => None,
        }
    }

    /// Absolute difference together with the sign of `self - rhs`:
    /// the flag is true exactly when `rhs` is larger.
    pub fn unsigned_sub(&self, rhs: &Self) -> (r: (Self, bool))
        ensures
            r.1 == (self@ < rhs@),
            r.1 ==> r.0@ == rhs@ - self@,
            !r.1 ==> r.0@ == self@ - rhs@,
    {
        match self.value.checked_sub(&rhs.value) {
            None => {
                let value = match rhs.value.checked_sub(&self.value) {
                    Some(v) => v,
                    None => InnerUint::zero(),  // unreachable
                };
                (DFSPreciseNumber { value }, true)
            },
            Some(value) => (DFSPreciseNumber { value }, false),
        }
    }
}

/// The integer square root: the largest `r` with `r * r <= x`.
pub open spec fn isqrt(x: nat) -> nat
    decreases x,
{
    if x == 0 {
        0
    } else {
        let r = isqrt((x - 1) as nat);
        if (r + 1) * (r + 1) <= x {
            r + 1
        } else {
            r
        }
    }
}

/// A Babylonian square root result: the integer root, plus one when the
/// caller asked to round up and the input was not a perfect square.
pub open spec fn spec_sqrt_bab(x: nat, up: bool) -> nat {
    let s = isqrt(x);
    if up && s * s < x {
        s + 1
    } else {
        s
    }
}

/// `isqrt` squares to at most its argument, and one more squares past it.
pub proof fn lemma_isqrt_bounds(x: nat)
    ensures
        isqrt(x) * isqrt(x) <= x,
        x < (isqrt(x) + 1) * (isqrt(x) + 1),
    decreases x,
{
    if x > 0 {
        lemma_isqrt_bounds((x - 1) as nat);
        let r = isqrt((x - 1) as nat);
        assert(isqrt(x) == (if (r + 1) * (r + 1) <= x {
            r + 1
        } else {
            r
        }));
        let q = isqrt(x);
        if (r + 1) * (r + 1) <= x {
            assert(x < ((r + 1) + 1) * ((r + 1) + 1)) by (nonlinear_arith)
                requires
                    x - 1 < (r + 1) * (r + 1),
            ;
            assert(q * q <= x && x < (q + 1) * (q + 1)) by (nonlinear_arith)
                requires
                    q == r + 1,
                    (r + 1) * (r + 1) <= x,
                    x < ((r + 1) + 1) * ((r + 1) + 1),
            ;
        } else {
            assert(r * r <= x - 1);
            assert(q * q <= x && x < (q + 1) * (q + 1)) by (nonlinear_arith)
                requires
                    q == r,
                    r * r <= x,
                    !((r + 1) * (r + 1) <= x),
            ;
        }
    } else {
        assert(isqrt(0nat) == 0);
        assert(isqrt(x) == 0);
        assert((isqrt(x) + 1) * (isqrt(x) + 1) == 1) by (nonlinear_arith)
            requires
                isqrt(x) == 0,
        ;
    }
    assert(isqrt(x) * isqrt(x) <= x);
    assert(x < (isqrt(x) + 1) * (isqrt(x) + 1));
}

/// The two-sided bracket pins the integer square root down.
pub proof fn lemma_isqrt_unique(x: nat, y: nat)
    requires
        y * y <= x,
        x < (y + 1) * (y + 1),
    ensures
        y == isqrt(x),
{
    lemma_isqrt_bounds(x);
    let s = isqrt(x);
    if y < s {
        assert((y + 1) * (y + 1) <= s * s) by (nonlinear_arith)
            requires
                y + 1 <= s,
        ;
        assert(false);
    }
    if y > s {
        assert((s + 1) * (s + 1) <= y * y) by (nonlinear_arith)
            requires
                s + 1 <= y,
        ;
        assert(false);
    }
}

/// A quotient is at least `b` whenever the dividend is at least `b * c`.
proof fn lemma_div_ge(a: nat, b: nat, c: nat)
    requires
        c > 0,
        a >= b * c,
    ensures
        a / c >= b,
{
    vstd::arithmetic::div_mod::lemma_fundamental_div_mod(a as int, c as int);
    vstd::arithmetic::div_mod::lemma_mod_bound(a as int, c as int);
    if a / c < b {
        assert(c * (a / c) + (c - 1) < b * c) by (nonlinear_arith)
            requires
                a / c <= b - 1,
                c > 0,
        ;
        assert(false);
    }
}

/// One Newton step from any positive point stays at or above the root.
pub proof fn lemma_newton_ge_sqrt(x: nat, z: nat)
    requires
        z >= 1,
    ensures
        (z + x / z) / 2 >= isqrt(x),
{
    lemma_isqrt_bounds(x);
    let s = isqrt(x);
    if z >= 2 * s {
        vstd::arithmetic::div_mod::lemma_div_is_ordered((2 * s) as int, (z + x / z) as int, 2);
        vstd::arithmetic::div_mod::lemma_div_multiples_vanish(s as int, 2);
        vstd::arithmetic::div_mod::lemma_div_pos_is_pos((x / z) as int, 2);
        vstd::arithmetic::div_mod::lemma_div_nonincreasing(x as int, z as int);
    } else {
        assert(s * s >= (2 * s - z) * z) by (nonlinear_arith)
            requires
                z < 2 * s,
                z >= 1,
        ;
        assert(x >= (2 * s - z) * z);
        lemma_div_ge(x, (2 * s - z) as nat, z);
        assert(z + x / z >= 2 * s);
        vstd::arithmetic::div_mod::lemma_div_is_ordered((2 * s) as int, (z + x / z) as int, 2);
        vstd::arithmetic::div_mod::lemma_div_multiples_vanish(s as int, 2);
    }
}

/// Below 2^64, the integer square root stays below 2^32.
proof fn lemma_isqrt_fits_u32(x: nat)
    requires
        x <= u64::MAX,
    ensures
        isqrt(x) < 0x1_0000_0000,
{
    lemma_isqrt_bounds(x);
    let s = isqrt(x);
    if s >= 0x1_0000_0000 {
        assert(s * s >= 0x1_0000_0000_0000_0000) by (nonlinear_arith)
            requires
                s >= 0x1_0000_0000,
        ;
        assert(false);
    }
}

/// A square root stays at or below its argument's half-plus-one.
pub proof fn lemma_isqrt_below_half(x: nat)
    ensures
        isqrt(x) <= (x + 1) / 2,
{
    lemma_isqrt_bounds(x);
    let s = isqrt(x);
    if s >= 2 {
        assert(2 * s <= s * s) by (nonlinear_arith)
            requires
                s >= 2,
        ;
        assert(2 * s <= x);
        assert(s <= (x + 1) / 2) by {
            lemma_div_ge((x + 1) as nat, s, 2);
        };
    } else {
        if s == 1 {
            assert(x >= 1);
            assert((x + 1) / 2 >= 1) by {
                lemma_div_ge((x + 1) as nat, 1, 2);
            };
        }
    }
}

impl DFSPreciseNumber {
    /// Integer square root of a 64-bit value by the Babylonian iteration,
    /// which converges to the exact rounded-down root; a final check adds
    /// one when rounding up was requested and the input was not a square.
    /// This never fails: the intermediate sums stay within 64 bits.
    fn sqrt_babylonian(x: u64, should_round_up: bool) -> (r: Option<u64>)
        ensures
            r matches Some(v) && v == spec_sqrt_bab(x as nat, should_round_up),
    {
        proof {
            lemma_isqrt_bounds(x as nat);
            lemma_isqrt_fits_u32(x as nat);
            lemma_isqrt_below_half(x as nat);
        }
        let ghost s = isqrt(x as nat);
        let mut z: u64 = if x == u64::MAX {
            x / 2
        } else {
            (x + 1) / 2
        };
        let mut y: u64 = x;
        proof {
            if x == u64::MAX {
                assert(s <= (x + 1) / 2);
                assert(x % 2 == 1);
                assert((x + 1) / 2 <= x / 2 + 1) by {
                    vstd::arithmetic::div_mod::lemma_fundamental_div_mod((x + 1) as int, 2);
                    vstd::arithmetic::div_mod::lemma_fundamental_div_mod(x as int, 2);
                };
                assert(s < 0x1_0000_0000);
            }
            assert(s <= x) by {
                if s >= 1 {
                    assert(s <= s * s) by (nonlinear_arith)
                        requires
                            s >= 1,
                    ;
                }
            };
            // the first iterate already sits below the input for inputs over one
            if x >= 2 {
                vstd::arithmetic::div_mod::lemma_multiply_divide_lt((x + 1) as int, 2, x as int);
                vstd::arithmetic::div_mod::lemma_multiply_divide_lt(x as int, 2, x as int);
            } else {
                assert(x * x <= x) by (nonlinear_arith)
                    requires
                        x <= 1,
                ;
            }
        }
        while z < y
            invariant
                s == isqrt(x as nat),
                s * s <= x,
                x < (s + 1) * (s + 1),
                s < 0x1_0000_0000,
                z >= s,
                y >= s,
                y <= x,
                z <= (x as int + 1) / 2 + 1,
                z >= y ==> y * y <= x,
            decreases y,
        {
            proof {
                // inside the loop the value is at least 2, so `z` is positive
                if x <= 1 {
                    if x == 1 {
                        assert(s == 1) by {
                            lemma_isqrt_unique(1, 1);
                        };
                    } else {
                        assert(s == 0) by {
                            lemma_isqrt_unique(0, 0);
                        };
                        assert(y == 0);
                    }
                    assert(false);
                }
                assert(s >= 1) by {
                    if s == 0 {
                        assert((s + 1) * (s + 1) == 1) by (nonlinear_arith)
                            requires
                                s == 0,
                        ;
                        assert(x < 1);
                    }
                };
            }
            y = z;
            proof {
                // the quotient is small: x / y <= x / s <= s + 2
                assert(x as nat <= s * s + 2 * s) by (nonlinear_arith)
                    requires
                        x < (s + 1) * (s + 1),
                ;
                vstd::arithmetic::div_mod::lemma_div_is_ordered_by_denominator(x as int,
                    s as int, y as int);
                assert((s * s + 2 * s) / s == s + 2) by {
                    vstd::arithmetic::div_mod::lemma_div_multiples_vanish((s + 2) as int,
                        s as int);
                    assert(s * (s + 2) == s * s + 2 * s) by (nonlinear_arith);
                };
                vstd::arithmetic::div_mod::lemma_div_is_ordered(x as int, (s * s + 2 * s) as int,
                    s as int);
                assert(x / y <= s + 2);
            }
            let q = x / y;
            let w = q + y;
            z = w / 2;
            proof {
                lemma_newton_ge_sqrt(x as nat, y as nat);
                // the new iterate keeps the coarse upper bound
                if y >= s + 2 {
                    assert(x as nat <= (s + 2) * y) by (nonlinear_arith)
                        requires
                            x as nat <= s * s + 2 * s,
                            y >= s + 2,
                            s >= 0,
                    ;
                    vstd::arithmetic::div_mod::lemma_multiply_divide_le(x as int, y as int,
                        (s + 2) as int);
                    assert(q <= s + 2);
                    assert(w <= 2 * y);
                    vstd::arithmetic::div_mod::lemma_div_is_ordered(w as int, (2 * y) as int, 2);
                    vstd::arithmetic::div_mod::lemma_div_multiples_vanish(y as int, 2);
                } else {
                    assert(w <= 2 * s + 3);
                    vstd::arithmetic::div_mod::lemma_div_is_ordered(w as int, (2 * s + 3) as int,
                        2);
                    assert((2 * s + 3) / 2 == s + 1) by {
                        vstd::arithmetic::div_mod::lemma_fundamental_div_mod_converse((2 * s
                            + 3) as int, 2, (s + 1) as int, 1);
                    };
                    assert(s + 1 <= (x as int + 1) / 2 + 1) by {
                        lemma_isqrt_below_half(x as nat);
                    };
                }
                // on exit the iterate squares below the input
                if z >= y {
                    assert(w >= 2 * y) by {
                        vstd::arithmetic::div_mod::lemma_fundamental_div_mod(w as int, 2);
                        vstd::arithmetic::div_mod::lemma_mod_bound(w as int, 2);
                    };
                    assert(q >= y);
                    assert(x >= y * y) by {
                        vstd::arithmetic::div_mod::lemma_fundamental_div_mod(x as int, y as int);
                        vstd::arithmetic::div_mod::lemma_mod_bound(x as int, y as int);
                        assert(y * (x / y) >= y * y) by (nonlinear_arith)
                            requires
                                x / y >= y,
                                y > 0,
                        ;
                    };
                }
            }
        }
        proof {
            // at exit the iterate is exactly the integer root
            assert(y * y <= x);
            assert(y <= s) by {
                if y >= s + 1 {
                    assert(y * y >= (s + 1) * (s + 1)) by (nonlinear_arith)
                        requires
                            y >= s + 1,
                    ;
                }
            };
        }
        let ysq = y * y;
        let is_not_perfect_square = ysq < x;
        if should_round_up && is_not_perfect_square {
            Some(y + 1)
        } else {
            Some(y)
        }
    }
}

/// The raw value of the fixed-point image of `SQRT_ONE`: 10^27.
pub open spec fn sqrt_one_raw() -> nat {
    1_000_000_000_000_000_000_000_000_000nat
}

/// Raw square root result for values of at most 64 bits. The value is
/// padded by an even number of bits to fill 64, the narrowed root is taken,
/// and the result is rescaled by `sqrt(ONE)` and the pad's square root,
/// rounding the final division up on request.
pub open spec fn spec_sqrt_small(v: nat, up: bool) -> nat {
    let pad = (((64 - bit_len(v)) / 2) * 2) as nat;
    let cf = pow2(pad / 2) * one_r();
    let sb = spec_sqrt_bab(v * pow2(pad), up);
    let num = (sb * sqrt_one_raw() + half_r()) / one_r();
    let us = (num * one_r() + half_r()) / cf;
    let m = (us * cf + half_r()) / one_r();
    if up && m < num {
        us + 1
    } else {
        us
    }
}

/// Raw square root result for values over 64 bits: an even number of low
/// bits is cut (rounding up on request), the narrowed root is taken, and
/// the result is rescaled back up.
pub open spec fn spec_sqrt_large(v: nat, up: bool) -> nat {
    let pad = (((bit_len(v) - 64 + 1) / 2) * 2) as nat;
    let cf = pow2(pad / 2) * one_r();
    let shifted = v / pow2(pad);
    let padded = if up && shifted * pow2(pad) < v {
        shifted + 1
    } else {
        shifted
    };
    let sb = spec_sqrt_bab(padded, up);
    let num = (sb * sqrt_one_raw() + half_r()) / one_r();
    (num * cf + half_r()) / one_r()
}

/// Raw square root of a fixed-point value. The only failure is a narrowed
/// operand that lands just past 64 bits after rounding up.
pub open spec fn spec_sqrt_u64(v: nat, up: bool) -> Option<nat> {
    if bit_len(v) <= 64 {
        Some(spec_sqrt_small(v, up))
    } else {
        let pad = (((bit_len(v) - 64 + 1) / 2) * 2) as nat;
        let shifted = v / pow2(pad);
        let padded = if up && shifted * pow2(pad) < v {
            shifted + 1
        } else {
            shifted
        };
        if padded > u64::MAX {
            None
        } else {
            Some(spec_sqrt_large(v, up))
        }
    }
}

/// Flooring never grows a value, lands on a whole number of units, and
/// stays within one unit below; the ceiling never shrinks a value, lands
/// on a whole number of units, and stays within one unit above.
pub proof fn lemma_floor_ceiling_brackets(a: nat)
    ensures
        spec_floor(a) <= a < spec_floor(a) + one_r(),
        spec_floor(a) % one_r() == 0,
        spec_ceiling(a) matches Some(c) ==> a <= c < a + one_r() && c % one_r() == 0,
{
    vstd::arithmetic::div_mod::lemma_fundamental_div_mod(a as int, one_r() as int);
    vstd::arithmetic::div_mod::lemma_mod_bound(a as int, one_r() as int);
    assert(one_r() * (a / one_r()) == (a / one_r()) * one_r()) by (nonlinear_arith);
    vstd::arithmetic::div_mod::lemma_mod_multiples_basic((a / one_r()) as int, one_r() as int);
    if a + (one_r() - 1) < crate::inner_uint::p256() {
        let b = (a + one_r() - 1) as nat;
        vstd::arithmetic::div_mod::lemma_fundamental_div_mod(b as int, one_r() as int);
        vstd::arithmetic::div_mod::lemma_mod_bound(b as int, one_r() as int);
        assert(one_r() * (b / one_r()) == (b / one_r()) * one_r()) by (nonlinear_arith);
        vstd::arithmetic::div_mod::lemma_mod_multiples_basic((b / one_r()) as int,
            one_r() as int);
        assert(spec_ceiling(a) == Some(((b / one_r()) * one_r()) as nat));
    }
}

/// The narrowed Babylonian root brackets its operand: without rounding up
/// its square never exceeds the operand, and with rounding up the next
/// square always covers it.
pub proof fn lemma_sqrt_bab_brackets(x: nat)
    ensures
        spec_sqrt_bab(x, false) * spec_sqrt_bab(x, false) <= x,
        x <= spec_sqrt_bab(x, true) * spec_sqrt_bab(x, true),
{
    lemma_isqrt_bounds(x);
    let s = isqrt(x);
    if s * s < x {
        assert(x <= (s + 1) * (s + 1));
    }
}

/// An even pad splits into two equal half-shifts.
proof fn lemma_pad_halves(k: nat)
    ensures
        ({
            let pad = ((k / 2) * 2) as nat;
            pow2(pad / 2) * pow2(pad / 2) == pow2(pad) && pad / 2 == k / 2
        }),
{
    let pad = ((k / 2) * 2) as nat;
    assert(pad / 2 == k / 2) by {
        vstd::arithmetic::div_mod::lemma_div_multiples_vanish((k / 2) as int, 2);
    };
    vstd::arithmetic::power2::lemma_pow2_adds(pad / 2, pad / 2);
}

/// The rescaling by `sqrt(ONE)` is exact: the numerator is the narrowed
/// root in raw units scaled by 10^9.
proof fn lemma_num_exact(sb: nat)
    ensures
        (sb * sqrt_one_raw() + half_r()) / one_r() == sb * 1_000_000_000,
{
    assert(sb * sqrt_one_raw() == (sb * 1_000_000_000) * one_r()) by (nonlinear_arith);
    lemma_div_exact_plus(sb * 1_000_000_000, one_r(), half_r());
}

/// Multiplying by a power-of-two correction factor is exact in raw units.
proof fn lemma_mul_by_cf_exact(t: nat, c: nat)
    ensures
        (t * (c * one_r()) + half_r()) / one_r() == t * c,
{
    assert(t * (c * one_r()) == (t * c) * one_r()) by (nonlinear_arith);
    lemma_div_exact_plus(t * c, one_r(), half_r());
}

/// With rounding up, the computed fixed-point root never undershoots: its
/// square, in raw units, is at least the operand scaled back up. This is
/// the direction a caller uses when an over-estimate protects the pool.
pub proof fn lemma_sqrt_u64_round_up_covers(v: nat, r: nat)
    requires
        spec_sqrt_u64(v, true) == Some(r),
    ensures
        r * r >= v * one_r(),
{
    crate::inner_uint::lemma_p128_is_pow2();
    vstd::arithmetic::power2::lemma2_to64();
    crate::inner_uint::lemma_bit_len_bounds(v);
    if bit_len(v) <= 64 {
        let pad = (((64 - bit_len(v)) / 2) * 2) as nat;
        lemma_pad_halves((64 - bit_len(v)) as nat);
        let c = pow2(pad / 2);
        let cf = c * one_r();
        let padded = v * pow2(pad);
        let sb = spec_sqrt_bab(padded, true);
        lemma_sqrt_bab_brackets(padded);
        lemma_num_exact(sb);
        let num = sb * 1_000_000_000nat;
        let us = (num * one_r() + half_r()) / cf;
        lemma_mul_by_cf_exact(us, c);
        let m = us * c;
        vstd::arithmetic::power2::lemma_pow2_pos(pad / 2);
        vstd::arithmetic::power2::lemma_pow2_pos(pad);
        // the quotient against the correction factor loses less than one `c`
        assert(us >= num / c) by {
            vstd::arithmetic::div_mod::lemma_div_is_ordered((num * one_r()) as int, (num
                * one_r() + half_r()) as int, cf as int);
            vstd::arithmetic::div_mod::lemma_div_denominator((num * one_r()) as int,
                one_r() as int, c as int);
            assert(num * one_r() == one_r() * num) by (nonlinear_arith);
            vstd::arithmetic::div_mod::lemma_div_multiples_vanish(num as int, one_r() as int);
            assert((num * one_r()) / (one_r() * c) == num / c);
            assert(cf == one_r() * c) by (nonlinear_arith)
                requires
                    cf == c * one_r(),
            ;
        };
        assert(us * c >= (num / c) * c) by (nonlinear_arith)
            requires
                us >= num / c,
                c > 0,
        ;
        assert((num / c) * c > num - c) by {
            vstd::arithmetic::div_mod::lemma_fundamental_div_mod(num as int, c as int);
            vstd::arithmetic::div_mod::lemma_mod_bound(num as int, c as int);
            assert(c * (num / c) == (num / c) * c) by (nonlinear_arith);
        };
        // with the final correction the rescaled root covers the numerator
        let rr: nat = if m < num {
            us + 1
        } else {
            us
        };
        assert(spec_sqrt_small(v, true) == rr);
        assert(r == rr);
        assert(r * c >= num) by {
            if m < num {
                assert((us + 1) * c == us * c + c) by (nonlinear_arith);
            }
        };
        // square both sides and unwind the paddings
        assert(r * c * (r * c) >= num * num) by (nonlinear_arith)
            requires
                r * c >= num,
                num >= 0,
        ;
        assert(num * num == (sb * sb) * 1_000_000_000_000_000_000) by (nonlinear_arith)
            requires
                num == sb * 1_000_000_000,
        ;
        assert((sb * sb) * one_r() >= padded * one_r()) by (nonlinear_arith)
            requires
                sb * sb >= padded,
                one_r() > 0,
        ;
        assert(padded * one_r() == (v * one_r()) * pow2(pad)) by (nonlinear_arith)
            requires
                padded == v * pow2(pad),
        ;
        assert(r * c * (r * c) == (r * r) * (c * c)) by (nonlinear_arith);
        assert((r * r) * pow2(pad) >= (v * one_r()) * pow2(pad)) by (nonlinear_arith)
            requires
                (r * r) * (c * c) >= (v * one_r()) * pow2(pad),
                c * c == pow2(pad),
        ;
        assert(r * r >= v * one_r()) by (nonlinear_arith)
            requires
                (r * r) * pow2(pad) >= (v * one_r()) * pow2(pad),
                pow2(pad) > 0,
        ;
    } else {
        let pad = (((bit_len(v) - 64 + 1) / 2) * 2) as nat;
        lemma_pad_halves((bit_len(v) - 64 + 1) as nat);
        let c = pow2(pad / 2);
        let shifted = v / pow2(pad);
        vstd::arithmetic::power2::lemma_pow2_pos(pad);
        vstd::arithmetic::power2::lemma_pow2_pos(pad / 2);
        let padded = if shifted * pow2(pad) < v {
            shifted + 1
        } else {
            shifted
        };
        // cutting the low bits and rounding up never loses value
        assert(padded * pow2(pad) >= v) by {
            vstd::arithmetic::div_mod::lemma_fundamental_div_mod(v as int, pow2(pad) as int);
            vstd::arithmetic::div_mod::lemma_mod_bound(v as int, pow2(pad) as int);
            assert((shifted + 1) * pow2(pad) == shifted * pow2(pad) + pow2(pad))
                by (nonlinear_arith);
            assert(shifted * pow2(pad) == pow2(pad) * shifted) by (nonlinear_arith);
        };
        let sb = spec_sqrt_bab(padded, true);
        lemma_sqrt_bab_brackets(padded);
        lemma_num_exact(sb);
        let num = sb * 1_000_000_000nat;
        lemma_mul_by_cf_exact(num, c);
        assert(spec_sqrt_large(v, true) == num * c);
        assert(r == num * c);
        assert(r * r == ((sb * sb) * one_r()) * pow2(pad)) by (nonlinear_arith)
            requires
                r == num * c,
                num == sb * 1_000_000_000,
                c * c == pow2(pad),
                one_r() == 1_000_000_000 * 1_000_000_000,
        ;
        assert(((sb * sb) * one_r()) * pow2(pad) >= (padded * one_r()) * pow2(pad))
            by (nonlinear_arith)
            requires
                sb * sb >= padded,
                one_r() > 0,
                pow2(pad) > 0,
        ;
        assert((padded * one_r()) * pow2(pad) >= v * one_r()) by (nonlinear_arith)
            requires
                padded * pow2(pad) >= v,
                one_r() > 0,
        ;
    }
}

/// Without rounding up, the computed fixed-point root overshoots the exact
/// square root of the operand by less than one raw unit: its square stays
/// within `r + 1` raw units of the scaled operand. A caller that must not
/// over-estimate uses this direction.
pub proof fn lemma_sqrt_u64_round_down_close(v: nat, r: nat)
    requires
        spec_sqrt_u64(v, false) == Some(r),
    ensures
        r * r <= v * one_r() + r + 1,
{
    crate::inner_uint::lemma_p128_is_pow2();
    vstd::arithmetic::power2::lemma2_to64();
    crate::inner_uint::lemma_bit_len_bounds(v);
    if bit_len(v) <= 64 {
        let pad = (((64 - bit_len(v)) / 2) * 2) as nat;
        lemma_pad_halves((64 - bit_len(v)) as nat);
        let c = pow2(pad / 2);
        let cf = c * one_r();
        let padded = v * pow2(pad);
        let sb = spec_sqrt_bab(padded, false);
        lemma_sqrt_bab_brackets(padded);
        lemma_num_exact(sb);
        let num = sb * 1_000_000_000nat;
        let us = (num * one_r() + half_r()) / cf;
        vstd::arithmetic::power2::lemma_pow2_pos(pad / 2);
        vstd::arithmetic::power2::lemma_pow2_pos(pad);
        lemma_mul_by_cf_exact(us, c);
        assert(spec_sqrt_small(v, false) == us);
        assert(r == us);
        if c == 1 {
            // no rescaling at all: the root is exact
            assert(cf == one_r());
            lemma_div_exact_plus(num, one_r(), half_r());
            assert(r == num);
            assert(r * r == (sb * sb) * one_r()) by (nonlinear_arith)
                requires
                    r == sb * 1_000_000_000,
                    one_r() == 1_000_000_000 * 1_000_000_000,
            ;
            assert((sb * sb) * one_r() <= padded * one_r()) by (nonlinear_arith)
                requires
                    sb * sb <= padded,
                    one_r() > 0,
            ;
            assert(padded * one_r() == (v * one_r()) * pow2(pad)) by (nonlinear_arith)
                requires
                    padded == v * pow2(pad),
            ;
            assert(pow2(pad) == 1);
            assert((v * one_r()) * pow2(pad) == v * one_r()) by (nonlinear_arith)
                requires
                    pow2(pad) == 1,
            ;
            assert(r * r <= v * one_r() + r + 1);
        } else {
            // the quotient rounds to nearest: 2*c*r <= 2*num + 1
            assert(us * cf <= num * one_r() + half_r()) by {
                vstd::arithmetic::div_mod::lemma_fundamental_div_mod((num * one_r()
                    + half_r()) as int, cf as int);
                vstd::arithmetic::div_mod::lemma_mod_bound((num * one_r() + half_r()) as int,
                    cf as int);
                assert(cf * us == us * cf) by (nonlinear_arith);
            };
            assert(2 * (us * c) <= 2 * num + 1) by (nonlinear_arith)
                requires
                    us * (c * one_r()) <= num * one_r() + half_r(),
                    cf == c * one_r(),
                    2 * half_r() == one_r(),
                    one_r() > 0,
                    c > 0,
            ;
            // num stays within one `c` of the rescaled root
            assert(num <= c * r + c) by {
                assert(us >= num / c) by {
                    vstd::arithmetic::div_mod::lemma_div_is_ordered((num * one_r()) as int, (num
                        * one_r() + half_r()) as int, cf as int);
                    vstd::arithmetic::div_mod::lemma_div_denominator((num * one_r()) as int,
                        one_r() as int, c as int);
                    assert(num * one_r() == one_r() * num) by (nonlinear_arith);
                    vstd::arithmetic::div_mod::lemma_div_multiples_vanish(num as int,
                        one_r() as int);
                    assert(cf == one_r() * c) by (nonlinear_arith)
                        requires
                            cf == c * one_r(),
                    ;
                };
                vstd::arithmetic::div_mod::lemma_fundamental_div_mod(num as int, c as int);
                vstd::arithmetic::div_mod::lemma_mod_bound(num as int, c as int);
                assert(c * (num / c) <= c * us) by (nonlinear_arith)
                    requires
                        num / c <= us,
                        c > 0,
                ;
            };
            // square the rounded inequality and unwind the paddings
            assert(4 * (pow2(pad) * (r * r)) <= 4 * (num * num) + 4 * num + 1)
                by (nonlinear_arith)
                requires
                    2 * (us * c) <= 2 * num + 1,
                    r == us,
                    c * c == pow2(pad),
                    num >= 0,
            ;
            assert(num * num == (sb * sb) * one_r()) by (nonlinear_arith)
                requires
                    num == sb * 1_000_000_000,
                    one_r() == 1_000_000_000 * 1_000_000_000,
            ;
            assert((sb * sb) * one_r() <= (v * one_r()) * pow2(pad)) by (nonlinear_arith)
                requires
                    sb * sb <= padded,
                    padded == v * pow2(pad),
                    one_r() > 0,
            ;
            assert(4 * num + 1 <= 4 * (pow2(pad) * (r + 1))) by (nonlinear_arith)
                requires
                    num <= c * r + c,
                    c >= 2,
                    c * c == pow2(pad),
                    r >= 0,
            ;
            assert(4 * (pow2(pad) * (r * r)) <= 4 * (pow2(pad) * ((v * one_r()) + r + 1)))
                by (nonlinear_arith)
                requires
                    4 * (pow2(pad) * (r * r)) <= 4 * ((v * one_r()) * pow2(pad)) + 4 * num + 1,
                    4 * num + 1 <= 4 * (pow2(pad) * (r + 1)),
            ;
            assert(r * r <= v * one_r() + r + 1) by (nonlinear_arith)
                requires
                    4 * (pow2(pad) * (r * r)) <= 4 * (pow2(pad) * ((v * one_r()) + r + 1)),
                    pow2(pad) > 0,
            ;
        }
    } else {
        let pad = (((bit_len(v) - 64 + 1) / 2) * 2) as nat;
        lemma_pad_halves((bit_len(v) - 64 + 1) as nat);
        let c = pow2(pad / 2);
        let shifted = v / pow2(pad);
        vstd::arithmetic::power2::lemma_pow2_pos(pad);
        vstd::arithmetic::power2::lemma_pow2_pos(pad / 2);
        let sb = spec_sqrt_bab(shifted, false);
        lemma_sqrt_bab_brackets(shifted);
        lemma_num_exact(sb);
        let num = sb * 1_000_000_000nat;
        lemma_mul_by_cf_exact(num, c);
        assert(spec_sqrt_large(v, false) == num * c);
        assert(r == num * c);
        // cutting the low bits without rounding never gains value
        assert(shifted * pow2(pad) <= v) by {
            vstd::arithmetic::div_mod::lemma_fundamental_div_mod(v as int, pow2(pad) as int);
            vstd::arithmetic::div_mod::lemma_mod_bound(v as int, pow2(pad) as int);
            assert(pow2(pad) * shifted == shifted * pow2(pad)) by (nonlinear_arith);
        };
        assert(r * r == ((sb * sb) * one_r()) * pow2(pad)) by (nonlinear_arith)
            requires
                r == num * c,
                num == sb * 1_000_000_000,
                c * c == pow2(pad),
                one_r() == 1_000_000_000 * 1_000_000_000,
        ;
        assert(((sb * sb) * one_r()) * pow2(pad) <= (shifted * one_r()) * pow2(pad))
            by (nonlinear_arith)
            requires
                sb * sb <= shifted,
                one_r() > 0,
                pow2(pad) > 0,
        ;
        assert((shifted * one_r()) * pow2(pad) <= v * one_r()) by (nonlinear_arith)
            requires
                shifted * pow2(pad) <= v,
                one_r() > 0,
        ;
        assert(r * r <= v * one_r() + r + 1);
    }
}

/// 2^e as an executable 128-bit value.
fn pow2_u128(e: u32) -> (r: u128)
    requires
        e <= 127,
    ensures
        r == pow2(e as nat),
{
    let mut f: u128 = 1;
    let mut j: u32 = 0;
    proof {
        vstd::arithmetic::power2::lemma2_to64();
    }
    while j < e
        invariant
            j <= e,
            e <= 127,
            f == pow2(j as nat),
        decreases e - j,
    {
        proof {
            vstd::arithmetic::power2::lemma_pow2_adds(j as nat, 1);
            vstd::arithmetic::power2::lemma2_to64();
            if j as nat + 1 < 128 {
                vstd::arithmetic::power2::lemma_pow2_strictly_increases(j as nat + 1, 128);
            }
            crate::inner_uint::lemma_p128_is_pow2();
        }
        f = f * 2;
        j = j + 1;
    }
    f
}

/// A value below one power of two, padded by the gap to another, stays
/// below the larger power.
proof fn lemma_pad_fits(v: nat, bits: nat, pad: nat, target: nat)
    requires
        v < pow2(bits),
        bits + pad <= target,
    ensures
        v * pow2(pad) < pow2(target),
{
    vstd::arithmetic::power2::lemma_pow2_adds(bits, pad);
    vstd::arithmetic::power2::lemma_pow2_pos(pad);
    assert(v * pow2(pad) < pow2(bits) * pow2(pad)) by (nonlinear_arith)
        requires
            v < pow2(bits),
            pow2(pad) > 0,
    ;
    if bits + pad < target {
        vstd::arithmetic::power2::lemma_pow2_strictly_increases(bits + pad, target);
    }
}

/// The integer root of a 64-bit operand, optionally rounded up, fits well
/// inside 33 bits.
proof fn lemma_sqrt_bab_bound(x: nat, up: bool)
    requires
        x <= u64::MAX,
    ensures
        spec_sqrt_bab(x, up) <= 0x1_0000_0000,
{
    lemma_isqrt_fits_u32(x);
}

/// Dividing a sum of a multiple of the divisor and a smaller remainder
/// recovers the multiplier exactly.
proof fn lemma_div_exact_plus(q: nat, d: nat, r: nat)
    requires
        d > 0,
        r < d,
    ensures
        (q * d + r) / d == q,
{
    vstd::arithmetic::div_mod::lemma_fundamental_div_mod_converse((q * d + r) as int, d as int,
        q as int, r as int);
}

impl DFSPreciseNumber {
    /// Fixed-point square root, computed on a 64-bit narrowing of the value.
    /// A value at most 64 bits wide is padded up by an even number of bits
    /// for precision; a wider value has an even number of low bits cut off.
    /// The flag rounds the root up at each lossy step; with it false the
    /// result never exceeds the true root, with it true never undershoots.
    /// The only failure is a narrowed operand landing just past 64 bits.
    pub fn sqrt_u64(&self, should_round_up: bool) -> (r: Option<Self>)
        ensures
            match spec_sqrt_u64(self@, should_round_up) {
                Some(v) => (r matches Some(p) && p@ == v),
                None => r is None,
            },
    {
        let ghost v = self@;
        let value_bits = self.value.bits();
        let max_bits: u32 = 64;
        proof {
            crate::inner_uint::lemma_p128_is_pow2();
            vstd::arithmetic::power2::lemma2_to64();
            lemma_view_bound(self.value);
            crate::inner_uint::lemma_bit_len_bounds(v);
            // the bit length cannot pass 256
            if bit_len(v) > 256 {
                if 256 < bit_len(v) - 1 {
                    vstd::arithmetic::power2::lemma_pow2_strictly_increases(256, (bit_len(v)
                        - 1) as nat);
                }
                assert(false);
            }
        }
        if value_bits <= max_bits {
            let pad_bits = (max_bits - value_bits) / 2 * 2;
            let ghost pad = (((64 - bit_len(v)) / 2) * 2) as nat;
            proof {
                assert(pad == pad_bits);
                assert(bit_len(v) + pad <= 64);
            }
            let cfu = pow2_u128(pad_bits / 2);
            let correction_factor = match Self::new(cfu) {
                Some(c) => c,
                None => Self::zero(),  // unreachable
            };
            let ghost cf = pow2(pad / 2) * one_r();
            proof {
                assert(correction_factor@ == cf);
                lemma_pad_fits(v, bit_len(v), pad, 64);
                vstd::arithmetic::power2::lemma_pow2_strictly_increases(64, 256);
            }
            let padded_value = self.value.shl(pad_bits);
            let padded_u128 = match padded_value.to_u64_checked() {
                Some(p) => p,
                None => 0,  // unreachable: the padded value fills at most 64 bits
            };
            proof {
                assert(padded_u128 == v * pow2(pad));
            }
            let sqrt_padded_u128 = match Self::sqrt_babylonian(padded_u128, should_round_up) {
                Some(s) => s,
                None => 0,  // unreachable
            };
            let ghost sb = spec_sqrt_bab(v * pow2(pad), should_round_up);
            proof {
                assert(sqrt_padded_u128 == sb);
                lemma_sqrt_bab_bound(v * pow2(pad), should_round_up);
            }
            let sqrt_padded = DFSPreciseNumber { value: InnerUint::from_u64(sqrt_padded_u128) };
            let sqrt_one_fp = match Self::new(SQRT_ONE) {
                Some(c) => c,
                None => Self::zero(),  // unreachable
            };
            proof {
                assert(sqrt_one_fp@ == sqrt_one_raw());
                // the numerator product fits comfortably
                assert(sb * sqrt_one_raw() <= 0x1_0000_0000 * sqrt_one_raw()) by (nonlinear_arith)
                    requires
                        sb <= 0x1_0000_0000,
                ;
            }
            let unrounded_numerator = match sqrt_padded.checked_mul(&sqrt_one_fp) {
                Some(n) => n,
                None => Self::zero(),  // unreachable
            };
            let ghost num = (sb * sqrt_one_raw() + half_r()) / one_r();
            proof {
                assert(unrounded_numerator@ == num);
                lemma_num_small(sb);
                lemma_cf_facts(pad / 2, 32);
            }
            let unrounded_sqrt = match unrounded_numerator.checked_div(&correction_factor) {
                Some(u) => u,
                None => Self::zero(),  // unreachable
            };
            let ghost us = (num * one_r() + half_r()) / cf;
            proof {
                assert(num * one_r() < p256() && num * one_r() + half_r() < p256())
                    by (nonlinear_arith)
                    requires
                        num < 0x1_0000_0000_0000_0000,
                        one_r() == 1_000_000_000_000_000_000,
                        half_r() < one_r(),
                        p256() == crate::inner_uint::p128() * crate::inner_uint::p128(),
                        crate::inner_uint::p128() == 0x1_0000_0000_0000_0000_0000_0000_0000_0000,
                ;
                assert(unrounded_sqrt@ == us);
                // the unrounded root is no larger than the numerator
                lemma_us_le_num(num, cf, pad / 2);
                assert(us * cf + half_r() < p256()) by (nonlinear_arith)
                    requires
                        us <= num,
                        num < 0x1_0000_0000_0000_0000,
                        cf <= pow2(32) * one_r(),
                        pow2(32) == 0x1_0000_0000,
                        one_r() == 1_000_000_000_000_000_000,
                        half_r() < one_r(),
                        p256() == crate::inner_uint::p128() * crate::inner_uint::p128(),
                        crate::inner_uint::p128() == 0x1_0000_0000_0000_0000_0000_0000_0000_0000,
                ;
            }
            let m = match unrounded_sqrt.checked_mul(&correction_factor) {
                Some(m) => m,
                None => Self::zero(),  // unreachable
            };
            let ghost mm = (us * cf + half_r()) / one_r();
            proof {
                assert(m@ == mm);
            }
            if should_round_up && m.less_than(&unrounded_numerator) {
                let bumped = match unrounded_sqrt.checked_add(
                    &(DFSPreciseNumber { value: InnerUint::from_u64(1) }),
                ) {
                    Some(b) => b,
                    None => Self::zero(),  // unreachable
                };
                proof {
                    assert(bumped@ == us + 1);
                    assert(spec_sqrt_small(v, should_round_up) == us + 1);
                }
                Some(bumped)
            } else {
                proof {
                    assert(spec_sqrt_small(v, should_round_up) == us);
                }
                Some(unrounded_sqrt)
            }
        } else {
            let pad_bits = (value_bits - max_bits + 1) / 2 * 2;
            let ghost pad = (((bit_len(v) - 64 + 1) / 2) * 2) as nat;
            proof {
                assert(pad == pad_bits);
                assert(2 <= pad <= 192);
            }
            let cfu = pow2_u128(pad_bits / 2);
            let correction_factor = match Self::new(cfu) {
                Some(c) => c,
                None => Self::zero(),  // unreachable
            };
            let ghost cf = pow2(pad / 2) * one_r();
            proof {
                assert(correction_factor@ == cf);
            }
            let unrounded_padded_value = self.value.shr(pad_bits);
            let ghost shifted = v / pow2(pad);
            proof {
                vstd::arithmetic::power2::lemma_pow2_pos(pad);
                lemma_quot_times_divisor_le(v, pow2(pad));
                // the shifted value leaves plenty of headroom
                vstd::arithmetic::power2::lemma_pow2_adds(pad, (256 - pad) as nat);
                vstd::arithmetic::div_mod::lemma_multiply_divide_lt(v as int, pow2(pad) as int,
                    pow2((256 - pad) as nat) as int);
                if 256 - pad < 256 {
                    vstd::arithmetic::power2::lemma_pow2_strictly_increases((256 - pad) as nat,
                        256);
                }
            }
            let shifted_back = unrounded_padded_value.shl(pad_bits);
            let padded_value = if should_round_up && shifted_back.lt(&self.value) {
                match unrounded_padded_value.checked_add(&InnerUint::from_u64(1)) {
                    Some(p) => p,
                    None => InnerUint::zero(),  // unreachable
                }
            } else {
                unrounded_padded_value
            };
            let ghost padded = if should_round_up && shifted * pow2(pad) < v {
                shifted + 1
            } else {
                shifted
            };
            proof {
                assert(padded_value@ == padded);
            }
            let padded_u128 = match padded_value.to_u64_checked() {
                Some(p) => p,
                None => {
                    proof {
                        assert(spec_sqrt_u64(v, should_round_up) is None);
                    }
                    return None;
                },
            };
            let sqrt_padded_u128 = match Self::sqrt_babylonian(padded_u128, should_round_up) {
                Some(s) => s,
                None => 0,  // unreachable
            };
            let ghost sb = spec_sqrt_bab(padded, should_round_up);
            proof {
                assert(sqrt_padded_u128 == sb);
                lemma_sqrt_bab_bound(padded, should_round_up);
            }
            let sqrt_padded = DFSPreciseNumber { value: InnerUint::from_u64(sqrt_padded_u128) };
            let sqrt_one_fp = match Self::new(SQRT_ONE) {
                Some(c) => c,
                None => Self::zero(),  // unreachable
            };
            proof {
                assert(sqrt_one_fp@ == sqrt_one_raw());
                assert(sb * sqrt_one_raw() <= 0x1_0000_0000 * sqrt_one_raw()) by (nonlinear_arith)
                    requires
                        sb <= 0x1_0000_0000,
                ;
            }
            let unrounded_numerator = match sqrt_padded.checked_mul(&sqrt_one_fp) {
                Some(n) => n,
                None => Self::zero(),  // unreachable
            };
            let ghost num = (sb * sqrt_one_raw() + half_r()) / one_r();
            proof {
                assert(unrounded_numerator@ == num);
                lemma_num_small(sb);
                lemma_cf_facts(pad / 2, 96);
                assert(num * cf + half_r() < p256()) by (nonlinear_arith)
                    requires
                        num < 0x1_0000_0000_0000_0000,
                        cf <= pow2(96) * one_r(),
                        pow2(96) <= 0x1_0000_0000_0000_0000_0000_0000,
                        one_r() == 1_000_000_000_000_000_000,
                        half_r() < one_r(),
                        p256() == crate::inner_uint::p128() * crate::inner_uint::p128(),
                        crate::inner_uint::p128() == 0x1_0000_0000_0000_0000_0000_0000_0000_0000,
                ;
            }
            let real_sqrt = match unrounded_numerator.checked_mul(&correction_factor) {
                Some(s) => s,
                None => Self::zero(),  // unreachable
            };
            proof {
                assert(real_sqrt@ == (num * cf + half_r()) / one_r());
                assert(spec_sqrt_large(v, should_round_up) == real_sqrt@);
            }
            Some(real_sqrt)
        }
    }
}

/// The rescaled numerator stays below 64 bits.
proof fn lemma_num_small(sb: nat)
    requires
        sb <= 0x1_0000_0000,
    ensures
        (sb * sqrt_one_raw() + half_r()) / one_r() < 0x1_0000_0000_0000_0000,
{
    assert(sb * sqrt_one_raw() <= 0x1_0000_0000 * sqrt_one_raw()) by (nonlinear_arith)
        requires
            sb <= 0x1_0000_0000,
    ;
    assert(sb * sqrt_one_raw() + half_r() < one_r() * 0x1_0000_0000_0000_0000);
    vstd::arithmetic::div_mod::lemma_multiply_divide_lt((sb * sqrt_one_raw() + half_r()) as int,
        one_r() as int, 0x1_0000_0000_0000_0000);
}

/// Bounds on a correction factor `2^k * ONE` for `k` at most `cap`.
proof fn lemma_cf_facts(k: nat, cap: nat)
    requires
        k <= cap,
        cap <= 96,
    ensures
        pow2(k) * one_r() >= one_r(),
        pow2(k) * one_r() <= pow2(cap) * one_r(),
        pow2(k) * one_r() > 0,
        pow2(32) == 0x1_0000_0000,
        pow2(96) <= 0x1_0000_0000_0000_0000_0000_0000,
{
    vstd::arithmetic::power2::lemma_pow2_pos(k);
    vstd::arithmetic::power2::lemma_pow2_pos(cap);
    if k < cap {
        vstd::arithmetic::power2::lemma_pow2_strictly_increases(k, cap);
    }
    assert(pow2(k) * one_r() >= 1 * one_r() && pow2(k) * one_r() <= pow2(cap) * one_r())
        by (nonlinear_arith)
        requires
            1 <= pow2(k),
            pow2(k) <= pow2(cap),
            one_r() > 0,
    ;
    vstd::arithmetic::power2::lemma2_to64();
    vstd::arithmetic::power2::lemma_pow2_adds(32, 64);
    assert(pow2(96) == pow2(32) * pow2(64));
    assert(pow2(32) * pow2(64) == 0x1_0000_0000_0000_0000_0000_0000);
}

/// The quotient by the correction factor never exceeds the numerator.
proof fn lemma_us_le_num(num: nat, cf: nat, k: nat)
    requires
        cf == pow2(k) * one_r(),
        cf >= one_r(),
    ensures
        (num * one_r() + half_r()) / cf <= num,
{
    vstd::arithmetic::div_mod::lemma_div_is_ordered_by_denominator((num * one_r()
        + half_r()) as int, one_r() as int, cf as int);
    lemma_div_exact_plus(num, one_r(), half_r());
    assert(num * one_r() == one_r() * num) by (nonlinear_arith);
}

/// Rounding a value down to a multiple of the divisor never grows it.
proof fn lemma_quot_times_divisor_le(a: nat, d: nat)
    requires
        d > 0,
    ensures
        (a / d) * d <= a,
{
    vstd::arithmetic::div_mod::lemma_fundamental_div_mod(a as int, d as int);
    vstd::arithmetic::div_mod::lemma_mod_bound(a as int, d as int);
    assert(d * (a / d) == (a / d) * d) by (nonlinear_arith);
}

} // verus!
