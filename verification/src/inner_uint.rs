//! A 256-bit unsigned integer built from two 128-bit limbs, with checked
//! arithmetic throughout: every operation either returns the exact
//! mathematical result or reports that it does not fit.

use vstd::prelude::*;

verus! {

use vstd::arithmetic::power2::pow2;
use vstd::arithmetic::div_mod::lemma_div_denominator;
use vstd::arithmetic::div_mod::lemma_fundamental_div_mod_converse;
use vstd::arithmetic::div_mod::lemma_fundamental_div_mod;
use vstd::arithmetic::div_mod::lemma_mod_bound;
use vstd::arithmetic::div_mod::lemma_basic_div;
use vstd::arithmetic::div_mod::lemma_small_mod;

/// 2^64 as a spec-level value.
pub open spec fn p64() -> nat {
    0x1_0000_0000_0000_0000nat
}

/// 2^128 as a spec-level value.
pub open spec fn p128() -> nat {
    0x1_0000_0000_0000_0000_0000_0000_0000_0000nat
}

/// 2^256 as a spec-level value; no `InnerUint` value reaches it.
pub open spec fn p256() -> nat {
    0x1_0000_0000_0000_0000_0000_0000_0000_0000_0000_0000_0000_0000_0000_0000_0000_0000nat
}

/// A 256-bit unsigned integer: `lo + hi * 2^128`.
#[derive(Clone, Copy, Debug, PartialEq, Eq, Structural)]
pub struct InnerUint {
    pub lo: u128,
    pub hi: u128,
}

impl View for InnerUint {
    type V = nat;

    open spec fn view(&self) -> nat {
        (self.lo + self.hi * p128()) as nat
    }
}

impl InnerUint {
    /// The value zero.
    pub fn zero() -> (r: InnerUint)
        ensures
            r@ == 0,
    {
        InnerUint { lo: 0, hi: 0 }
    }

    /// Embeds a `u128` exactly.
    pub fn from_u128(v: u128) -> (r: InnerUint)
        ensures
            r@ == v,
    {
        InnerUint { lo: v, hi: 0 }
    }

    /// Embeds a `u64` exactly.
    pub fn from_u64(v: u64) -> (r: InnerUint)
        ensures
            r@ == v,
    {
        InnerUint { lo: v as u128, hi: 0 }
    }

    /// The low 128 bits, exact only when the value fits.
    pub fn to_u128_checked(&self) -> (r: Option<u128>)
        ensures
            r matches Some(v) <==> self@ <= u128::MAX && r == Some((self@ as u128)),
            r is None <==> self@ > u128::MAX,
    {
        if self.hi == 0 {
            assert(self@ == self.lo);
            Some(self.lo)
        } else {
            assert(self@ >= p128()) by {
                assert(self.hi * p128() >= 1 * p128()) by (nonlinear_arith)
                    requires
                        self.hi >= 1,
                ;
            };
            None
        }
    }

    /// The low 64 bits, exact only when the value fits.
    pub fn to_u64_checked(&self) -> (r: Option<u64>)
        ensures
            r matches Some(v) <==> self@ <= u64::MAX && r == Some((self@ as u64)),
            r is None <==> self@ > u64::MAX,
    {
        if self.hi == 0 && self.lo <= u64::MAX as u128 {
            assert(self@ == self.lo);
            Some(self.lo as u64)
        } else {
            if self.hi != 0 {
                assert(self@ >= p128()) by {
                    assert(self.hi * p128() >= 1 * p128()) by (nonlinear_arith)
                        requires
                            self.hi >= 1,
                    ;
                };
            }
            None
        }
    }

    /// Exact comparison.
    pub fn lt(&self, rhs: &InnerUint) -> (r: bool)
        ensures
            r == (self@ < rhs@),
    {
        proof {
            lemma_view_order(*self, *rhs);
        }
        if self.hi != rhs.hi {
            self.hi < rhs.hi
        } else {
            self.lo < rhs.lo
        }
    }

    /// Exact comparison.
    pub fn le(&self, rhs: &InnerUint) -> (r: bool)
        ensures
            r == (self@ <= rhs@),
    {
        proof {
            lemma_view_order(*self, *rhs);
        }
        if self.hi != rhs.hi {
            self.hi < rhs.hi
        } else {
            self.lo <= rhs.lo
        }
    }

    /// Sum, or `None` when it does not fit in 256 bits.
    pub fn checked_add(&self, rhs: &InnerUint) -> (r: Option<InnerUint>)
        ensures
            self@ + rhs@ < p256() ==> (r matches Some(v) && v@ == self@ + rhs@),
            self@ + rhs@ >= p256() ==> r is None,
    {
        let (lo, carry): (u128, u128) = if self.lo <= u128::MAX - rhs.lo {
            (self.lo + rhs.lo, 0)
        } else {
            // the true low sum is `lo + 2^128`
            ((self.lo - (u128::MAX - rhs.lo)) - 1, 1)
        };
        assert(lo + carry * p128() == self.lo + rhs.lo);
        if self.hi <= u128::MAX - carry && self.hi + carry <= u128::MAX - rhs.hi {
            let hi = self.hi + carry + rhs.hi;
            proof {
                lemma_limbs_sum(self.lo as nat, self.hi as nat, rhs.lo as nat, rhs.hi as nat,
                    lo as nat, hi as nat, carry as nat);
            }
            Some(InnerUint { lo, hi })
        } else {
            proof {
                lemma_limbs_sum_overflow(self.lo as nat, self.hi as nat, rhs.lo as nat,
                    rhs.hi as nat, carry as nat);
            }
            None
        }
    }

    /// Difference, or `None` when `rhs` is larger.
    pub fn checked_sub(&self, rhs: &InnerUint) -> (r: Option<InnerUint>)
        ensures
            self@ >= rhs@ ==> (r matches Some(v) && v@ == self@ - rhs@),
            self@ < rhs@ ==> r is None,
    {
        proof {
            lemma_view_order(*self, *rhs);
        }
        if self.hi < rhs.hi || (self.hi == rhs.hi && self.lo < rhs.lo) {
            None
        } else {
            let (lo, borrow): (u128, u128) = if self.lo >= rhs.lo {
                (self.lo - rhs.lo, 0)
            } else {
                // borrow one unit of 2^128 from the high limb
                ((u128::MAX - rhs.lo) + 1 + self.lo, 1)
            };
            let hi = self.hi - rhs.hi - borrow;
            assert(lo == self.lo + borrow * p128() - rhs.lo);
            assert(hi + rhs.hi + borrow == self.hi);
            assert(lo + hi * p128() == self@ - rhs@) by (nonlinear_arith)
                requires
                    lo == self.lo + borrow * p128() - rhs.lo,
                    hi + rhs.hi + borrow == self.hi,
                    self@ == self.lo + self.hi * p128(),
                    rhs@ == rhs.lo + rhs.hi * p128(),
            ;
            Some(InnerUint { lo, hi })
        }
    }
}

/// 2^64 as an executable constant.
const P64C: u128 = 0x1_0000_0000_0000_0000;

/// Splits two 128-bit factors into 64-bit halves and recombines the four
/// partial products, giving the exact 256-bit product as two limbs.
fn mul_u128_wide(a: u128, b: u128) -> (r: (u128, u128))
    ensures
        r.0 + r.1 * p128() == a * b,
{
    let a1 = a / P64C;
    let a0 = a % P64C;
    let b1 = b / P64C;
    let b0 = b % P64C;
    proof {
        assert(a0 < p64() && b0 < p64() && a1 < p64() && b1 < p64());
        assert(a0 * b0 < p128() && a0 * b1 < p128() && a1 * b0 < p128() && a1 * b1 < p128())
            by (nonlinear_arith)
            requires
                a0 < p64() && b0 < p64() && a1 < p64() && b1 < p64(),
                p128() == p64() * p64(),
        ;
    }
    let p00 = a0 * b0;
    let p01 = a0 * b1;
    let p10 = a1 * b0;
    let p11 = a1 * b1;
    let (mid, mid_carry): (u128, u128) = if p01 <= u128::MAX - p10 {
        (p01 + p10, 0)
    } else {
        ((p01 - (u128::MAX - p10)) - 1, 1)
    };
    assert(mid + mid_carry * p128() == p01 + p10);
    let mid_lo = (mid % P64C) * P64C;
    proof {
        assert((mid % P64C) * P64C <= (p64() - 1) * p64() < p128()) by (nonlinear_arith)
            requires
                mid % P64C < p64(),
                p128() == p64() * p64(),
        ;
    }
    let (lo, c2): (u128, u128) = if p00 <= u128::MAX - mid_lo {
        (p00 + mid_lo, 0)
    } else {
        ((p00 - (u128::MAX - mid_lo)) - 1, 1)
    };
    assert(lo + c2 * p128() == p00 + mid_lo);
    proof {
        lemma_mul_parts(a as nat, b as nat, a0 as nat, a1 as nat, b0 as nat, b1 as nat,
            p00 as nat, p01 as nat, p10 as nat, p11 as nat);
        // fold the carries into the 2^128 column
        let h = p11 + mid_carry * p64() + (mid / P64C) + c2;
        assert(mid * p64() == (mid / P64C) * p128() + (mid % P64C) * p64()) by (nonlinear_arith)
            requires
                mid == (mid / P64C) * p64() + (mid % P64C),
                p128() == p64() * p64(),
                P64C == p64(),
        ;
        assert((p01 + p10) * p64() == mid * p64() + mid_carry * p128() * p64())
            by (nonlinear_arith)
            requires
                mid + mid_carry * p128() == p01 + p10,
        ;
        assert(p128() * p64() == p64() * p128() && mid_carry * p128() * p64() == (mid_carry
            * p64()) * p128() && p11 * p128() == p11 * p128()) by (nonlinear_arith)
            requires
                p128() == p64() * p64(),
        ;
        assert(a * b == lo + h * p128()) by (nonlinear_arith)
            requires
                a * b == p11 * p128() + (p01 + p10) * p64() + p00,
                (p01 + p10) * p64() == mid * p64() + (mid_carry * p64()) * p128(),
                mid * p64() == (mid / P64C) * p128() + mid_lo,
                mid_lo == (mid % P64C) * p64(),
                lo + c2 * p128() == p00 + mid_lo,
                h == p11 + mid_carry * p64() + (mid / P64C) + c2,
        ;
        assert(a * b < p256()) by (nonlinear_arith)
            requires
                a < p128(),
                b < p128(),
                p256() == p128() * p128(),
        ;
        assert(h < p128()) by (nonlinear_arith)
            requires
                a * b == lo + h * p128(),
                a * b < p256(),
                p256() == p128() * p128(),
                lo >= 0,
                h >= 0,
        ;
    }
    let hi = p11 + mid_carry * P64C + mid / P64C + c2;
    (lo, hi)
}

impl InnerUint {
    /// Product, or `None` when it does not fit in 256 bits.
    pub fn checked_mul(&self, rhs: &InnerUint) -> (r: Option<InnerUint>)
        ensures
            self@ * rhs@ < p256() ==> (r matches Some(v) && v@ == self@ * rhs@),
            self@ * rhs@ >= p256() ==> r is None,
    {
        if self.hi != 0 && rhs.hi != 0 {
            proof {
                assert(self@ * rhs@ >= p256()) by (nonlinear_arith)
                    requires
                        self@ >= self.hi * p128(),
                        rhs@ >= rhs.hi * p128(),
                        self.hi >= 1,
                        rhs.hi >= 1,
                        p256() == p128() * p128(),
                ;
            }
            return None;
        }
        let (ll_lo, ll_hi) = mul_u128_wide(self.lo, rhs.lo);
        let (c1_lo, c1_hi) = mul_u128_wide(self.lo, rhs.hi);
        let (c2_lo, c2_hi) = mul_u128_wide(self.hi, rhs.lo);
        proof {
            lemma_mul_cross(self.lo as nat, self.hi as nat, rhs.lo as nat, rhs.hi as nat,
                (ll_lo + ll_hi * p128()) as nat, (c1_lo + c1_hi * p128()) as nat, (c2_lo + c2_hi
                * p128()) as nat);
        }
        if c1_hi != 0 || c2_hi != 0 {
            proof {
                lemma_cross_high_overflow(self@, rhs@, self.lo as nat, self.hi as nat,
                    rhs.lo as nat, rhs.hi as nat, c1_hi as nat, c2_hi as nat, c1_lo as nat,
                    c2_lo as nat);
            }
            return None;
        }
        if ll_hi > u128::MAX - c1_lo || ll_hi + c1_lo > u128::MAX - c2_lo {
            proof {
                assert(self@ * rhs@ >= p256()) by (nonlinear_arith)
                    requires
                        self@ * rhs@ == ll_lo + (ll_hi + c1_lo + c2_lo) * p128(),
                        ll_hi + c1_lo + c2_lo >= p128(),
                        p256() == p128() * p128(),
                        ll_lo >= 0,
                ;
            }
            return None;
        }
        let hi = ll_hi + c1_lo + c2_lo;
        proof {
            assert(self@ * rhs@ < p256()) by (nonlinear_arith)
                requires
                    self@ * rhs@ == ll_lo + hi * p128(),
                    hi < p128(),
                    ll_lo < p128(),
                    p256() == p128() * p128(),
            ;
        }
        Some(InnerUint { lo: ll_lo, hi })
    }
}

/// Schoolbook expansion of a 128 x 128 bit product into 64-bit partial products.
proof fn lemma_mul_parts(a: nat, b: nat, a0: nat, a1: nat, b0: nat, b1: nat, p00: nat, p01: nat,
    p10: nat, p11: nat)
    by (nonlinear_arith)
    requires
        a == a1 * p64() + a0,
        b == b1 * p64() + b0,
        p00 == a0 * b0,
        p01 == a0 * b1,
        p10 == a1 * b0,
        p11 == a1 * b1,
        p128() == p64() * p64(),
    ensures
        a * b == p11 * p128() + (p01 + p10) * p64() + p00,
{
}

/// Expansion of a 256 x 256 bit product whose high limbs do not overlap.
proof fn lemma_mul_cross(alo: nat, ahi: nat, blo: nat, bhi: nat, ll: nat, c1: nat, c2: nat)
    by (nonlinear_arith)
    requires
        ahi * bhi == 0,
        ll == alo * blo,
        c1 == alo * bhi,
        c2 == ahi * blo,
    ensures
        (alo + ahi * p128()) * (blo + bhi * p128()) == ll + (c1 + c2) * p128(),
{
}

/// A cross product that spills past 128 bits forces the full product past 256.
proof fn lemma_cross_high_overflow(av: nat, bv: nat, alo: nat, ahi: nat, blo: nat, bhi: nat,
    c1hi: nat, c2hi: nat, c1lo: nat, c2lo: nat)
    requires
        av == alo + ahi * p128(),
        bv == blo + bhi * p128(),
        alo < p128() && ahi < p128() && blo < p128() && bhi < p128(),
        c1lo + c1hi * p128() == alo * bhi,
        c2lo + c2hi * p128() == ahi * blo,
        c1hi != 0 || c2hi != 0,
    ensures
        av * bv >= p256(),
{
    if c1hi != 0 {
        assert(av * bv >= p256()) by (nonlinear_arith)
            requires
                av == alo + ahi * p128(),
                bv == blo + bhi * p128(),
                alo * bhi >= p128(),
                p256() == p128() * p128(),
        ;
    } else {
        assert(av * bv >= p256()) by (nonlinear_arith)
            requires
                av == alo + ahi * p128(),
                bv == blo + bhi * p128(),
                ahi * blo >= p128(),
                p256() == p128() * p128(),
        ;
    }
}

/// Number of significant binary digits: the least `k` with `n < 2^k`.
pub open spec fn bit_len(n: nat) -> nat
    decreases n,
{
    if n == 0 {
        0
    } else {
        1 + bit_len(n / 2)
    }
}

/// `bit_len` brackets its argument between two powers of two.
pub proof fn lemma_bit_len_bounds(n: nat)
    ensures
        n < pow2(bit_len(n)),
        n > 0 ==> pow2((bit_len(n) - 1) as nat) <= n,
    decreases n,
{
    vstd::arithmetic::power2::lemma2_to64();
    if n == 0 {
    } else {
        lemma_bit_len_bounds(n / 2);
        let k = bit_len(n / 2);
        assert(bit_len(n) == k + 1);
        vstd::arithmetic::power2::lemma_pow2_adds(k, 1);
        assert(pow2(k + 1) == pow2(k) * 2);
        assert(n < pow2(k) * 2) by {
            assert(n / 2 < pow2(k));
            assert(n <= 2 * (n / 2) + 1);
        };
        if n / 2 == 0 {
            assert(n == 1);
            assert(pow2(0) <= 1);
        } else {
            vstd::arithmetic::power2::lemma_pow2_adds((k - 1) as nat, 1);
            assert(pow2(k) == pow2((k - 1) as nat) * 2);
            assert(pow2(k) <= n) by {
                assert(pow2((k - 1) as nat) <= n / 2);
                assert(2 * (n / 2) <= n);
            };
        }
    }
}

/// The bracket determines `bit_len` uniquely.
pub proof fn lemma_bit_len_unique(n: nat, k: nat)
    requires
        n < pow2(k),
        k > 0 ==> pow2((k - 1) as nat) <= n,
    ensures
        bit_len(n) == k,
{
    lemma_bit_len_bounds(n);
    let b = bit_len(n);
    if b < k {
        if k > 0 {
            if b < k - 1 {
                vstd::arithmetic::power2::lemma_pow2_strictly_increases(b, (k - 1) as nat);
            }
            assert(pow2((k - 1) as nat) <= n);
            assert(n < pow2(b));
            assert(pow2(b) <= pow2((k - 1) as nat));
            assert(false);
        }
    }
    if b > k {
        assert(n > 0) by {
            if n == 0 {
                assert(bit_len(0nat) == 0);
            }
        };
        if k < b - 1 {
            vstd::arithmetic::power2::lemma_pow2_strictly_increases(k, (b - 1) as nat);
        }
        assert(pow2((b - 1) as nat) <= n);
        assert(n < pow2(k));
        assert(false);
    }
}

impl InnerUint {
    /// Doubles the value modulo 2^256 and reports the bit shifted out.
    pub fn shl1_carry(&self) -> (r: (InnerUint, bool))
        ensures
            2 * self@ == r.0@ + (if r.1 {
                p256()
            } else {
                0nat
            }),
            r.0.lo % 2 == 0,
    {
        let top_lo = self.lo >= HI_BIT;
        let top_hi = self.hi >= HI_BIT;
        let lo2 = if top_lo {
            (self.lo - HI_BIT) * 2
        } else {
            self.lo * 2
        };
        let hi2 = if top_hi {
            (self.hi - HI_BIT) * 2 + (if top_lo {
                1
            } else {
                0
            })
        } else {
            self.hi * 2 + (if top_lo {
                1
            } else {
                0
            })
        };
        let out = InnerUint { lo: lo2, hi: hi2 };
        proof {
            let hb: nat = if top_hi {
                1
            } else {
                0
            };
            let lb: nat = if top_lo {
                1
            } else {
                0
            };
            assert(self.lo == lb * HI_BIT + (if top_lo {
                (self.lo - HI_BIT) as nat
            } else {
                self.lo as nat
            }));
            assert(2 * HI_BIT == p128());
            assert(out@ + hb * p256() == 2 * self@) by (nonlinear_arith)
                requires
                    out@ == lo2 + hi2 * p128(),
                    self@ == self.lo + self.hi * p128(),
                    lo2 == 2 * (self.lo - lb * HI_BIT),
                    hi2 == 2 * (self.hi - hb * HI_BIT) + lb,
                    2 * HI_BIT == p128(),
                    p256() == p128() * p128(),
                    hb == (if top_hi {
                        1nat
                    } else {
                        0nat
                    }),
                    lb == (if top_lo {
                        1nat
                    } else {
                        0nat
                    }),
            ;
        }
        (out, top_hi)
    }

    /// Halves the value, discarding the lowest bit.
    pub fn shr1(&self) -> (r: InnerUint)
        ensures
            r@ == self@ / 2,
    {
        let lo = self.lo / 2 + (self.hi % 2) * HI_BIT;
        let hi = self.hi / 2;
        let out = InnerUint { lo, hi };
        proof {
            assert(2 * out@ + (self.lo % 2) == self@) by (nonlinear_arith)
                requires
                    out@ == lo + hi * p128(),
                    self@ == self.lo + self.hi * p128(),
                    lo == self.lo / 2 + (self.hi % 2) * HI_BIT,
                    hi == self.hi / 2,
                    self.lo == 2 * (self.lo / 2) + self.lo % 2,
                    self.hi == 2 * (self.hi / 2) + self.hi % 2,
                    2 * HI_BIT == p128(),
            ;
            lemma_fundamental_div_mod_converse(self@ as int, 2, out@ as int, (self.lo % 2) as int);
        }
        out
    }

    /// Multiplies by 2^k; the result must fit.
    pub fn shl(&self, k: u32) -> (r: InnerUint)
        requires
            self@ * pow2(k as nat) < p256(),
        ensures
            r@ == self@ * pow2(k as nat),
    {
        let mut x = *self;
        let mut j: u32 = 0;
        proof {
            vstd::arithmetic::power2::lemma2_to64();
        }
        while j < k
            invariant
                j <= k,
                x@ == self@ * pow2(j as nat),
                self@ * pow2(k as nat) < p256(),
            decreases k - j,
        {
            proof {
                lemma_shifted_still_fits(self@, j as nat, k as nat);
            }
            let (x2, c) = x.shl1_carry();
            proof {
                vstd::arithmetic::power2::lemma_pow2_adds(j as nat, 1);
                vstd::arithmetic::power2::lemma2_to64();
                assert(2 * (self@ * pow2(j as nat)) == self@ * pow2(j as nat + 1))
                    by (nonlinear_arith)
                    requires
                        pow2(j as nat + 1) == pow2(j as nat) * 2,
                ;
                if c {
                    assert(false);
                }
            }
            x = x2;
            j = j + 1;
        }
        x
    }

    /// Divides by 2^k, discarding the remainder.
    pub fn shr(&self, k: u32) -> (r: InnerUint)
        ensures
            r@ == self@ / pow2(k as nat),
    {
        let mut x = *self;
        let mut j: u32 = 0;
        proof {
            vstd::arithmetic::power2::lemma2_to64();
        }
        while j < k
            invariant
                j <= k,
                x@ == self@ / pow2(j as nat),
            decreases k - j,
        {
            let x2 = x.shr1();
            proof {
                vstd::arithmetic::power2::lemma_pow2_adds(j as nat, 1);
                vstd::arithmetic::power2::lemma2_to64();
                vstd::arithmetic::power2::lemma_pow2_pos(j as nat);
                lemma_div_denominator(self@ as int, pow2(j as nat) as int, 2);
            }
            x = x2;
            j = j + 1;
        }
        x
    }

    /// The exact binary length of the value.
    pub fn bits(&self) -> (r: u32)
        ensures
            r == bit_len(self@),
    {
        if self.hi == 0 {
            assert(self@ == self.lo);
            bits_u128(self.lo)
        } else {
            let b = bits_u128(self.hi);
            proof {
                lemma_bit_len_le_128(self.hi as nat);
                lemma_bit_len_bounds(self.hi as nat);
                lemma_p128_is_pow2();
                let k = bit_len(self.hi as nat);
                vstd::arithmetic::power2::lemma_pow2_adds((k - 1) as nat, 128);
                vstd::arithmetic::power2::lemma_pow2_adds(k, 128);
                assert(pow2((k + 128 - 1) as nat) <= self@) by (nonlinear_arith)
                    requires
                        pow2((k - 1) as nat) <= self.hi,
                        self@ == self.lo + self.hi * p128(),
                        p128() == pow2(128),
                        pow2((k + 128 - 1) as nat) == pow2((k - 1) as nat) * pow2(128),
                ;
                assert(self@ < pow2((k + 128) as nat)) by (nonlinear_arith)
                    requires
                        self.hi < pow2(k),
                        self.lo < p128(),
                        self@ == self.lo + self.hi * p128(),
                        p128() == pow2(128),
                        pow2((k + 128) as nat) == pow2(k) * pow2(128),
                ;
                lemma_bit_len_unique(self@, (k + 128) as nat);
            }
            128 + b
        }
    }
}

/// 2^127 as an executable constant: the top bit of a 128-bit limb.
const HI_BIT: u128 = 0x8000_0000_0000_0000_0000_0000_0000_0000;

/// Binary length of a single limb, by repeated halving.
fn bits_u128(v: u128) -> (r: u32)
    ensures
        r == bit_len(v as nat),
{
    let mut x = v;
    let mut c: u32 = 0;
    proof {
        lemma_bit_len_le_128(v as nat);
    }
    while x > 0
        invariant
            c + bit_len(x as nat) == bit_len(v as nat),
            bit_len(v as nat) <= 128,
        decreases x,
    {
        x = x / 2;
        c = c + 1;
    }
    c
}

/// A limb's binary length never exceeds 128.
proof fn lemma_bit_len_le_128(v: nat)
    requires
        v < p128(),
    ensures
        bit_len(v) <= 128,
{
    lemma_bit_len_bounds(v);
    lemma_p128_is_pow2();
    if bit_len(v) > 128 {
        if 128 < bit_len(v) - 1 {
            vstd::arithmetic::power2::lemma_pow2_strictly_increases(128, (bit_len(v) - 1) as nat);
        }
        assert(false);
    }
}

/// The spec constants are the matching powers of two.
pub proof fn lemma_p128_is_pow2()
    ensures
        p64() == pow2(64),
        p128() == pow2(128),
        p256() == pow2(256),
{
    vstd::arithmetic::power2::lemma2_to64();
    vstd::arithmetic::power2::lemma_pow2_adds(64, 64);
    assert(pow2(128) == p64() * p64());
    assert(p64() * p64() == p128());
    vstd::arithmetic::power2::lemma_pow2_adds(128, 128);
    assert(pow2(256) == p128() * p128());
    assert(p128() * p128() == p256());
}

/// A partially shifted value still fits when the full shift does.
proof fn lemma_shifted_still_fits(v: nat, j: nat, k: nat)
    requires
        j < k,
        v * pow2(k) < p256(),
    ensures
        v * pow2(j + 1) <= v * pow2(k),
{
    if j + 1 < k {
        vstd::arithmetic::power2::lemma_pow2_strictly_increases(j + 1, k);
    }
    assert(v * pow2(j + 1) <= v * pow2(k)) by (nonlinear_arith)
        requires
            pow2(j + 1) <= pow2(k),
            v >= 0,
    ;
}

/// The top `i` bits of a 256-bit value, read as an integer.
pub open spec fn prefix(n: nat, i: nat) -> nat
    recommends
        i <= 256,
{
    n / pow2((256 - i) as nat)
}

impl InnerUint {
    /// Subtraction modulo 2^256.
    fn sub_wrapping(&self, rhs: &InnerUint) -> (r: InnerUint)
        ensures
            self@ >= rhs@ ==> r@ == self@ - rhs@,
            self@ < rhs@ ==> r@ == self@ + p256() - rhs@,
    {
        match self.checked_sub(rhs) {
            Some(v) => v,
            None => {
                // self < rhs: the complement is 2^256 - (rhs - self)
                let d = match rhs.checked_sub(self) {
                    Some(d) => d,
                    None => InnerUint { lo: 0, hi: 0 },  // unreachable
                };
                assert(d@ == rhs@ - self@);
                if d.lo == 0 {
                    let out = InnerUint { lo: 0, hi: (u128::MAX - d.hi) + 1 };
                    assert(out@ == p256() - d@);
                    out
                } else {
                    let out = InnerUint { lo: (u128::MAX - d.lo) + 1, hi: u128::MAX - d.hi };
                    assert(out@ == p256() - d@);
                    out
                }
            },
        }
    }

    /// Quotient and remainder of Euclidean division, by binary long division.
    pub fn div_rem(&self, d: &InnerUint) -> (qr: (InnerUint, InnerUint))
        requires
            d@ > 0,
        ensures
            qr.0@ == self@ / d@,
            qr.1@ == self@ % d@,
    {
        let n = *self;
        let mut x = n;
        let mut q = InnerUint { lo: 0, hi: 0 };
        let mut r = InnerUint { lo: 0, hi: 0 };
        let mut i: u32 = 0;
        proof {
            lemma_p128_is_pow2();
            vstd::arithmetic::power2::lemma2_to64();
            lemma_basic_div(n@ as int, p256() as int);
            assert(prefix(n@, 0) == 0);
            vstd::arithmetic::div_mod::lemma_div_of0(d@ as int);
            vstd::arithmetic::div_mod::lemma_small_mod(0, d@);
            lemma_small_mod(n@, p256());
        }
        while i < 256
            invariant
                i <= 256,
                d@ > 0,
                n@ < p256(),
                n == *self,
                x@ == (n@ * pow2(i as nat)) % p256(),
                q@ == prefix(n@, i as nat) / d@,
                r@ == prefix(n@, i as nat) % d@,
                prefix(n@, i as nat) < pow2(i as nat),
            decreases 256 - i,
        {
            let ghost p = prefix(n@, i as nat);
            proof {
                lemma_p128_is_pow2();
                vstd::arithmetic::power2::lemma2_to64();
                vstd::arithmetic::power2::lemma_pow2_adds(255, 1);
                assert(p256() == pow2(255) * 2);
                lemma_view_bound(x);
                lemma_view_bound(*d);
                lemma_view_bound(r);
                lemma_mod_bound(p as int, d@ as int);
                lemma_prefix_step(n@, i as nat, x@);
            }
            let (x2, xbit) = x.shl1_carry();
            let ghost b: nat = x@ / pow2(255);
            proof {
                lemma_view_bound(x2);
                // the carry of the shifted copy is exactly the next prefix bit
                if xbit {
                    assert(2 * x@ >= p256());
                    assert(b == 1);
                } else {
                    assert(2 * x@ < p256());
                    assert(b == 0);
                }
                assert(x2@ == (2 * x@) % p256()) by {
                    if 2 * x@ < p256() {
                        lemma_small_mod((2 * x@) as nat, p256());
                    } else {
                        lemma_sub_multiple_mod((2 * x@) as nat, p256());
                    }
                };
            }
            x = x2;
            let bitu: u128 = if xbit {
                1
            } else {
                0
            };
            let (r2, rc) = r.shl1_carry();
            let r3 = InnerUint { lo: r2.lo + bitu, hi: r2.hi };
            proof {
                assert(bitu == b);
                assert(r3@ == r2@ + bitu);
                lemma_div_step(p, b, d@);
            }
            let ghost t = 2 * (p % d@) + b;
            let qbit: bool;
            let r4: InnerUint;
            if rc {
                // the doubled remainder overflowed 256 bits, so it exceeds d
                proof {
                    assert(t == r3@ + p256());
                    assert(t >= d@);
                    assert(t <= 2 * d@ - 1);
                    assert(r3@ < d@);
                }
                qbit = true;
                r4 = r3.sub_wrapping(d);
                proof {
                    assert(r4@ == t - d@);
                }
            } else {
                proof {
                    assert(t == r3@);
                }
                if d.le(&r3) {
                    qbit = true;
                    r4 = match r3.checked_sub(d) {
                        Some(v) => v,
                        None => InnerUint { lo: 0, hi: 0 },  // unreachable
                    };
                } else {
                    qbit = false;
                    r4 = r3;
                }
            }
            r = r4;
            let (q2, qc) = q.shl1_carry();
            proof {
                // the running quotient has at most `i` bits, so no bit is lost
                assert(q@ <= p) by {
                    vstd::arithmetic::div_mod::lemma_div_nonincreasing(p as int, d@ as int);
                };
                if i < 255 {
                    vstd::arithmetic::power2::lemma_pow2_strictly_increases(i as nat, 255);
                }
                assert(2 * q@ < p256());
                if qc {
                    assert(false);
                }
            }
            let q3 = InnerUint {
                lo: q2.lo + (if qbit {
                    1
                } else {
                    0
                }),
                hi: q2.hi,
            };
            proof {
                let qb: nat = if qbit {
                    1
                } else {
                    0
                };
                assert(q3@ == 2 * q@ + qb);
                assert(q3@ == prefix(n@, i as nat + 1) / d@);
                assert(r4@ == prefix(n@, i as nat + 1) % d@);
                assert(prefix(n@, i as nat + 1) < pow2(i as nat + 1)) by {
                    vstd::arithmetic::power2::lemma_pow2_adds(i as nat, 1);
                };
            }
            q = q3;
            i = i + 1;
        }
        proof {
            vstd::arithmetic::power2::lemma2_to64();
            vstd::arithmetic::div_mod::lemma_div_basics(n@ as int);
            assert(prefix(n@, 256) == n@);
        }
        (q, r)
    }

    /// Quotient, or `None` exactly when the divisor is zero.
    pub fn checked_div(&self, rhs: &InnerUint) -> (r: Option<InnerUint>)
        ensures
            rhs@ > 0 ==> (r matches Some(v) && v@ == self@ / rhs@),
            rhs@ == 0 ==> r is None,
    {
        if rhs.lo == 0 && rhs.hi == 0 {
            None
        } else {
            proof {
                if rhs@ == 0 {
                    assert(rhs.hi * p128() >= 1 * p128() || rhs.hi == 0) by (nonlinear_arith);
                }
            }
            let (q, _r) = self.div_rem(rhs);
            Some(q)
        }
    }
}

/// Doubling a prefix and adding the next bit gives the next prefix; the bit
/// is the top bit of the left-shifted copy of the dividend.
proof fn lemma_prefix_step(n: nat, i: nat, x: nat)
    requires
        i < 256,
        n < p256(),
        x == (n * pow2(i)) % p256(),
    ensures
        x / pow2(255) <= 1,
        prefix(n, i + 1) == 2 * prefix(n, i) + x / pow2(255),
        (2 * x) % p256() == (n * pow2(i + 1)) % p256(),
        2 * x >= p256() <==> x / pow2(255) == 1,
        prefix(n, i) < pow2(i) ==> prefix(n, i + 1) < pow2(i + 1),
{
    lemma_p128_is_pow2();
    vstd::arithmetic::power2::lemma_pow2_pos(i);
    vstd::arithmetic::power2::lemma_pow2_pos(255);
    vstd::arithmetic::power2::lemma_pow2_pos((255 - i) as nat);
    vstd::arithmetic::power2::lemma_pow2_pos((256 - i) as nat);
    let a = n * pow2(i);
    // x < 2^256, so its top bit is x / 2^255 <= 1
    lemma_mod_bound(a as int, p256() as int);
    assert(x < p256());
    vstd::arithmetic::power2::lemma_pow2_adds(255, 1);
    vstd::arithmetic::power2::lemma2_to64();
    assert(p256() == pow2(255) * 2);
    assert(x / pow2(255) <= 1) by {
        if x / pow2(255) >= 2 {
            vstd::arithmetic::div_mod::lemma_fundamental_div_mod(x as int, pow2(255) as int);
            lemma_mod_bound(x as int, pow2(255) as int);
            assert(x >= pow2(255) * (x / pow2(255)));
            assert(pow2(255) * (x / pow2(255)) >= pow2(255) * 2) by (nonlinear_arith)
                requires
                    x / pow2(255) >= 2,
                    pow2(255) > 0,
            ;
            assert(false);
        }
    };
    // the top bit of x equals bit (255 - i) of n
    assert(x % pow2(255) == a % pow2(255)) by {
        vstd::arithmetic::div_mod::lemma_mod_mod(a as int, pow2(255) as int, 2);
    };
    vstd::arithmetic::div_mod::lemma_fundamental_div_mod(x as int, pow2(255) as int);
    vstd::arithmetic::div_mod::lemma_fundamental_div_mod(a as int, pow2(255) as int);
    let abit = (a / pow2(255)) % 2;
    assert(x / pow2(255) == abit) by {
        // x == a % 2^256, and both split at 2^255 with the same low part
        vstd::arithmetic::div_mod::lemma_mod_breakdown(a as int, pow2(255) as int, 2);
        assert(a % (pow2(255) * 2) == pow2(255) * ((a / pow2(255)) % 2) + a % pow2(255));
        lemma_mod_bound(a as int, pow2(255) as int);
        vstd::arithmetic::div_mod::lemma_fundamental_div_mod_converse(x as int,
            pow2(255) as int, abit as int, (a % pow2(255)) as int);
    };
    // a / 2^255 == n / 2^(255 - i)
    assert(a / pow2(255) == n / pow2((255 - i) as nat)) by {
        vstd::arithmetic::power2::lemma_pow2_adds(i, (255 - i) as nat);
        vstd::arithmetic::div_mod::lemma_div_denominator(a as int, pow2(i) as int,
            pow2((255 - i) as nat) as int);
        assert(a / pow2(i) == n) by {
            vstd::arithmetic::div_mod::lemma_div_multiples_vanish(n as int, pow2(i) as int);
            assert(pow2(i) * n == n * pow2(i)) by (nonlinear_arith);
        };
    };
    // prefix step: n / 2^(255-i) == 2 * (n / 2^(256-i)) + bit
    let bb = n / pow2((255 - i) as nat);
    assert(prefix(n, i) == bb / 2) by {
        vstd::arithmetic::power2::lemma_pow2_adds((255 - i) as nat, 1);
        assert(pow2((256 - i) as nat) == pow2((255 - i) as nat) * 2);
        vstd::arithmetic::div_mod::lemma_div_denominator(n as int, pow2((255 - i) as nat) as int,
            2);
    };
    assert(bb == 2 * (bb / 2) + bb % 2);
    assert(prefix(n, i + 1) == bb);
    assert(abit == bb % 2);
    // doubling commutes with the modulus
    assert((2 * x) % p256() == (2 * a) % p256()) by {
        vstd::arithmetic::div_mod::lemma_mul_mod_noop_right(2, a as int, p256() as int);
    };
    assert(2 * a == n * pow2(i + 1)) by {
        vstd::arithmetic::power2::lemma_pow2_adds(i, 1);
        assert(n * pow2(i + 1) == n * (pow2(i) * 2)) by (nonlinear_arith)
            requires
                pow2(i + 1) == pow2(i) * 2,
        ;
        assert(n * (pow2(i) * 2) == 2 * (n * pow2(i))) by (nonlinear_arith);
    };
    // the carry of the doubling is exactly the top bit
    assert(2 * x >= p256() <==> x / pow2(255) == 1) by {
        vstd::arithmetic::div_mod::lemma_fundamental_div_mod(x as int, pow2(255) as int);
        lemma_mod_bound(x as int, pow2(255) as int);
        if x / pow2(255) == 1 {
            assert(pow2(255) * (x / pow2(255)) == pow2(255)) by (nonlinear_arith)
                requires
                    x / pow2(255) == 1,
            ;
            assert(x >= pow2(255));
        } else {
            assert(x / pow2(255) == 0);
            lemma_basic_div_rev(x, pow2(255));
        }
    };
    // prefix growth preserves the bit-count bound
    if prefix(n, i) < pow2(i) {
        vstd::arithmetic::power2::lemma_pow2_adds(i, 1);
    }
}

/// A value whose quotient by `d` is zero lies below `d`.
proof fn lemma_basic_div_rev(x: nat, d: nat)
    requires
        d > 0,
        x / d == 0,
    ensures
        x < d,
{
    vstd::arithmetic::div_mod::lemma_fundamental_div_mod(x as int, d as int);
    lemma_mod_bound(x as int, d as int);
}

/// Subtracting one multiple of the modulus preserves the remainder.
proof fn lemma_sub_multiple_mod(a: nat, m: nat)
    requires
        m > 0,
        a >= m,
        a < 2 * m,
    ensures
        a % m == a - m,
{
    vstd::arithmetic::div_mod::lemma_fundamental_div_mod_converse(a as int, m as int, 1,
        (a - m) as int);
}

/// One step of binary long division: double the remainder, bring in a bit,
/// and subtract the divisor when it fits.
proof fn lemma_div_step(p: nat, b: nat, d: nat)
    requires
        d > 0,
        b <= 1,
    ensures
        2 * (p % d) + b >= d ==> (2 * p + b) / d == 2 * (p / d) + 1 && (2 * p + b) % d == 2 * (p
            % d) + b - d,
        2 * (p % d) + b < d ==> (2 * p + b) / d == 2 * (p / d) && (2 * p + b) % d == 2 * (p % d)
            + b,
{
    let q = p / d;
    let r = p % d;
    vstd::arithmetic::div_mod::lemma_fundamental_div_mod(p as int, d as int);
    lemma_mod_bound(p as int, d as int);
    let t = 2 * r + b;
    if t >= d {
        assert(2 * p + b == (2 * q + 1) * d + (t - d)) by (nonlinear_arith)
            requires
                p == d * q + r,
                t == 2 * r + b,
        ;
        vstd::arithmetic::div_mod::lemma_fundamental_div_mod_converse((2 * p + b) as int,
            d as int, (2 * q + 1) as int, (t - d) as int);
    } else {
        assert(2 * p + b == (2 * q) * d + t) by (nonlinear_arith)
            requires
                p == d * q + r,
                t == 2 * r + b,
        ;
        vstd::arithmetic::div_mod::lemma_fundamental_div_mod_converse((2 * p + b) as int,
            d as int, (2 * q) as int, t as int);
    }
}

/// A value with a nonzero limb is nonzero.
pub proof fn lemma_nonzero_view(a: InnerUint)
    requires
        a.lo != 0 || a.hi != 0,
    ensures
        a@ > 0,
{
    if a.hi != 0 {
        assert(a.hi * p128() >= 1 * p128()) by (nonlinear_arith)
            requires
                a.hi >= 1,
        ;
    }
}

/// Every value of the type lies below 2^256.
pub proof fn lemma_view_bound(a: InnerUint)
    ensures
        a@ < p256(),
{
    assert(a.lo + a.hi * p128() < p256()) by (nonlinear_arith)
        requires
            a.lo < p128(),
            a.hi < p128(),
            p256() == p128() * p128(),
    ;
}

/// Lexicographic order on the limbs agrees with the order of the values.
proof fn lemma_view_order(a: InnerUint, b: InnerUint)
    ensures
        (a@ < b@) == (a.hi < b.hi || (a.hi == b.hi && a.lo < b.lo)),
        (a@ == b@) == (a.hi == b.hi && a.lo == b.lo),
{
    if a.hi < b.hi {
        assert(a.lo + a.hi * p128() < b.lo + b.hi * p128()) by (nonlinear_arith)
            requires
                a.hi < b.hi,
                a.lo < p128(),
                b.lo >= 0,
        ;
    }
    if b.hi < a.hi {
        assert(b.lo + b.hi * p128() < a.lo + a.hi * p128()) by (nonlinear_arith)
            requires
                b.hi < a.hi,
                b.lo < p128(),
                a.lo >= 0,
        ;
    }
}

/// Recombining limb-wise addition with a carry gives the exact sum.
proof fn lemma_limbs_sum(alo: nat, ahi: nat, blo: nat, bhi: nat, lo: nat, hi: nat, carry: nat)
    by (nonlinear_arith)
    requires
        lo + carry * p128() == alo + blo,
        hi == ahi + carry + bhi,
    ensures
        lo + hi * p128() == (alo + ahi * p128()) + (blo + bhi * p128()),
{
}

/// When the high limbs and the carry no longer fit, the sum is at least 2^256.
proof fn lemma_limbs_sum_overflow(alo: nat, ahi: nat, blo: nat, bhi: nat, carry: nat)
    by (nonlinear_arith)
    requires
        carry <= 1,
        ahi < p128(),
        bhi < p128(),
        ahi + carry + bhi >= p128(),
        alo + blo >= carry * p128(),
        p256() == p128() * p128(),
    ensures
        (alo + ahi * p128()) + (blo + bhi * p128()) >= p256(),
{
}

} // verus!
