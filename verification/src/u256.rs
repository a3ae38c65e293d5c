//! Unsigned 256-bit integers built from two 128-bit halves.
//!
//! Every operation is specified against the mathematical value
//! `lo + hi * 2^128` so that the fixed-point layer above can reason purely
//! in terms of natural numbers.
use vstd::prelude::*;

verus! {

use vstd::arithmetic::div_mod::lemma_div_is_ordered;
use vstd::arithmetic::div_mod::lemma_fundamental_div_mod;
use vstd::arithmetic::div_mod::lemma_fundamental_div_mod_converse;
use vstd::arithmetic::div_mod::lemma_mod_division_less_than_divisor;
use vstd::arithmetic::div_mod::lemma_mod_multiples_vanish;
use vstd::arithmetic::mul::lemma_mul_inequality;
use vstd::arithmetic::power2::lemma2_to64;
use vstd::arithmetic::power2::lemma2_to64_rest;
use vstd::arithmetic::power2::lemma_pow2_adds;
use vstd::arithmetic::power2::lemma_pow2_unfold;
use vstd::arithmetic::power2::pow2;

/// `2^128` as a natural number.
pub open spec fn p128() -> nat {
    0x1_0000_0000_0000_0000_0000_0000_0000_0000nat
}

/// `2^256` as a natural number.
pub open spec fn p256() -> nat {
    0x1_0000_0000_0000_0000_0000_0000_0000_0000_0000_0000_0000_0000_0000_0000_0000_0000nat
}

/// An unsigned 256-bit integer; `hi` carries the upper 128 bits.
/// The field order makes the derived lexicographic comparisons agree
/// with the numeric order (callers outside the verified core may use them;
/// the verified core compares through [`U256::lt`] and friends).
#[derive(Clone, Copy, Debug, PartialEq, Eq, PartialOrd, Ord, Structural)]
pub struct U256 {
    hi: u128,
    lo: u128,
}

impl View for U256 {
    type V = nat;

    closed spec fn view(&self) -> nat {
        self.lo as nat + self.hi as nat * p128()
    }
}

/// The two halves bound the value below `2^256`.
pub proof fn lemma_u256_bound(x: U256)
    ensures
        x@ < p256(),
{
    assert(x.hi as nat * p128() <= (p128() - 1) * p128()) by {
        lemma_mul_inequality(x.hi as int, (p128() - 1) as int, p128() as int);
    }
}

impl U256 {
    /// The value zero.
    pub fn zero() -> (r: U256)
        ensures
            r@ == 0,
    {
        U256 { hi: 0, lo: 0 }
    }

    /// Embeds a 128-bit value.
    pub fn from_u128(v: u128) -> (r: U256)
        ensures
            r@ == v as nat,
    {
        U256 { hi: 0, lo: v }
    }

    /// The low 128 bits of the value.
    pub fn low_u128(&self) -> (r: u128)
        ensures
            r as nat == self@ % p128(),
    {
        proof {
            lemma_fundamental_div_mod_converse(self@ as int, p128() as int, self.hi as int, self.lo as int);
        }
        self.lo
    }

    /// Parity of the value.
    pub fn is_odd(&self) -> (r: bool)
        ensures
            r == (self@ % 2 == 1),
    {
        proof {
            lemma_mod_multiples_vanish(
                self.hi as int * 0x8000_0000_0000_0000_0000_0000_0000_0000, self.lo as int, 2);
        }
        self.lo % 2 == 1
    }

    /// True exactly on the value zero.
    pub fn is_zero(&self) -> (r: bool)
        ensures
            r == (self@ == 0),
    {
        self.lo == 0 && self.hi == 0
    }

    /// Numeric strict order.
    pub fn lt(&self, o: &U256) -> (r: bool)
        ensures
            r == (self@ < o@),
    {
        proof {
            lemma_halves_order(*self, *o);
        }
        if self.hi != o.hi {
            self.hi < o.hi
        } else {
            self.lo < o.lo
        }
    }

    /// Numeric order.
    pub fn le(&self, o: &U256) -> (r: bool)
        ensures
            r == (self@ <= o@),
    {
        !o.lt(self)
    }

    /// Sum, or `None` past `2^256`.
    pub fn checked_add(self, o: U256) -> (r: Option<U256>)
        ensures
            match r {
                Some(v) => self@ + o@ < p256() && v@ == self@ + o@,
                None => self@ + o@ >= p256(),
            },
    {
        let (lo, c): (u128, u128) = if self.lo > u128::MAX - o.lo {
            ((self.lo - (u128::MAX - o.lo)) - 1, 1)
        } else {
            (self.lo + o.lo, 0)
        };
        if self.hi > u128::MAX - o.hi {
            return None;
        }
        let h = self.hi + o.hi;
        if c == 1 && h == u128::MAX {
            return None;
        }
        let hi = h + c;
        Some(U256 { hi, lo })
    }

    /// Difference, or `None` when the subtrahend is larger.
    pub fn checked_sub(self, o: U256) -> (r: Option<U256>)
        ensures
            match r {
                Some(v) => o@ <= self@ && v@ == self@ - o@,
                None => self@ < o@,
            },
    {
        proof {
            lemma_halves_order(self, o);
        }
        if o.hi > self.hi {
            return None;
        }
        if o.hi == self.hi && o.lo > self.lo {
            return None;
        }
        if o.lo > self.lo {
            let lo = (self.lo + (u128::MAX - o.lo)) + 1;
            let hi = (self.hi - o.hi) - 1;
            Some(U256 { hi, lo })
        } else {
            Some(U256 { hi: self.hi - o.hi, lo: self.lo - o.lo })
        }
    }

    /// Difference under the caller's guarantee that it cannot underflow.
    pub fn minus(self, o: U256) -> (r: U256)
        requires
            o@ <= self@,
        ensures
            r@ == self@ - o@,
    {
        match self.checked_sub(o) {
            Some(v) => v,
            None => {
                proof {
                    assert(false);
                }
                U256 { hi: 0, lo: 0 }
            },
        }
    }

    /// Difference floored at zero.
    pub fn saturating_sub(self, o: U256) -> (r: U256)
        ensures
            r@ == if o@ <= self@ {
                self@ - o@
            } else {
                0
            },
    {
        match self.checked_sub(o) {
            Some(v) => v,
            None => U256 { hi: 0, lo: 0 },
        }
    }
}

/// The largest natural number whose square does not exceed `n`.
pub open spec fn sqrt_nat(n: nat) -> nat {
    choose|r: nat| #[trigger] (r * r) <= n < (r + 1) * (r + 1)
}

/// Every natural number has an integer square root.
pub proof fn lemma_sqrt_exists(n: nat)
    ensures
        exists|r: nat| #[trigger] (r * r) <= n < (r + 1) * (r + 1),
    decreases n,
{
    if n == 0 {
        let z: nat = 0;
        assert(z * z == 0 && (z + 1) * (z + 1) == 1) by (nonlinear_arith)
            requires
                z == 0,
        ;
        assert(z * z <= n < (z + 1) * (z + 1));
    } else {
        lemma_sqrt_exists((n - 1) as nat);
        let r = choose|r: nat| #[trigger] (r * r) <= n - 1 < (r + 1) * (r + 1);
        if n < (r + 1) * (r + 1) {
            assert(r * r <= n < (r + 1) * (r + 1));
        } else {
            assert((r + 1) * (r + 1) <= n < ((r + 1) + 1) * ((r + 1) + 1)) by (nonlinear_arith)
                requires
                    r * r <= n - 1 < (r + 1) * (r + 1),
                    n >= (r + 1) * (r + 1),
            ;
        }
    }
}

/// The defining sandwich of [`sqrt_nat`].
pub proof fn lemma_sqrt_def(n: nat)
    ensures
        sqrt_nat(n) * sqrt_nat(n) <= n < (sqrt_nat(n) + 1) * (sqrt_nat(n) + 1),
{
    lemma_sqrt_exists(n);
}

/// Any witness of the square sandwich is the square root.
pub proof fn lemma_sqrt_unique(n: nat, a: nat)
    requires
        a * a <= n < (a + 1) * (a + 1),
    ensures
        sqrt_nat(n) == a,
{
    assert(exists|r: nat| #[trigger] (r * r) <= n < (r + 1) * (r + 1)) by {
        assert(a * a <= n < (a + 1) * (a + 1));
    }
    let c = sqrt_nat(n);
    if c < a {
        assert((c + 1) * (c + 1) <= a * a) by (nonlinear_arith)
            requires
                c + 1 <= a,
        ;
    }
    if c > a {
        assert((a + 1) * (a + 1) <= c * c) by (nonlinear_arith)
            requires
                a + 1 <= c,
        ;
    }
}

/// The concrete value of `2^127`, the top bit of a 128-bit exponent.
pub proof fn lemma_pow2_127()
    ensures
        pow2(127) == 0x8000_0000_0000_0000_0000_0000_0000_0000nat,
{
    lemma_pow2_facts();
}

/// Concrete values for the powers of two this module manipulates.
proof fn lemma_pow2_facts()
    ensures
        pow2(0) == 1,
        pow2(64) == 0x1_0000_0000_0000_0000nat,
        pow2(127) == 0x8000_0000_0000_0000_0000_0000_0000_0000nat,
        pow2(128) == p128(),
        pow2(255) == 0x8000_0000_0000_0000_0000_0000_0000_0000nat * p128(),
        pow2(256) == p256(),
{
    lemma2_to64();
    lemma2_to64_rest();
    lemma_pow2_adds(64, 63);
    lemma_pow2_adds(64, 64);
    lemma_pow2_adds(128, 127);
    lemma_pow2_adds(128, 128);
    assert(0x1_0000_0000_0000_0000nat * 0x1_0000_0000_0000_0000nat == p128()
        && 0x1_0000_0000_0000_0000nat * 0x8000_0000_0000_0000nat
        == 0x8000_0000_0000_0000_0000_0000_0000_0000nat && p128() * p128() == p256()
        && p128() * 0x8000_0000_0000_0000_0000_0000_0000_0000nat
        == 0x8000_0000_0000_0000_0000_0000_0000_0000nat * p128()) by (nonlinear_arith);
}

impl U256 {
    /// Halves the value.
    pub fn half(self) -> (r: U256)
        ensures
            r@ == self@ / 2,
    {
        let hi = self.hi / 2;
        let lo = self.lo / 2 + (self.hi % 2) * 0x8000_0000_0000_0000_0000_0000_0000_0000u128;
        proof {
            assert(self.lo as nat + self.hi as nat * p128() == (self.lo as nat / 2 + (self.hi as nat % 2)
                * 0x8000_0000_0000_0000_0000_0000_0000_0000nat + (self.hi as nat / 2) * p128()) * 2
                + self.lo as nat % 2);
        }
        U256 { hi, lo }
    }

    /// Product of 256-bit values, or `None` past `2^256`.
    pub fn checked_mul(self, o: U256) -> (r: Option<U256>)
        ensures
            match r {
                Some(v) => self@ * o@ < p256() && v@ == self@ * o@,
                None => self@ * o@ >= p256(),
            },
    {
        let (h1, l1) = wmul(self.lo, o.lo);
        let (h2, l2) = wmul(self.lo, o.hi);
        let (h3, l3) = wmul(self.hi, o.lo);
        let (h4, l4) = wmul(self.hi, o.hi);
        proof {
            lemma_mul_full_decompose(
                self@, self.hi as nat, self.lo as nat, o@, o.hi as nat, o.lo as nat);
            assert(p128() * p128() == p256());
            assert(self@ * o@ == l1 as nat + (h1 as nat + l2 as nat + l3 as nat) * p128() + (
            h2 as nat + h3 as nat + l4 as nat) * p256() + h4 as nat * (p256() * p128())) by {
                assert(self.lo as nat * o.lo as nat == h1 as nat * p128() + l1 as nat);
                assert(self.lo as nat * o.hi as nat == h2 as nat * p128() + l2 as nat);
                assert(self.hi as nat * o.lo as nat == h3 as nat * p128() + l3 as nat);
                assert(self.hi as nat * o.hi as nat == h4 as nat * p128() + l4 as nat);
                assert((h2 as nat * p128() + l2 as nat) * p128() == h2 as nat * (p128() * p128())
                    + l2 as nat * p128()) by (nonlinear_arith);
                assert((h3 as nat * p128() + l3 as nat) * p128() == h3 as nat * (p128() * p128())
                    + l3 as nat * p128()) by (nonlinear_arith);
                assert((h4 as nat * p128() + l4 as nat) * (p128() * p128()) == h4 as nat * (p128()
                    * p128() * p128()) + l4 as nat * (p128() * p128())) by (nonlinear_arith);
                assert(p256() * p128() == p128() * p128() * p128());
            }
        }
        if h4 != 0 || l4 != 0 || h2 != 0 || h3 != 0 {
            proof {
                assert(self@ * o@ >= p256()) by (nonlinear_arith)
                    requires
                        self@ * o@ == l1 as nat + (h1 as nat + l2 as nat + l3 as nat) * p128() + (
                        h2 as nat + h3 as nat + l4 as nat) * p256() + h4 as nat * (p256() * p128()),
                        h4 as nat > 0 || l4 as nat > 0 || h2 as nat > 0 || h3 as nat > 0,
                ;
            }
            return None;
        }
        if l2 > u128::MAX - h1 {
            proof {
                lemma_carry_overflows(self@ * o@, l1 as nat, h1 as nat + l2 as nat + l3 as nat);
            }
            return None;
        }
        let t = h1 + l2;
        if l3 > u128::MAX - t {
            proof {
                lemma_carry_overflows(self@ * o@, l1 as nat, h1 as nat + l2 as nat + l3 as nat);
            }
            return None;
        }
        let hi = t + l3;
        proof {
            lemma_u256_bound(U256 { hi, lo: l1 });
        }
        Some(U256 { hi, lo: l1 })
    }

    /// Euclidean division: quotient and remainder.  The quotient is
    /// found bit by bit from the top, keeping it the largest value
    /// whose product with the divisor stays within the dividend.
    pub fn div_rem(self, d: U256) -> (r: (U256, U256))
        requires
            d@ != 0,
        ensures
            r.0@ == self@ / d@,
            r.1@ == self@ % d@,
            self@ == r.0@ * d@ + r.1@,
            r.1@ < d@,
    {
        let mut q = U256::zero();
        let mut bitv = U256 { hi: 0x8000_0000_0000_0000_0000_0000_0000_0000u128, lo: 0 };
        let mut i: usize = 256;
        proof {
            lemma_pow2_facts();
            lemma_u256_bound(self);
            assert(self@ < (q@ + pow2(256)) * d@) by (nonlinear_arith)
                requires
                    q@ == 0,
                    d@ >= 1,
                    self@ < p256(),
                    pow2(256) == p256(),
            ;
        }
        while 0 < i
            invariant
                d@ != 0,
                i <= 256,
                0 < i ==> bitv@ == pow2((i - 1) as nat),
                q@ * d@ <= self@,
                self@ < (q@ + pow2(i as nat)) * d@,
            decreases i,
        {
            i = i - 1;
            proof {
                lemma_pow2_unfold((i + 1) as nat);
            }
            let old_q: Ghost<nat> = Ghost(q@);
            let took = match q.checked_add(bitv) {
                Some(cand) => {
                    match cand.checked_mul(d) {
                        Some(p) => {
                            if p.le(&self) {
                                q = cand;
                                true
                            } else {
                                false
                            }
                        },
                        None => {
                            proof {
                                lemma_u256_bound(self);
                            }
                            false
                        },
                    }
                },
                None => {
                    proof {
                        lemma_u256_bound(self);
                        assert((q@ + pow2(i as nat)) * d@ >= p256()) by (nonlinear_arith)
                            requires
                                d@ >= 1,
                                q@ + pow2(i as nat) >= p256(),
                        ;
                    }
                    false
                },
            };
            proof {
                if took {
                    assert((old_q@ + pow2((i + 1) as nat)) * d@ == ((old_q@ + pow2(i as nat))
                        + pow2(i as nat)) * d@);
                }
            }
            if 0 < i {
                bitv = bitv.half();
                proof {
                    lemma_pow2_unfold(i as nat);
                }
            }
        }
        proof {
            lemma_pow2_facts();
            lemma_u256_bound(self);
        }
        let p = match q.checked_mul(d) {
            Some(p) => p,
            None => {
                proof {
                    assert(false);
                }
                U256::zero()
            },
        };
        let rem = self.minus(p);
        proof {
            assert((q@ + 1) * d@ == q@ * d@ + d@) by (nonlinear_arith);
            lemma_fundamental_div_mod_converse(
                self@ as int, d@ as int, q@ as int, (self@ - q@ * d@) as int);
        }
        (q, rem)
    }

    /// Integer square root: the largest value whose square does not
    /// exceed `self`, found bit by bit from the top.
    pub fn isqrt(self) -> (r: U256)
        ensures
            r@ == sqrt_nat(self@),
            r@ * r@ <= self@ < (r@ + 1) * (r@ + 1),
    {
        let mut root = U256::zero();
        let mut bitv = U256 { hi: 0, lo: 0x8000_0000_0000_0000_0000_0000_0000_0000u128 };
        let mut i: usize = 128;
        proof {
            lemma_pow2_facts();
            lemma_u256_bound(self);
            assert(self@ < (root@ + pow2(128)) * (root@ + pow2(128))) by (nonlinear_arith)
                requires
                    root@ == 0,
                    self@ < p256(),
                    pow2(128) == p128(),
                    p128() * p128() == p256(),
            ;
        }
        while 0 < i
            invariant
                i <= 128,
                0 < i ==> bitv@ == pow2((i - 1) as nat),
                root@ * root@ <= self@,
                self@ < (root@ + pow2(i as nat)) * (root@ + pow2(i as nat)),
            decreases i,
        {
            i = i - 1;
            proof {
                lemma_pow2_unfold((i + 1) as nat);
            }
            let old_root: Ghost<nat> = Ghost(root@);
            let took = match root.checked_add(bitv) {
                Some(cand) => {
                    match cand.checked_mul(cand) {
                        Some(p) => {
                            if p.le(&self) {
                                root = cand;
                                true
                            } else {
                                false
                            }
                        },
                        None => {
                            proof {
                                lemma_u256_bound(self);
                            }
                            false
                        },
                    }
                },
                None => {
                    proof {
                        lemma_u256_bound(self);
                        assert((root@ + pow2(i as nat)) * (root@ + pow2(i as nat)) >= p256())
                            by (nonlinear_arith)
                            requires
                                root@ + pow2(i as nat) >= p256(),
                                p256() > 1,
                        ;
                    }
                    false
                },
            };
            proof {
                if took {
                    assert((old_root@ + pow2((i + 1) as nat)) * (old_root@ + pow2((i + 1) as nat))
                        == ((old_root@ + pow2(i as nat)) + pow2(i as nat)) * ((old_root@ + pow2(
                    i as nat)) + pow2(i as nat)));
                }
            }
            if 0 < i {
                bitv = bitv.half();
                proof {
                    lemma_pow2_unfold(i as nat);
                }
            }
        }
        proof {
            lemma_pow2_facts();
            lemma_sqrt_unique(self@, root@);
        }
        root
    }
}

/// Splitting both factors at `2^128` decomposes their product.
proof fn lemma_mul_full_decompose(a: nat, ah: nat, al: nat, b: nat, bh: nat, bl: nat)
    requires
        a == al + ah * p128(),
        b == bl + bh * p128(),
    ensures
        a * b == al * bl + (al * bh) * p128() + (ah * bl) * p128() + (ah * bh) * (p128() * p128()),
{
    assert((al + ah * p128()) * (bl + bh * p128()) == al * bl + (al * bh) * p128() + (ah * bl)
        * p128() + (ah * bh) * (p128() * p128())) by (nonlinear_arith);
}

/// A value whose middle digit reaches `2^128` is at least `2^256`.
proof fn lemma_carry_overflows(v: nat, low: nat, mid: nat)
    requires
        v >= mid * p128(),
        mid >= p128(),
    ensures
        v >= p256(),
{
    assert(mid * p128() >= p128() * p128()) by (nonlinear_arith)
        requires
            mid >= p128(),
    ;
}

/// Full 128-by-128-bit multiplication: returns the high and low halves
/// of the exact product.
fn wmul(x: u128, y: u128) -> (r: (u128, u128))
    ensures
        x as nat * y as nat == r.0 as nat * p128() + r.1 as nat,
{
    let b: u128 = 0x1_0000_0000_0000_0000u128;
    let xl = x % b;
    let xh = x / b;
    let yl = y % b;
    let yh = y / b;
    proof {
        assert((xh as nat) < 0x1_0000_0000_0000_0000nat) by (nonlinear_arith)
            requires
                (xh as nat) == (x as nat) / 0x1_0000_0000_0000_0000nat,
                (x as nat) < 0x1_0000_0000_0000_0000nat * 0x1_0000_0000_0000_0000nat,
        ;
        assert((yh as nat) < 0x1_0000_0000_0000_0000nat) by (nonlinear_arith)
            requires
                (yh as nat) == (y as nat) / 0x1_0000_0000_0000_0000nat,
                (y as nat) < 0x1_0000_0000_0000_0000nat * 0x1_0000_0000_0000_0000nat,
        ;
        lemma_quarter_products(xl as nat, xh as nat, yl as nat, yh as nat);
    }
    let ll = xl * yl;
    let lh = xl * yh;
    let hl = xh * yl;
    let hh = xh * yh;
    proof {
        lemma_digit_div_bounds(ll as nat, lh as nat, hl as nat);
    }
    let mid = ll / b + lh % b + hl % b;
    let lo = ll % b + (mid % b) * b;
    proof {
        assert((mid as nat) / 0x1_0000_0000_0000_0000nat <= 2) by (nonlinear_arith)
            requires
                (mid as nat) < 3 * 0x1_0000_0000_0000_0000nat,
        ;
        lemma_mod_division_less_than_divisor(mid as int, b as int);
        lemma_mul_inequality(
            (mid % b) as int, 0x1_0000_0000_0000_0000 - 1, 0x1_0000_0000_0000_0000);
    }
    let hi = hh + lh / b + hl / b + mid / b;
    proof {
        lemma_wmul_recombine(
            x as nat, y as nat, xh as nat, xl as nat, yh as nat, yl as nat, ll as nat,
            lh as nat, hl as nat, hh as nat, mid as nat, hi as nat, lo as nat);
    }
    (hi, lo)
}

/// Products of 64-bit digits stay below `2^128`.
proof fn lemma_quarter_products(xl: nat, xh: nat, yl: nat, yh: nat)
    requires
        xl < 0x1_0000_0000_0000_0000nat,
        xh < 0x1_0000_0000_0000_0000nat,
        yl < 0x1_0000_0000_0000_0000nat,
        yh < 0x1_0000_0000_0000_0000nat,
    ensures
        xl * yl <= 0xFFFF_FFFF_FFFF_FFFFnat * 0xFFFF_FFFF_FFFF_FFFFnat,
        xl * yh <= 0xFFFF_FFFF_FFFF_FFFFnat * 0xFFFF_FFFF_FFFF_FFFFnat,
        xh * yl <= 0xFFFF_FFFF_FFFF_FFFFnat * 0xFFFF_FFFF_FFFF_FFFFnat,
        xh * yh <= 0xFFFF_FFFF_FFFF_FFFFnat * 0xFFFF_FFFF_FFFF_FFFFnat,
        0xFFFF_FFFF_FFFF_FFFFnat * 0xFFFF_FFFF_FFFF_FFFFnat < p128(),
{
    let m = 0xFFFF_FFFF_FFFF_FFFFnat;
    lemma_mul_inequality(xl as int, m as int, yl as int);
    lemma_mul_inequality(yl as int, m as int, m as int);
    lemma_mul_inequality(xl as int, m as int, yh as int);
    lemma_mul_inequality(yh as int, m as int, m as int);
    lemma_mul_inequality(xh as int, m as int, yl as int);
    lemma_mul_inequality(xh as int, m as int, yh as int);
    assert(xl * yl <= m * yl && m * yl == yl * m) by (nonlinear_arith)
        requires
            xl <= m && 0 <= yl,
    ;
    assert(xl * yh <= m * yh && m * yh == yh * m) by (nonlinear_arith)
        requires
            xl <= m && 0 <= yh,
    ;
    assert(xh * yl <= m * yl) by (nonlinear_arith)
        requires
            xh <= m && 0 <= yl,
    ;
    assert(xh * yh <= m * yh) by (nonlinear_arith)
        requires
            xh <= m && 0 <= yh,
    ;
}

/// Dividing a 64-by-64-bit product by `2^64` leaves at most `2^64 - 2`.
proof fn lemma_digit_div_bounds(ll: nat, lh: nat, hl: nat)
    requires
        ll <= 0xFFFF_FFFF_FFFF_FFFFnat * 0xFFFF_FFFF_FFFF_FFFFnat,
        lh <= 0xFFFF_FFFF_FFFF_FFFFnat * 0xFFFF_FFFF_FFFF_FFFFnat,
        hl <= 0xFFFF_FFFF_FFFF_FFFFnat * 0xFFFF_FFFF_FFFF_FFFFnat,
    ensures
        ll / 0x1_0000_0000_0000_0000nat <= 0x1_0000_0000_0000_0000nat - 2,
        lh / 0x1_0000_0000_0000_0000nat <= 0x1_0000_0000_0000_0000nat - 2,
        hl / 0x1_0000_0000_0000_0000nat <= 0x1_0000_0000_0000_0000nat - 2,
{
    let b: int = 0x1_0000_0000_0000_0000;
    let m: int = 0xFFFF_FFFF_FFFF_FFFF;
    lemma_fundamental_div_mod_converse(m * m, b, b - 2, 1);
    lemma_div_is_ordered(ll as int, m * m, b);
    lemma_div_is_ordered(lh as int, m * m, b);
    lemma_div_is_ordered(hl as int, m * m, b);
}

/// The carry-save recombination in `wmul` reproduces the product.
proof fn lemma_wmul_recombine(
    x: nat, y: nat, xh: nat, xl: nat, yh: nat, yl: nat, ll: nat, lh: nat, hl: nat, hh: nat,
    mid: nat, hi: nat, lo: nat,
)
    requires
        xl == x % 0x1_0000_0000_0000_0000nat,
        xh == x / 0x1_0000_0000_0000_0000nat,
        yl == y % 0x1_0000_0000_0000_0000nat,
        yh == y / 0x1_0000_0000_0000_0000nat,
        ll == xl * yl,
        lh == xl * yh,
        hl == xh * yl,
        hh == xh * yh,
        mid == ll / 0x1_0000_0000_0000_0000nat + lh % 0x1_0000_0000_0000_0000nat + hl
            % 0x1_0000_0000_0000_0000nat,
        lo == ll % 0x1_0000_0000_0000_0000nat + (mid % 0x1_0000_0000_0000_0000nat)
            * 0x1_0000_0000_0000_0000nat,
        hi == hh + lh / 0x1_0000_0000_0000_0000nat + hl / 0x1_0000_0000_0000_0000nat + mid
            / 0x1_0000_0000_0000_0000nat,
    ensures
        x * y == hi * p128() + lo,
{
    let b = 0x1_0000_0000_0000_0000nat;
    lemma_fundamental_div_mod(x as int, b as int);
    lemma_fundamental_div_mod(y as int, b as int);
    lemma_fundamental_div_mod(ll as int, b as int);
    lemma_fundamental_div_mod(lh as int, b as int);
    lemma_fundamental_div_mod(hl as int, b as int);
    lemma_fundamental_div_mod(mid as int, b as int);
    assert((xh * b + xl) * (yh * b + yl) == (xh * b) * (yh * b) + (xh * b) * yl + xl * (yh * b) + xl
        * yl) by (nonlinear_arith);
    assert((xh * b) * (yh * b) == (xh * yh) * (b * b)) by (nonlinear_arith);
    assert((xh * b) * yl == (xh * yl) * b) by (nonlinear_arith);
    assert(xl * (yh * b) == (xl * yh) * b) by (nonlinear_arith);
    assert(x * y == (xh * b + xl) * (yh * b + yl));
    assert(x * y == hh * (b * b) + (lh + hl) * b + ll) by {
        assert((lh + hl) * b == lh * b + hl * b) by (nonlinear_arith);
    }
    assert(p128() == b * b);
    assert((lh + hl) * b == lh * b + hl * b) by (nonlinear_arith);
    assert(lh * b == (lh / b) * (b * b) + (lh % b) * b) by (nonlinear_arith)
        requires
            lh == (lh / b) * b + lh % b,
    ;
    assert(hl * b == (hl / b) * (b * b) + (hl % b) * b) by (nonlinear_arith)
        requires
            hl == (hl / b) * b + hl % b,
    ;
    assert(mid * b == (mid / b) * (b * b) + (mid % b) * b) by (nonlinear_arith)
        requires
            mid == (mid / b) * b + mid % b,
    ;
    assert(hi * (b * b) == hh * (b * b) + (lh / b) * (b * b) + (hl / b) * (b * b) + (mid / b) * (b
        * b)) by (nonlinear_arith)
        requires
            hi == hh + lh / b + hl / b + mid / b,
    ;
}

/// Comparing by halves agrees with comparing values.
proof fn lemma_halves_order(a: U256, b: U256)
    ensures
        a.hi < b.hi ==> a@ < b@,
        a.hi == b.hi ==> (a@ < b@ <==> a.lo < b.lo),
{
    if a.hi < b.hi {
        assert((a.hi + 1) as nat * p128() <= b.hi as nat * p128()) by {
            lemma_mul_inequality((a.hi + 1) as int, b.hi as int, p128() as int);
        }
    }
}

} // verus!
