//! Exact 256-bit unsigned integers.
//!
//! Circuit signals are bound to non-negative integers that can exceed
//! 128 bits: the in-circuit transform defers modular reduction, so a
//! signal may grow to roughly `2^LOG_N * q^(LOG_N + 1)`.  `Wide` holds
//! such a value in four 64-bit limbs and supports exactly the
//! operations that circuit construction and evaluation need: addition,
//! subtraction, multiplication by a 64-bit factor, and division with
//! remainder by a 64-bit divisor.  Every operation is specified
//! against the mathematical value `val()` of the limbs.

use vstd::prelude::*;
use vstd::arithmetic::div_mod::{
    lemma_fundamental_div_mod, lemma_mod_division_less_than_divisor, lemma_multiply_divide_lt,
};
use vstd::arithmetic::mul::lemma_mul_upper_bound;

verus! {

/// 2^64, the limb radix.
pub const RADIX: u128 = 0x1_0000_0000_0000_0000;

/// A 256-bit unsigned integer in four little-endian 64-bit limbs.
#[derive(Clone, Copy, Debug, PartialEq, Eq, Structural)]
pub struct Wide {
    pub l0: u64,
    pub l1: u64,
    pub l2: u64,
    pub l3: u64,
}

impl Wide {
    /// The integer this value stands for.
    pub open spec fn val(self) -> nat {
        (self.l0 + self.l1 * 0x1_0000_0000_0000_0000 + self.l2
            * 0x1_0000_0000_0000_0000_0000_0000_0000_0000 + self.l3
            * 0x1_0000_0000_0000_0000_0000_0000_0000_0000_0000_0000_0000_0000) as nat
    }

    /// Zero.
    pub fn zero() -> (r: Wide)
        ensures
            r.val() == 0,
    {
        Wide { l0: 0, l1: 0, l2: 0, l3: 0 }
    }

    /// The value of a single 64-bit integer.
    pub fn from_u64(x: u64) -> (r: Wide)
        ensures
            r.val() == x,
    {
        Wide { l0: x, l1: 0, l2: 0, l3: 0 }
    }

    /// The value of a single 128-bit integer.
    pub fn from_u128(x: u128) -> (r: Wide)
        ensures
            r.val() == x,
    {
        proof {
            lemma_split128(x);
        }
        Wide { l0: (x % RADIX) as u64, l1: (x / RADIX) as u64, l2: 0, l3: 0 }
    }

    /// The value, when it fits in 64 bits.
    pub fn to_u64(&self) -> (r: u64)
        requires
            self.val() < 0x1_0000_0000_0000_0000,
        ensures
            r == self.val(),
    {
        self.l0
    }

    /// The value, when it fits in 128 bits.
    pub fn to_u128(&self) -> (r: u128)
        requires
            self.val() < 0x1_0000_0000_0000_0000_0000_0000_0000_0000,
        ensures
            r == self.val(),
    {
        self.l0 as u128 + (self.l1 as u128) * RADIX
    }

    /// Whether two values are equal.
    pub fn eq_val(&self, other: &Wide) -> (r: bool)
        ensures
            r <==> self.val() == other.val(),
    {
        let r = self.l0 == other.l0 && self.l1 == other.l1 && self.l2 == other.l2 && self.l3
            == other.l3;
        proof {
            if self.val() == other.val() {
                lemma_val_injective(*self, *other);
            }
        }
        r
    }

    /// Whether this value is strictly below another.
    pub fn lt(&self, other: &Wide) -> (r: bool)
        ensures
            r <==> self.val() < other.val(),
    {
        if self.l3 != other.l3 {
            self.l3 < other.l3
        } else if self.l2 != other.l2 {
            self.l2 < other.l2
        } else if self.l1 != other.l1 {
            self.l1 < other.l1
        } else {
            self.l0 < other.l0
        }
    }

    /// Whether this value is at most another.
    pub fn le(&self, other: &Wide) -> (r: bool)
        ensures
            r <==> self.val() <= other.val(),
    {
        !other.lt(self)
    }

    /// The sum of two values.
    pub fn add_w(&self, other: &Wide) -> (r: Wide)
        requires
            self.val() + other.val()
                < 0x1_0000_0000_0000_0000_0000_0000_0000_0000_0000_0000_0000_0000_0000_0000_0000_0000,
        ensures
            r.val() == self.val() + other.val(),
    {
        let s0: u128 = self.l0 as u128 + other.l0 as u128;
        let r0: u64 = (s0 % RADIX) as u64;
        let c0: u128 = s0 / RADIX;
        let s1: u128 = self.l1 as u128 + other.l1 as u128 + c0;
        let r1: u64 = (s1 % RADIX) as u64;
        let c1: u128 = s1 / RADIX;
        let s2: u128 = self.l2 as u128 + other.l2 as u128 + c1;
        let r2: u64 = (s2 % RADIX) as u64;
        let c2: u128 = s2 / RADIX;
        let s3: u128 = self.l3 as u128 + other.l3 as u128 + c2;
        let r3: u64 = (s3 % RADIX) as u64;
        let c3: u128 = s3 / RADIX;
        proof {
            lemma_split128(s0);
            lemma_split128(s1);
            lemma_split128(s2);
            lemma_split128(s3);
            let r = Wide { l0: r0, l1: r1, l2: r2, l3: r3 };
            assert(r.val() + c3 * 0x1_0000_0000_0000_0000_0000_0000_0000_0000_0000_0000_0000_0000_0000_0000_0000_0000
                == self.val() + other.val());
        }
        Wide { l0: r0, l1: r1, l2: r2, l3: r3 }
    }

    /// The difference of two values.
    pub fn sub_w(&self, other: &Wide) -> (r: Wide)
        requires
            other.val() <= self.val(),
        ensures
            r.val() == self.val() - other.val(),
    {
        let (r0, b0) = sub_limb(self.l0, other.l0, 0);
        let (r1, b1) = sub_limb(self.l1, other.l1, b0);
        let (r2, b2) = sub_limb(self.l2, other.l2, b1);
        let (r3, b3) = sub_limb(self.l3, other.l3, b2);
        proof {
            let r = Wide { l0: r0, l1: r1, l2: r2, l3: r3 };
            assert(r.val() == self.val() - other.val() + b3
                * 0x1_0000_0000_0000_0000_0000_0000_0000_0000_0000_0000_0000_0000_0000_0000_0000_0000);
            if b3 == 1 {
                assert(false);
            }
        }
        Wide { l0: r0, l1: r1, l2: r2, l3: r3 }
    }

    /// The product with a 64-bit factor.
    pub fn mul_small(&self, m: u64) -> (r: Wide)
        requires
            self.val() * m
                < 0x1_0000_0000_0000_0000_0000_0000_0000_0000_0000_0000_0000_0000_0000_0000_0000_0000,
        ensures
            r.val() == self.val() * m,
    {
        proof {
            lemma_mul_upper_bound(self.l0 as int, 0xffff_ffff_ffff_ffff, m as int, 0xffff_ffff_ffff_ffff);
            lemma_mul_upper_bound(self.l1 as int, 0xffff_ffff_ffff_ffff, m as int, 0xffff_ffff_ffff_ffff);
            lemma_mul_upper_bound(self.l2 as int, 0xffff_ffff_ffff_ffff, m as int, 0xffff_ffff_ffff_ffff);
            lemma_mul_upper_bound(self.l3 as int, 0xffff_ffff_ffff_ffff, m as int, 0xffff_ffff_ffff_ffff);
        }
        let p0: u128 = self.l0 as u128 * m as u128;
        let p1: u128 = self.l1 as u128 * m as u128;
        let p2: u128 = self.l2 as u128 * m as u128;
        let p3: u128 = self.l3 as u128 * m as u128;
        let r0: u64 = (p0 % RADIX) as u64;
        let c0: u128 = p0 / RADIX;
        let s1: u128 = p1 + c0;
        let r1: u64 = (s1 % RADIX) as u64;
        let c1: u128 = s1 / RADIX;
        let s2: u128 = p2 + c1;
        let r2: u64 = (s2 % RADIX) as u64;
        let c2: u128 = s2 / RADIX;
        let s3: u128 = p3 + c2;
        let r3: u64 = (s3 % RADIX) as u64;
        let c3: u128 = s3 / RADIX;
        proof {
            lemma_split128(p0);
            lemma_split128(s1);
            lemma_split128(s2);
            lemma_split128(s3);
            let r = Wide { l0: r0, l1: r1, l2: r2, l3: r3 };
            lemma_val_mul_expand(*self, m as int);
            assert(r.val() + c3 * 0x1_0000_0000_0000_0000_0000_0000_0000_0000_0000_0000_0000_0000_0000_0000_0000_0000
                == self.val() * m);
        }
        Wide { l0: r0, l1: r1, l2: r2, l3: r3 }
    }

    /// The quotient and remainder by a 64-bit divisor.
    pub fn divmod_small(&self, d: u64) -> (r: (Wide, u64))
        requires
            d > 0,
        ensures
            r.0.val() * d + r.1 == self.val(),
            r.1 < d,
    {
        let (q3, rm3) = divmod_limb(0, self.l3, d);
        let (q2, rm2) = divmod_limb(rm3, self.l2, d);
        let (q1, rm1) = divmod_limb(rm2, self.l1, d);
        let (q0, rm0) = divmod_limb(rm1, self.l0, d);
        proof {
            let q = Wide { l0: q0, l1: q1, l2: q2, l3: q3 };
            lemma_val_mul_expand(q, d as int);
        }
        (Wide { l0: q0, l1: q1, l2: q2, l3: q3 }, rm0)
    }
}

/// Splits a 128-bit value into its high and low 64-bit halves.
proof fn lemma_split128(x: u128)
    ensures
        x == (x / RADIX) * 0x1_0000_0000_0000_0000 + (x % RADIX),
        x / RADIX < 0x1_0000_0000_0000_0000,
        x % RADIX < 0x1_0000_0000_0000_0000,
{
    lemma_fundamental_div_mod(x as int, RADIX as int);
    lemma_mod_division_less_than_divisor(x as int, RADIX as int);
    lemma_multiply_divide_lt(x as int, 0x1_0000_0000_0000_0000, RADIX as int);
}

/// The value of a `Wide` times a factor, limb by limb.
proof fn lemma_val_mul_expand(w: Wide, m: int)
    requires
        m >= 0,
    ensures
        w.val() * m == w.l0 * m + (w.l1 * m) * 0x1_0000_0000_0000_0000 + (w.l2 * m)
            * 0x1_0000_0000_0000_0000_0000_0000_0000_0000 + (w.l3 * m)
            * 0x1_0000_0000_0000_0000_0000_0000_0000_0000_0000_0000_0000_0000,
{
    let p1: int = 0x1_0000_0000_0000_0000int;
    let p2: int = 0x1_0000_0000_0000_0000_0000_0000_0000_0000int;
    let p3: int = 0x1_0000_0000_0000_0000_0000_0000_0000_0000_0000_0000_0000_0000int;
    let a: int = w.l0 as int;
    let b: int = w.l1 * p1;
    let c: int = w.l2 * p2;
    let e: int = w.l3 * p3;
    vstd::arithmetic::mul::lemma_mul_is_distributive_add_other_way(m, a + b + c, e);
    vstd::arithmetic::mul::lemma_mul_is_distributive_add_other_way(m, a + b, c);
    vstd::arithmetic::mul::lemma_mul_is_distributive_add_other_way(m, a, b);
    lemma_mul_shift(w.l1 as int, p1, m);
    lemma_mul_shift(w.l2 as int, p2, m);
    lemma_mul_shift(w.l3 as int, p3, m);
}

/// Reorders a double product: `(a * c) * d == (a * d) * c`.
proof fn lemma_mul_shift(a: int, c: int, d: int)
    ensures
        (a * c) * d == (a * d) * c,
{
    vstd::arithmetic::mul::lemma_mul_is_associative(a, c, d);
    vstd::arithmetic::mul::lemma_mul_is_commutative(c, d);
    vstd::arithmetic::mul::lemma_mul_is_associative(a, d, c);
}

/// Equal values have equal limbs.
proof fn lemma_val_injective(a: Wide, b: Wide)
    requires
        a.val() == b.val(),
    ensures
        a.l0 == b.l0 && a.l1 == b.l1 && a.l2 == b.l2 && a.l3 == b.l3,
{
}

/// One limb of a borrowing subtraction: `a - b - borrow_in` with the
/// new borrow.
fn sub_limb(a: u64, b: u64, borrow: u64) -> (r: (u64, u64))
    requires
        borrow <= 1,
    ensures
        r.1 <= 1,
        r.0 == a - b - borrow + r.1 * 0x1_0000_0000_0000_0000,
{
    let bb: u128 = b as u128 + borrow as u128;
    let aa: u128 = a as u128;
    if aa >= bb {
        ((aa - bb) as u64, 0)
    } else {
        ((aa + RADIX - bb) as u64, 1)
    }
}

/// One limb of a long division: divides `rem_in * 2^64 + limb` by
/// `d`, where `rem_in` is the remainder carried from the limb above.
fn divmod_limb(rem_in: u64, limb: u64, d: u64) -> (r: (u64, u64))
    requires
        d > 0,
        rem_in < d,
    ensures
        r.0 * d + r.1 == rem_in * 0x1_0000_0000_0000_0000 + limb,
        r.1 < d,
{
    proof {
        lemma_mul_upper_bound(rem_in as int, 0xffff_ffff_ffff_fffe, 0x1_0000_0000_0000_0000, 0x1_0000_0000_0000_0000);
    }
    let cur: u128 = (rem_in as u128) * RADIX + limb as u128;
    proof {
        lemma_fundamental_div_mod(cur as int, d as int);
        lemma_mod_division_less_than_divisor(cur as int, d as int);
        assert(cur < d * 0x1_0000_0000_0000_0000) by (nonlinear_arith)
            requires
                rem_in < d,
                cur == rem_in * 0x1_0000_0000_0000_0000 + limb,
                limb < 0x1_0000_0000_0000_0000,
        ;
        lemma_multiply_divide_lt(cur as int, d as int, 0x1_0000_0000_0000_0000);
    }
    let q: u64 = (cur / d as u128) as u64;
    let rm: u64 = (cur % d as u128) as u64;
    proof {
        vstd::arithmetic::mul::lemma_mul_is_commutative(q as int, d as int);
    }
    (q, rm)
}

} // verus!
