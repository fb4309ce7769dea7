//! Exact fractions, compared without rounding.

use vstd::prelude::*;

verus! {

/// The fraction `num / den`. It denotes a number only when `den > 0`; the
/// order below is the order of those numbers.
#[derive(Debug, Clone, Copy, PartialEq, Eq, Structural)]
pub struct Ratio {
    pub num: i128,
    pub den: u64,
}

/// 2^64.
pub open spec fn two_pow_64() -> int {
    0x1_0000_0000_0000_0000
}

/// The product `n * d` split into a high part and a low 64-bit part.
fn mul_wide(n: u128, d: u64) -> (r: (u128, u64))
    ensures
        r.0 * two_pow_64() + r.1 == n * d,
{
    let nh: u128 = n / 0x1_0000_0000_0000_0000u128;
    let nl: u128 = n % 0x1_0000_0000_0000_0000u128;
    assert(nl * d <= 0xffff_ffff_ffff_ffff * 0xffff_ffff_ffff_ffff) by (nonlinear_arith)
        requires
            0 <= nl <= 0xffff_ffff_ffff_ffff,
            0 <= d <= 0xffff_ffff_ffff_ffff,
    ;
    assert(nh * d <= 0xffff_ffff_ffff_ffff * 0xffff_ffff_ffff_ffff) by (nonlinear_arith)
        requires
            0 <= nh <= 0xffff_ffff_ffff_ffff,
            0 <= d <= 0xffff_ffff_ffff_ffff,
    ;
    let p: u128 = nl * (d as u128);
    let ph: u128 = p / 0x1_0000_0000_0000_0000u128;
    let pl: u128 = p % 0x1_0000_0000_0000_0000u128;
    let hi: u128 = nh * (d as u128) + ph;
    assert(hi * two_pow_64() + pl == n * d) by (nonlinear_arith)
        requires
            n == nh * two_pow_64() + nl,
            p == nl * d,
            p == ph * two_pow_64() + pl,
            hi == nh * d + ph,
    ;
    (hi, pl as u64)
}

/// The absolute value of `x`, which always fits the unsigned type.
fn magnitude(x: i128) -> (r: u128)
    ensures
        r == if x >= 0 { x as int } else { -(x as int) },
{
    if x >= 0 {
        x as u128
    } else {
        ((-(x + 1)) as u128) + 1
    }
}

impl Ratio {
    /// `self < other` as numbers, by cross-multiplication.
    pub open spec fn spec_lt(self, other: Ratio) -> bool {
        self.num * other.den < other.num * self.den
    }

    /// `self <= other` as numbers.
    pub open spec fn spec_le(self, other: Ratio) -> bool {
        self.num * other.den <= other.num * self.den
    }

    /// The two fractions are the same number.
    pub open spec fn same_value(self, other: Ratio) -> bool {
        self.num * other.den == other.num * self.den
    }

    /// The fraction is strictly positive.
    pub open spec fn positive(self) -> bool {
        self.num > 0 && self.den > 0
    }

    /// The larger of the two; `self` on a tie.
    pub open spec fn spec_max(self, other: Ratio) -> Ratio {
        if self.spec_lt(other) {
            other
        } else {
            self
        }
    }

    /// The smaller of the two; `self` on a tie.
    pub open spec fn spec_min(self, other: Ratio) -> Ratio {
        if other.spec_lt(self) {
            other
        } else {
            self
        }
    }

    /// Whether `self` is strictly smaller than `other`, decided exactly for
    /// every pair of values.
    pub fn lt(&self, other: &Ratio) -> (r: bool)
        ensures
            r == self.spec_lt(*other),
    {
        let (h1, l1) = mul_wide(magnitude(self.num), other.den);
        let (h2, l2) = mul_wide(magnitude(other.num), self.den);
        let ghost m1: int = h1 * two_pow_64() + l1;
        let ghost m2: int = h2 * two_pow_64() + l2;
        let below = h1 < h2 || (h1 == h2 && l1 < l2);
        let above = h2 < h1 || (h1 == h2 && l2 < l1);
        assert(below == (m1 < m2) && above == (m2 < m1)) by (nonlinear_arith)
            requires
                m1 == h1 * two_pow_64() + l1,
                m2 == h2 * two_pow_64() + l2,
                0 <= l1 < two_pow_64(),
                0 <= l2 < two_pow_64(),
                below == (h1 < h2 || (h1 == h2 && l1 < l2)),
                above == (h2 < h1 || (h1 == h2 && l2 < l1)),
        ;
        proof {
            let a: int = self.num as int;
            let b: int = other.den as int;
            let c: int = other.num as int;
            let d: int = self.den as int;
            assert((-a) * b == -(a * b)) by (nonlinear_arith);
            assert((-c) * d == -(c * d)) by (nonlinear_arith);
        }
        if self.num >= 0 {
            if other.num >= 0 {
                below
            } else {
                false
            }
        } else {
            if other.num >= 0 {
                !(h1 == 0 && l1 == 0 && h2 == 0 && l2 == 0)
            } else {
                above
            }
        }
    }

    /// Whether `self` is at most `other`.
    pub fn le(&self, other: &Ratio) -> (r: bool)
        ensures
            r == self.spec_le(*other),
    {
        !other.lt(self)
    }

    /// Whether the fraction equals `num / den` as a number.
    pub fn equals_fraction(&self, num: i128, den: u64) -> (r: bool)
        ensures
            r == (self.num * den == num * self.den),
    {
        let o = Ratio { num, den };
        !self.lt(&o) && !o.lt(self)
    }
}

/// The order of fractions with positive denominators is transitive.
pub proof fn lemma_le_trans(a: Ratio, b: Ratio, c: Ratio)
    requires
        a.den > 0,
        b.den > 0,
        c.den > 0,
        a.spec_le(b),
        b.spec_le(c),
    ensures
        a.spec_le(c),
{
    let an = a.num as int;
    let ad = a.den as int;
    let bn = b.num as int;
    let bd = b.den as int;
    let cn = c.num as int;
    let cd = c.den as int;
    assert(an * bd * cd <= bn * ad * cd) by (nonlinear_arith)
        requires
            an * bd <= bn * ad,
            cd > 0,
    ;
    assert(bn * cd * ad <= cn * bd * ad) by (nonlinear_arith)
        requires
            bn * cd <= cn * bd,
            ad > 0,
    ;
    assert(an * cd <= cn * ad) by (nonlinear_arith)
        requires
            an * bd * cd <= bn * ad * cd,
            bn * cd * ad <= cn * bd * ad,
            bd > 0,
    ;
}

} // verus!
