//! Quotients in double precision, computed on integers.
//!
//! Compaction compares ratios of sizes that are rounded to the 53-bit significand of a
//! binary64 number, nearest value first and ties to the even significand. A positive rounded
//! value is kept here as a pair `(m, e)` that stands for `m * 2^e`, with `m` between `2^52` and
//! `2^53`. All the ratios lie far inside the exponent range of binary64.

use vstd::arithmetic::div_mod::{
    lemma_div_denominator, lemma_div_multiples_vanish_quotient, lemma_fundamental_div_mod,
};
use vstd::arithmetic::power2::{
    lemma2_to64, lemma2_to64_rest, lemma_pow2_adds, lemma_pow2_pos, lemma_pow2_strictly_increases,
    lemma_pow2_unfold, pow2,
};
use vstd::prelude::*;

verus! {

/// The least significand of a rounded value: `2^52`.
pub const MIN_SIGNIFICAND: u64 = 0x10_0000_0000_0000;

/// The value `m * 2^e`.
pub struct DoubleView {
    pub m: nat,
    pub e: int,
}

pub open spec fn scaled_num(num: nat, e: int) -> nat {
    if e >= 0 {
        num
    } else {
        num * pow2((-e) as nat)
    }
}

pub open spec fn scaled_den(den: nat, e: int) -> nat {
    if e >= 0 {
        den * pow2(e as nat)
    } else {
        den
    }
}

/// The whole part of `num / den / 2^e`.
pub open spec fn quotient_at(num: nat, den: nat, e: int) -> nat {
    scaled_num(num, e) / scaled_den(den, e)
}

/// `e` is the exponent at which the whole part of the quotient has exactly 53 bits.
pub open spec fn is_exponent(num: nat, den: nat, e: int) -> bool {
    MIN_SIGNIFICAND <= quotient_at(num, den, e) < 2 * MIN_SIGNIFICAND
}

/// The quotient at exponent `e`, rounded to the nearest whole number, ties to even.
pub open spec fn significand_at(num: nat, den: nat, e: int) -> nat {
    let q = quotient_at(num, den, e);
    let r = scaled_num(num, e) % scaled_den(den, e);
    if 2 * r < scaled_den(den, e) {
        q
    } else if 2 * r > scaled_den(den, e) {
        q + 1
    } else {
        q + q % 2
    }
}

/// `num / den` rounded to double precision.
pub open spec fn rounded(num: nat, den: nat) -> DoubleView {
    let e = choose|e: int| is_exponent(num, den, e);
    DoubleView { m: significand_at(num, den, e), e }
}

/// `a <= b` as numbers.
pub open spec fn double_le(a: DoubleView, b: DoubleView) -> bool {
    if a.e <= b.e {
        a.m <= b.m * pow2((b.e - a.e) as nat)
    } else {
        a.m * pow2((a.e - b.e) as nat) <= b.m
    }
}

/// The whole number `n` rounded to double precision, which is again a whole number.
pub open spec fn double_of(n: nat) -> nat {
    if n <= 2 * MIN_SIGNIFICAND {
        n
    } else {
        rounded(n, 1).m * pow2(rounded(n, 1).e as nat)
    }
}

/// `100.0 * d`, rounded.
pub open spec fn times_100(d: DoubleView) -> DoubleView {
    DoubleView { m: rounded(d.m * 100, 1).m, e: rounded(d.m * 100, 1).e + d.e }
}

/// `d / 100.0`, rounded.
pub open spec fn over_100(d: DoubleView) -> DoubleView {
    DoubleView { m: rounded(d.m, 100).m, e: rounded(d.m, 100).e + d.e }
}

pub(crate) proof fn lemma_scaled_den_pos(den: nat, e: int)
    requires
        den > 0,
    ensures
        scaled_den(den, e) > 0,
{
    if e >= 0 {
        lemma_pow2_pos(e as nat);
        assert(den * pow2(e as nat) > 0) by (nonlinear_arith)
            requires
                den > 0,
                pow2(e as nat) > 0,
        ;
    }
}

pub(crate) proof fn lemma_quotient_halves(num: nat, den: nat, e: int)
    requires
        den > 0,
    ensures
        quotient_at(num, den, e + 1) == quotient_at(num, den, e) / 2,
{
    lemma_scaled_den_pos(den, e);
    if e >= 0 {
        lemma_pow2_unfold((e + 1) as nat);
        assert(den * pow2((e + 1) as nat) == (den * pow2(e as nat)) * 2) by (nonlinear_arith)
            requires
                pow2((e + 1) as nat) == 2 * pow2(e as nat),
        ;
        lemma_div_denominator(num as int, (den * pow2(e as nat)) as int, 2);
    } else {
        lemma_pow2_unfold((-e) as nat);
        lemma2_to64();
        let half = num * pow2((-e - 1) as nat);
        assert(scaled_num(num, e + 1) == half) by {
            if e == -1 {
                assert(num * 1 == num);
            }
        }
        assert(scaled_den(den, e + 1) == den) by {
            if e == -1 {
                assert(den * 1 == den);
            }
        }
        assert(scaled_num(num, e) == 2 * half) by (nonlinear_arith)
            requires
                scaled_num(num, e) == num * pow2((-e) as nat),
                pow2((-e) as nat) == 2 * pow2((-e - 1) as nat),
                half == num * pow2((-e - 1) as nat),
        ;
        lemma_div_denominator((2 * half) as int, den as int, 2);
        lemma_div_multiples_vanish_quotient(2, half as int, den as int);
    }
}

pub(crate) proof fn lemma_quotient_decreases(num: nat, den: nat, e1: int, e2: int)
    requires
        den > 0,
        e1 <= e2,
    ensures
        quotient_at(num, den, e2) <= quotient_at(num, den, e1),
    decreases e2 - e1,
{
    if e1 < e2 {
        lemma_quotient_halves(num, den, e1);
        lemma_quotient_decreases(num, den, e1 + 1, e2);
    }
}

proof fn lemma_exponent_unique(num: nat, den: nat, e1: int, e2: int)
    requires
        den > 0,
        is_exponent(num, den, e1),
        is_exponent(num, den, e2),
    ensures
        e1 == e2,
{
    if e1 < e2 {
        lemma_quotient_halves(num, den, e1);
        lemma_quotient_decreases(num, den, e1 + 1, e2);
    } else if e2 < e1 {
        lemma_quotient_halves(num, den, e2);
        lemma_quotient_decreases(num, den, e2 + 1, e1);
    }
}

/// A 64-bit whole number rounds with an exponent under 12.
proof fn lemma_exponent_of_whole(n: nat, e: int)
    requires
        0 < n <= u64::MAX,
        is_exponent(n, 1, e),
    ensures
        e < 12,
{
    if e >= 12 {
        lemma_quotient_decreases(n, 1, 12, e);
        lemma2_to64();
        assert(scaled_den(1, 12) == 4096);
        assert(quotient_at(n, 1, 12) == n / 4096);
    }
}

/// The rounded quotient is fixed by the one exponent at which the quotient has 53 bits.
pub proof fn lemma_rounded_at(num: nat, den: nat, e: int)
    requires
        den > 0,
        is_exponent(num, den, e),
    ensures
        rounded(num, den) == (DoubleView { m: significand_at(num, den, e), e }),
{
    let chosen = choose|e: int| is_exponent(num, den, e);
    lemma_exponent_unique(num, den, chosen, e);
}

/// The number over a power of two that is not above its own.
pub open spec fn over_power(d: DoubleView, k: int) -> nat {
    d.m * pow2((d.e - k) as nat)
}

pub(crate) proof fn lemma_double_le_over_power(a: DoubleView, b: DoubleView, k: int)
    requires
        k <= a.e,
        k <= b.e,
    ensures
        double_le(a, b) == (over_power(a, k) <= over_power(b, k)),
{
    if a.e <= b.e {
        let common = pow2((a.e - k) as nat);
        let gap = pow2((b.e - a.e) as nat);
        lemma_pow2_pos((a.e - k) as nat);
        lemma_pow2_adds((b.e - a.e) as nat, (a.e - k) as nat);
        assert((a.m <= b.m * gap) == (a.m * common <= b.m * (gap * common))) by (nonlinear_arith)
            requires
                common > 0,
        ;
    } else {
        let common = pow2((b.e - k) as nat);
        let gap = pow2((a.e - b.e) as nat);
        lemma_pow2_pos((b.e - k) as nat);
        lemma_pow2_adds((a.e - b.e) as nat, (b.e - k) as nat);
        assert((a.m * gap <= b.m) == (a.m * (gap * common) <= b.m * common)) by (nonlinear_arith)
            requires
                common > 0,
        ;
    }
}

/// Of two numbers one is at most the other.
pub proof fn lemma_double_le_total(a: DoubleView, b: DoubleView)
    ensures
        double_le(a, b) || double_le(b, a),
{
    let k = if a.e <= b.e {
        a.e
    } else {
        b.e
    };
    lemma_double_le_over_power(a, b, k);
    lemma_double_le_over_power(b, a, k);
}

/// The order of rounded numbers is transitive.
pub proof fn lemma_double_le_transitive(a: DoubleView, b: DoubleView, c: DoubleView)
    requires
        double_le(a, b),
        double_le(b, c),
    ensures
        double_le(a, c),
{
    let ab = if a.e <= b.e {
        a.e
    } else {
        b.e
    };
    let k = if ab <= c.e {
        ab
    } else {
        c.e
    };
    lemma_double_le_over_power(a, b, k);
    lemma_double_le_over_power(b, c, k);
    lemma_double_le_over_power(a, c, k);
}

/// A positive number rounded to double precision.
#[derive(Clone, Copy, Debug)]
pub struct Double {
    m: u64,
    e: i32,
}

impl View for Double {
    type V = DoubleView;

    closed spec fn view(&self) -> DoubleView {
        DoubleView { m: self.m as nat, e: self.e as int }
    }
}

impl Double {
    /// The significand has 53 bits, or is the power of two above them.
    pub open spec fn wf(&self) -> bool {
        &&& MIN_SIGNIFICAND <= self@.m <= 2 * MIN_SIGNIFICAND
        &&& -1000 <= self@.e <= 1000
    }

    /// `num / den` in double precision.
    pub fn quotient(num: u128, den: u128) -> (d: Double)
        requires
            0 < num < 0x4_0000_0000_0000_0000,
            0 < den < 0x4_0000_0000_0000_0000,
        ensures
            d@ == rounded(num as nat, den as nat),
            d.wf(),
            -200 <= d@.e <= 200,
            is_exponent(num as nat, den as nat, d@.e),
    {
        let mut n: u128 = num;
        let mut d: u128 = den;
        let mut e: i32 = 0;
        proof {
            lemma2_to64();
            assert(num * 1 == num);
            assert(den * 1 == den);
        }
        while n / d < MIN_SIGNIFICAND as u128
            invariant
                0 < num < 0x4_0000_0000_0000_0000,
                0 < den < 0x4_0000_0000_0000_0000,
                d == den,
                -120 <= e <= 0,
                n == scaled_num(num as nat, e as int),
                d == scaled_den(den as nat, e as int),
                pow2((-e) as nat) <= n,
                e < 0 ==> n / d < 2 * MIN_SIGNIFICAND,
                n < 0x1_0000_0000_0000_0000_0000_0000_0000_0000int / 4,
            decreases 120 + e,
        {
            proof {
                lemma_pow2_unfold((-e + 1) as nat);
                lemma_quotient_halves(num as nat, den as nat, e - 1);
                lemma2_to64();
                assert(num * 1 == num);
                lemma_fundamental_div_mod(n as int, d as int);
                assert(n < MIN_SIGNIFICAND * 0x4_0000_0000_0000_0000int) by (nonlinear_arith)
                    requires
                        n == d * (n / d) + n % d,
                        n / d < MIN_SIGNIFICAND,
                        0 <= n % d < d,
                        0 < d < 0x4_0000_0000_0000_0000,
                ;
                assert(num * pow2((-e + 1) as nat) == 2 * n) by (nonlinear_arith)
                    requires
                        pow2((-e + 1) as nat) == 2 * pow2((-e) as nat),
                        n == num * pow2((-e) as nat),
                ;
                if e == -120 {
                    lemma_pow2_adds(60, 60);
                    lemma2_to64_rest();
                }
            }
            n = n * 2;
            e = e - 1;
        }
        let ghost e0 = e;
        while n / d >= 2 * (MIN_SIGNIFICAND as u128)
            invariant
                0 < num < 0x4_0000_0000_0000_0000,
                0 < den < 0x4_0000_0000_0000_0000,
                e0 < 0 ==> e == e0 && n / d < 2 * MIN_SIGNIFICAND,
                -120 <= e0 <= 0,
                e0 <= e <= 120,
                n == scaled_num(num as nat, e as int),
                d == scaled_den(den as nat, e as int),
                0 < d,
                e > 0 ==> pow2(e as nat) <= d,
                n / d >= MIN_SIGNIFICAND,
            decreases 120 - e,
        {
            proof {
                lemma_pow2_unfold((e + 1) as nat);
                lemma_fundamental_div_mod(n as int, d as int);
                assert(d * 2 * MIN_SIGNIFICAND <= n) by (nonlinear_arith)
                    requires
                        n == d * (n / d) + n % d,
                        n / d >= 2 * MIN_SIGNIFICAND,
                        0 <= n % d,
                ;
                lemma_quotient_halves(num as nat, den as nat, e as int);
                assert(den * pow2((e + 1) as nat) == 2 * d) by (nonlinear_arith)
                    requires
                        pow2((e + 1) as nat) == 2 * pow2(e as nat),
                        d == den * pow2(e as nat),
                ;
                assert(pow2((e + 1) as nat) <= den * pow2((e + 1) as nat)) by (nonlinear_arith)
                    requires
                        den > 0,
                ;
                if e == 120 {
                    lemma_pow2_adds(60, 60);
                    lemma2_to64_rest();
                }
            }
            d = d * 2;
            e = e + 1;
        }
        let q: u128 = n / d;
        let r: u128 = n % d;
        proof {
            assert(is_exponent(num as nat, den as nat, e as int));
            lemma_rounded_at(num as nat, den as nat, e as int);
        }
        let m: u128 = if r < d - r {
            q
        } else if r > d - r {
            q + 1
        } else {
            q + q % 2
        };
        Double { m: m as u64, e }
    }

    /// The whole number `n` in double precision.
    pub fn whole(n: u64) -> (rounded_n: u128)
        ensures
            rounded_n == double_of(n as nat),
            n > 0 ==> rounded_n > 0,
            rounded_n <= 0x1_0000_0000_0000_0000,
    {
        if n <= 2 * MIN_SIGNIFICAND {
            return n as u128;
        }
        let d = Double::quotient(n as u128, 1);
        proof {
            lemma2_to64();
            let e = d@.e;
            lemma_exponent_of_whole(n as nat, e);
            assert(scaled_den(1, 0) == 1);
            if e <= 0 {
                lemma_quotient_decreases(n as nat, 1, e, 0);
            }
        }
        let mut v: u128 = d.m as u128;
        let mut k: i32 = 0;
        assert(d.m * 1 == d.m);
        while k < d.e
            invariant
                0 <= k <= d.e < 12,
                d.wf(),
                v == d.m * pow2(k as nat),
            decreases d.e - k,
        {
            proof {
                lemma2_to64();
                lemma_pow2_unfold((k + 1) as nat);
                lemma_pow2_strictly_increases(k as nat, 12);
                assert(d.m * pow2(k as nat) <= 0x20_0000_0000_0000 * 4096) by (nonlinear_arith)
                    requires
                        d.m <= 0x20_0000_0000_0000,
                        pow2(k as nat) <= 4096,
                ;
                assert(d.m * pow2((k + 1) as nat) == 2 * v) by (nonlinear_arith)
                    requires
                        pow2((k + 1) as nat) == 2 * pow2(k as nat),
                        v == d.m * pow2(k as nat),
                ;
            }
            v = v * 2;
            k = k + 1;
        }
        proof {
            lemma2_to64();
            if d.e < 11 {
                lemma_pow2_strictly_increases(d.e as nat, 11);
            }
            lemma_pow2_pos(d.e as nat);
            assert(0 < d.m * pow2(d.e as nat) <= 0x20_0000_0000_0000 * 2048) by (nonlinear_arith)
                requires
                    0 < d.m <= 0x20_0000_0000_0000,
                    0 < pow2(d.e as nat) <= 2048,
            ;
        }
        v
    }

    /// `100.0` times this number.
    pub fn times_100(&self) -> (d: Double)
        requires
            self.wf(),
            -700 <= self@.e <= 700,
        ensures
            d@ == times_100(self@),
            d.wf(),
            self@.e - 200 <= d@.e <= self@.e + 200,
    {
        let d = Double::quotient(self.m as u128 * 100, 1);
        Double { m: d.m, e: d.e + self.e }
    }

    /// This number over `100.0`.
    pub fn over_100(&self) -> (d: Double)
        requires
            self.wf(),
            -700 <= self@.e <= 700,
        ensures
            d@ == over_100(self@),
            d.wf(),
            self@.e - 200 <= d@.e <= self@.e + 200,
    {
        let d = Double::quotient(self.m as u128, 100);
        Double { m: d.m, e: d.e + self.e }
    }

    /// Whether this number is at most `other`.
    pub fn is_le(&self, other: &Double) -> (le: bool)
        requires
            self.wf(),
            other.wf(),
        ensures
            le == double_le(self@, other@),
    {
        proof {
            lemma2_to64();
            if self.e < other.e {
                let gap = (other.e - self.e) as nat;
                if gap > 1 {
                    lemma_pow2_strictly_increases(1, gap);
                }
                assert(self.m <= other.m * pow2(gap)) by (nonlinear_arith)
                    requires
                        self.m <= 0x20_0000_0000_0000,
                        other.m >= 0x10_0000_0000_0000,
                        pow2(gap) >= 2,
                ;
            } else if self.e > other.e {
                let gap = (self.e - other.e) as nat;
                if gap > 1 {
                    lemma_pow2_unfold(gap);
                    if gap > 2 {
                        lemma_pow2_strictly_increases(2, gap);
                    }
                    assert(self.m * pow2(gap) > other.m) by (nonlinear_arith)
                        requires
                            self.m >= 0x10_0000_0000_0000,
                            other.m <= 0x20_0000_0000_0000,
                            pow2(gap) >= 4,
                    ;
                }
            } else {
                assert(other.m * 1 == other.m);
            }
        }
        if self.e < other.e {
            true
        } else if self.e == other.e {
            self.m <= other.m
        } else if self.e - other.e == 1 {
            self.m * 2 <= other.m
        } else {
            false
        }
    }
}

} // verus!
