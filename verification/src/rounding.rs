//! What rounding to double precision keeps of quotients of whole numbers: it gives the nearest
//! value, keeps the order, and tells quotients apart that differ by more than its precision.

use vstd::arithmetic::div_mod::lemma_fundamental_div_mod;
use vstd::arithmetic::power2::{
    lemma2_to64, lemma2_to64_rest, lemma_pow2_adds, lemma_pow2_pos, lemma_pow2_unfold, pow2,
};
use vstd::prelude::*;

use crate::double::{
    double_le, is_exponent, lemma_double_le_over_power, lemma_quotient_halves, lemma_rounded_at,
    lemma_scaled_den_pos, over_100, over_power, quotient_at, rounded, scaled_den, scaled_num,
    significand_at, times_100, DoubleView, MIN_SIGNIFICAND,
};

verus! {

proof fn lemma_pow2_above(n: nat)
    ensures
        pow2(n) >= n + 1,
    decreases n,
{
    if n == 0 {
        lemma2_to64();
    } else {
        lemma_pow2_above((n - 1) as nat);
        lemma_pow2_unfold(n);
    }
}

proof fn lemma_exponent_from(num: nat, den: nat, e: int) -> (found: int)
    requires
        den > 0,
        quotient_at(num, den, e) >= MIN_SIGNIFICAND,
    ensures
        is_exponent(num, den, found),
    decreases quotient_at(num, den, e),
{
    if quotient_at(num, den, e) < 2 * MIN_SIGNIFICAND {
        e
    } else {
        lemma_quotient_halves(num, den, e);
        lemma_exponent_from(num, den, e + 1)
    }
}

/// Every quotient of positive numbers has an exponent at which its whole part has 53 bits.
proof fn lemma_exponent_exists(num: nat, den: nat) -> (e: int)
    requires
        num > 0,
        den > 0,
    ensures
        is_exponent(num, den, e),
        rounded(num, den) == (DoubleView { m: significand_at(num, den, e), e }),
{
    let k = 52 + den;
    lemma2_to64_rest();
    lemma_pow2_adds(52, den);
    lemma_pow2_above(den);
    let n = num * pow2(k);
    assert(n >= MIN_SIGNIFICAND * den) by (nonlinear_arith)
        requires
            n == num * pow2(k),
            num >= 1,
            pow2(k) == pow2(52) * pow2(den),
            pow2(52) == MIN_SIGNIFICAND,
            pow2(den) >= den,
    ;
    assert(scaled_num(num, -k) == n);
    assert(scaled_den(den, -k) == den);
    lemma_fundamental_div_mod(n as int, den as int);
    assert(n / den >= MIN_SIGNIFICAND) by (nonlinear_arith)
        requires
            n >= MIN_SIGNIFICAND * den,
            den > 0,
            n == den * (n / den) + n % den,
            0 <= n % den < den,
    ;
    let e = lemma_exponent_from(num, den, -k);
    lemma_rounded_at(num, den, e);
    e
}

/// The significand is nearest to the quotient at its exponent.
proof fn lemma_significand_is_nearest(num: nat, den: nat, e: int)
    requires
        den > 0,
        is_exponent(num, den, e),
    ensures
        ({
            let (n, d) = (scaled_num(num, e), scaled_den(den, e));
            let m = significand_at(num, den, e);
            &&& d > 0
            &&& MIN_SIGNIFICAND <= m <= 2 * MIN_SIGNIFICAND
            &&& -d <= 2 * (m * d - n) <= d
            &&& 2 * (m * d - n) == d || 2 * (m * d - n) == -d ==> m % 2 == 0
            &&& MIN_SIGNIFICAND * d <= n < 2 * MIN_SIGNIFICAND * d
        }),
{
    lemma_scaled_den_pos(den, e);
    let (n, d) = (scaled_num(num, e), scaled_den(den, e));
    let m = significand_at(num, den, e);
    let q = n / d;
    let r = n % d;
    lemma_fundamental_div_mod(n as int, d as int);
    assert(q * d == d * q) by (nonlinear_arith);
    assert((q + 1) * d == d * q + d) by (nonlinear_arith);
    assert(MIN_SIGNIFICAND * d <= n < 2 * MIN_SIGNIFICAND * d) by (nonlinear_arith)
        requires
            n == d * q + r,
            0 <= r < d,
            MIN_SIGNIFICAND <= q < 2 * MIN_SIGNIFICAND,
    ;
}

/// A rounded quotient has a significand of 53 bits, or the power of two above them, and is nearest
/// to the quotient. Half way between two significands it has the even one.
pub proof fn lemma_rounded_is_nearest(num: nat, den: nat)
    requires
        num > 0,
        den > 0,
    ensures
        ({
            let d = rounded(num, den);
            // `num / den` is `n / (unit * 2^e)` where `d` is `m * 2^e`
            let n = if d.e >= 0 {
                num
            } else {
                num * pow2((-d.e) as nat)
            };
            let unit = if d.e >= 0 {
                den * pow2(d.e as nat)
            } else {
                den
            };
            &&& 0x10_0000_0000_0000 <= d.m <= 0x20_0000_0000_0000
            &&& -unit <= 2 * (d.m * unit - n) <= unit
            &&& 2 * (d.m * unit - n) == unit || 2 * (d.m * unit - n) == -unit ==> d.m % 2 == 0
        }),
{
    let e = lemma_exponent_exists(num, den);
    lemma_significand_is_nearest(num, den, e);
}

/// Over a power of two below both exponents, a rounded quotient is off by at most the 2^53th part.
proof fn lemma_rounded_is_close(num: nat, den: nat, k: int)
    requires
        num > 0,
        den > 0,
        k <= 0,
        k <= rounded(num, den).e,
    ensures
        ({
            let x = over_power(rounded(num, den), k);
            let n = num * pow2((-k) as nat);
            -n <= 0x20_0000_0000_0000 * (x * den - n) <= n
        }),
{
    let e = lemma_exponent_exists(num, den);
    lemma_significand_is_nearest(num, den, e);
    let m = significand_at(num, den, e) as int;
    let (n, d) = (scaled_num(num, e) as int, scaled_den(den, e) as int);
    let off = m * d - n;
    assert(-n <= 0x20_0000_0000_0000 * off <= n);
    let x = over_power(rounded(num, den), k);
    let all = num * pow2((-k) as nat);
    lemma_pow2_pos((e - k) as nat);
    lemma_pow2_pos((-k) as nat);
    if e >= 0 {
        lemma_pow2_adds(e as nat, (-k) as nat);
        let p = pow2((-k) as nat) as int;
        let pe = pow2(e as nat) as int;
        assert(x * den - all == p * off) by (nonlinear_arith)
            requires
                x == m * (pe * p),
                all == n * p,
                d == den * pe,
                off == m * d - n,
        ;
        assert(-all <= 0x20_0000_0000_0000 * (p * off) <= all) by (nonlinear_arith)
            requires
                all == n * p,
                p > 0,
                -n <= 0x20_0000_0000_0000 * off <= n,
        ;
    } else {
        lemma_pow2_adds((-e) as nat, (e - k) as nat);
        let p = pow2((e - k) as nat) as int;
        let pe = pow2((-e) as nat) as int;
        assert(x * den - all == p * off) by (nonlinear_arith)
            requires
                x == m * p,
                all == num * (pe * p),
                n == num * pe,
                d == den,
                off == m * d - n,
        ;
        assert(all == n * p) by (nonlinear_arith)
            requires
                all == num * (pe * p),
                n == num * pe,
        ;
        assert(-all <= 0x20_0000_0000_0000 * (p * off) <= all) by (nonlinear_arith)
            requires
                all == n * p,
                p > 0,
                -n <= 0x20_0000_0000_0000 * off <= n,
        ;
    }
}

/// Of two quotients, one that is less than the other by more than the precision is also less when
/// both are rounded.
pub proof fn lemma_rounding_separates(a: nat, b: nat, c: nat, d: nat)
    requires
        a > 0,
        b > 0,
        c > 0,
        d > 0,
        a * d * 0x20_0000_0000_0001 < c * b * 0x1f_ffff_ffff_ffff,
    ensures
        !double_le(rounded(c, d), rounded(a, b)),
{
    let (x, y) = (rounded(a, b), rounded(c, d));
    let low = if x.e <= y.e {
        x.e
    } else {
        y.e
    };
    let k = if low <= 0 {
        low
    } else {
        0
    };
    lemma_rounded_is_close(a, b, k);
    lemma_rounded_is_close(c, d, k);
    lemma_double_le_over_power(y, x, k);
    let (xs, ys) = (over_power(x, k) as int, over_power(y, k) as int);
    let p = pow2((-k) as nat) as int;
    lemma_pow2_pos((-k) as nat);
    let (ap, cp) = (a * p, c * p);
    assert(xs * b * 0x20_0000_0000_0000 <= ap * 0x20_0000_0000_0001) by (nonlinear_arith)
        requires
            0x20_0000_0000_0000 * (xs * b - ap) <= ap,
    ;
    assert(cp * 0x1f_ffff_ffff_ffff <= ys * d * 0x20_0000_0000_0000) by (nonlinear_arith)
        requires
            -cp <= 0x20_0000_0000_0000 * (ys * d - cp),
    ;
    if ys <= xs {
        let (xb, yd) = (xs * b, ys * d);
        assert(yd * b <= xb * d) by (nonlinear_arith)
            requires
                ys <= xs,
                xb == xs * b,
                yd == ys * d,
                b > 0,
                d > 0,
        ;
        assert(cp * b * 0x1f_ffff_ffff_ffff <= ap * d * 0x20_0000_0000_0001) by (nonlinear_arith)
            requires
                yd * b <= xb * d,
                xb * 0x20_0000_0000_0000 <= ap * 0x20_0000_0000_0001,
                cp * 0x1f_ffff_ffff_ffff <= yd * 0x20_0000_0000_0000,
                b > 0,
                d > 0,
        ;
        assert(false) by (nonlinear_arith)
            requires
                cp * b * 0x1f_ffff_ffff_ffff <= ap * d * 0x20_0000_0000_0001,
                ap == a * p,
                cp == c * p,
                p > 0,
                a * d * 0x20_0000_0000_0001 < c * b * 0x1f_ffff_ffff_ffff,
        ;
    }
}

/// Quotients of numbers whose products are no more than 52 bits long are told apart exactly.
pub proof fn lemma_rounding_is_exact(a: nat, b: nat, c: nat, d: nat)
    requires
        a > 0,
        b > 0,
        c > 0,
        d > 0,
        a * d < 0x10_0000_0000_0000,
        c * b < 0x10_0000_0000_0000,
    ensures
        double_le(rounded(a, b), rounded(c, d)) == (a * d <= c * b),
{
    if a * d <= c * b {
        lemma_rounding_is_monotone(a, b, c, d);
    } else {
        lemma_rounding_separates(c, d, a, b);
    }
}

/// A quotient lies between the powers of two that its exponent tells.
proof fn lemma_quotient_bounds(num: nat, den: nat, k: int)
    requires
        num > 0,
        den > 0,
        k <= 0,
        k <= rounded(num, den).e,
    ensures
        ({
            let n = num * pow2((-k) as nat);
            let unit = den * pow2((rounded(num, den).e - k) as nat);
            MIN_SIGNIFICAND * unit <= n < 2 * MIN_SIGNIFICAND * unit
        }),
{
    let e = lemma_exponent_exists(num, den);
    lemma_significand_is_nearest(num, den, e);
    let (n, d) = (scaled_num(num, e) as int, scaled_den(den, e) as int);
    let all = num * pow2((-k) as nat);
    let unit = den * pow2((e - k) as nat);
    let min = MIN_SIGNIFICAND as int;
    lemma_pow2_pos((e - k) as nat);
    lemma_pow2_pos((-k) as nat);
    let p = if e >= 0 {
        pow2((-k) as nat) as int
    } else {
        pow2((e - k) as nat) as int
    };
    if e >= 0 {
        lemma_pow2_adds(e as nat, (-k) as nat);
        assert(all == n * p && unit == d * p) by (nonlinear_arith)
            requires
                all == num * p,
                n == num,
                unit == den * (pow2(e as nat) * p),
                d == den * pow2(e as nat),
        ;
    } else {
        lemma_pow2_adds((-e) as nat, (e - k) as nat);
        assert(all == n * p && unit == d * p) by (nonlinear_arith)
            requires
                all == num * (pow2((-e) as nat) * p),
                n == num * pow2((-e) as nat),
                unit == den * p,
                d == den,
        ;
    }
    assert(min * unit <= all < 2 * min * unit) by (nonlinear_arith)
        requires
            all == n * p,
            unit == d * p,
            p > 0,
            min * d <= n < 2 * min * d,
    ;
}

/// The whole number nearest to a quotient, the even one half way between two.
spec fn nearest(n: int, d: int) -> int {
    let q = n / d;
    let r = n % d;
    if 2 * r < d {
        q
    } else if 2 * r > d {
        q + 1
    } else {
        q + q % 2
    }
}

/// Lesser quotients have lesser whole parts and nearest whole numbers.
proof fn lemma_nearest_is_monotone(n1: int, d1: int, n2: int, d2: int)
    requires
        n1 >= 0,
        n2 >= 0,
        d1 > 0,
        d2 > 0,
        n1 * d2 <= n2 * d1,
    ensures
        n1 / d1 <= n2 / d2,
        nearest(n1, d1) <= nearest(n2, d2),
{
    let (q1, r1) = (n1 / d1, n1 % d1);
    let (q2, r2) = (n2 / d2, n2 % d2);
    lemma_fundamental_div_mod(n1, d1);
    lemma_fundamental_div_mod(n2, d2);
    assert(q1 * (d1 * d2) + r1 * d2 <= q2 * (d1 * d2) + r2 * d1) by (nonlinear_arith)
        requires
            n1 == d1 * q1 + r1,
            n2 == d2 * q2 + r2,
            n1 * d2 <= n2 * d1,
    ;
    assert(q1 <= q2) by (nonlinear_arith)
        requires
            q1 * (d1 * d2) + r1 * d2 <= q2 * (d1 * d2) + r2 * d1,
            0 <= r1,
            0 <= r2 < d2,
            d1 > 0,
            d2 > 0,
    ;
    if q1 == q2 {
        assert(r1 * d2 <= r2 * d1);
        if 2 * r1 > d1 {
            assert(2 * r2 > d2) by (nonlinear_arith)
                requires
                    2 * r1 > d1,
                    r1 * d2 <= r2 * d1,
                    d1 > 0,
                    d2 > 0,
            ;
        } else if 2 * r1 == d1 {
            assert(2 * r2 >= d2) by (nonlinear_arith)
                requires
                    2 * r1 == d1,
                    r1 * d2 <= r2 * d1,
                    d1 > 0,
                    d2 > 0,
            ;
        }
    }
}

/// At one exponent, scaling keeps the order of quotients.
proof fn lemma_scaled_keeps_order(a: nat, b: nat, c: nat, d: nat, e: int)
    requires
        a * d <= c * b,
    ensures
        scaled_num(a, e) * scaled_den(d, e) <= scaled_num(c, e) * scaled_den(b, e),
{
    if e >= 0 {
        let p = pow2(e as nat) as int;
        lemma_pow2_pos(e as nat);
        assert(a * (d * p) <= c * (b * p)) by (nonlinear_arith)
            requires
                a * d <= c * b,
                p > 0,
        ;
    } else {
        let p = pow2((-e) as nat) as int;
        lemma_pow2_pos((-e) as nat);
        assert((a * p) * d <= (c * p) * b) by (nonlinear_arith)
            requires
                a * d <= c * b,
                p > 0,
        ;
    }
}

proof fn lemma_monotone_at(a: nat, b: nat, c: nat, d: nat, e: int)
    requires
        b > 0,
        d > 0,
        a * d <= c * b,
    ensures
        quotient_at(a, b, e) <= quotient_at(c, d, e),
        significand_at(a, b, e) <= significand_at(c, d, e),
{
    lemma_scaled_den_pos(b, e);
    lemma_scaled_den_pos(d, e);
    lemma_scaled_keeps_order(a, b, c, d, e);
    lemma_nearest_is_monotone(
        scaled_num(a, e) as int,
        scaled_den(b, e) as int,
        scaled_num(c, e) as int,
        scaled_den(d, e) as int,
    );
}

/// Equal quotients are rounded to the same value.
pub proof fn lemma_equal_quotients_round_alike(a: nat, b: nat, c: nat, d: nat)
    requires
        a > 0,
        b > 0,
        c > 0,
        d > 0,
        a * d == c * b,
    ensures
        rounded(a, b) == rounded(c, d),
{
    let e = lemma_exponent_exists(a, b);
    lemma_monotone_at(a, b, c, d, e);
    lemma_monotone_at(c, d, a, b, e);
    lemma_rounded_at(c, d, e);
}

/// A power of two in the quotient is one in what it is rounded to.
pub proof fn lemma_rounding_scales(num: nat, den: nat, j: nat)
    requires
        num > 0,
        den > 0,
    ensures
        rounded(num * pow2(j), den) == (DoubleView {
            m: rounded(num, den).m,
            e: rounded(num, den).e + j,
        }),
{
    let e = lemma_exponent_exists(num, den);
    let up = num * pow2(j);
    let (n1, d1) = (scaled_num(num, e) as int, scaled_den(den, e) as int);
    let (n2, d2) = (scaled_num(up, e + j) as int, scaled_den(den, e + j) as int);
    lemma_pow2_pos(j);
    lemma_scaled_den_pos(den, e);
    lemma_scaled_den_pos(den, e + j);
    let pj = pow2(j) as int;
    assert(n1 * d2 == n2 * d1) by {
        if e >= 0 {
            lemma_pow2_adds(e as nat, j);
            let pe = pow2(e as nat) as int;
            assert(num * (den * (pe * pj)) == (num * pj) * (den * pe)) by (nonlinear_arith);
        } else if e + j >= 0 {
            lemma_pow2_adds((-e) as nat, (e + j) as nat);
            let (pe, ps) = (pow2((-e) as nat) as int, pow2((e + j) as nat) as int);
            assert((num * pe) * (den * ps) == (num * (pe * ps)) * den) by (nonlinear_arith);
        } else {
            lemma_pow2_adds(j, (-e - j) as nat);
            let ps = pow2((-e - j) as nat) as int;
            assert((num * (pj * ps)) * den == ((num * pj) * ps) * den) by (nonlinear_arith);
        }
    }
    lemma_nearest_is_monotone(n1, d1, n2, d2);
    lemma_nearest_is_monotone(n2, d2, n1, d1);
    lemma_rounded_at(up, den, e + j);
}

/// A whole number of at most 53 bits is kept as it is.
proof fn lemma_whole_is_exact(w: nat)
    requires
        0 < w < 2 * MIN_SIGNIFICAND,
    ensures
        rounded(w, 1).e <= 0,
        rounded(w, 1).m == w * pow2((-rounded(w, 1).e) as nat),
{
    let e = lemma_exponent_exists(w, 1);
    lemma2_to64();
    if e > 0 {
        lemma_pow2_unfold(e as nat);
        lemma_pow2_pos((e - 1) as nat);
        let d = scaled_den(1, e) as int;
        let q = quotient_at(w, 1, e) as int;
        assert(d >= 2);
        lemma_fundamental_div_mod(w as int, d);
        assert(q < MIN_SIGNIFICAND) by (nonlinear_arith)
            requires
                d >= 2,
                w < 2 * MIN_SIGNIFICAND,
                w == d * q + w as int % d,
                0 <= w as int % d,
        ;
    } else {
        let n = scaled_num(w, e) as int;
        assert(w * 1 == w);
        assert(n == w * pow2((-e) as nat));
        assert(scaled_den(1, e) == 1);
        assert(n / 1 == n && n % 1 == 0);
    }
}

/// The hundredth of a whole number is rounded once.
pub proof fn lemma_over_100_of_whole(w: nat)
    requires
        0 < w < 2 * MIN_SIGNIFICAND,
    ensures
        over_100(rounded(w, 1)) == rounded(w, 100),
{
    lemma_whole_is_exact(w);
    lemma_rounding_scales(w, 100, (-rounded(w, 1).e) as nat);
}

/// A hundred times a whole number is rounded once.
pub proof fn lemma_times_100_of_whole(w: nat)
    requires
        0 < w < 2 * MIN_SIGNIFICAND,
    ensures
        times_100(rounded(w, 1)) == rounded(100 * w, 1),
{
    lemma_whole_is_exact(w);
    let j = (-rounded(w, 1).e) as nat;
    lemma_rounding_scales(100 * w, 1, j);
    assert((100 * w) * pow2(j) == (w * pow2(j)) * 100) by (nonlinear_arith);
}

/// A hundred times a rounded quotient is off by at most a little more than the 2^52th part: beside
/// a whole number it lies on the side on which the quotient itself does, as long as the products
/// that tell the side are no more than 50 bits long.
pub proof fn lemma_times_100_tells_side(num: nat, den: nat, w: nat)
    requires
        num > 0,
        den > 0,
        w > 0,
        num * 100 < 0x4_0000_0000_0000,
        w * den < 0x4_0000_0000_0000,
    ensures
        num * 100 > w * den ==> double_le(rounded(w, 1), times_100(rounded(num, den))),
        num * 100 < w * den ==> !double_le(rounded(w, 1), times_100(rounded(num, den))),
{
    let (x, y, z) = (rounded(num, den), times_100(rounded(num, den)), rounded(w, 1));
    let _ = lemma_exponent_exists(num, den);
    lemma_rounded_is_nearest(num, den);
    let low = if y.e <= z.e {
        y.e
    } else {
        z.e
    };
    let lower = if low <= x.e {
        low
    } else {
        x.e
    };
    let k = if lower <= 0 {
        lower
    } else {
        0
    };
    lemma_rounded_is_close(num, den, k);
    lemma_rounded_is_close(w, 1, k);
    lemma_rounded_is_close(x.m * 100, 1, k - x.e);
    lemma_double_le_over_power(z, y, k);
    lemma_pow2_pos((-k) as nat);
    let p = pow2((-k) as nat) as int;
    let (xs, ys, zs) = (
        over_power(x, k) as int,
        over_power(y, k) as int,
        over_power(z, k) as int,
    );
    assert(ys == over_power(rounded(x.m * 100, 1), k - x.e));
    let x100 = (x.m * 100) * pow2((x.e - k) as nat);
    assert(x100 == xs * 100) by (nonlinear_arith)
        requires
            x100 == (x.m * 100) * pow2((x.e - k) as nat),
            xs == x.m * pow2((x.e - k) as nat),
    ;
    let e = 0x20_0000_0000_0000int;
    let (np, wp) = (num * p, w * p);
    let xd = xs * den;
    let yd = ys * den;
    let zd = zs * den;
    let wpd = wp * den;
    assert(ys * 1 == ys && zs * 1 == zs);
    // `ys` lies about `xs * 100`, and `xd` about `np`.
    assert(yd * e <= 100 * xd * (e + 1) && 100 * xd * (e - 1) <= yd * e) by (nonlinear_arith)
        requires
            -(xs * 100) <= e * (ys - xs * 100) <= xs * 100,
            yd == ys * den,
            xd == xs * den,
            den > 0,
    ;
    assert(xd * e <= np * (e + 1) && np * (e - 1) <= xd * e) by (nonlinear_arith)
        requires
            -np <= e * (xd - np) <= np,
    ;
    assert(zd * e <= wpd * (e + 1) && wpd * (e - 1) <= zd * e) by (nonlinear_arith)
        requires
            -wp <= e * (zs - wp) <= wp,
            zd == zs * den,
            wpd == wp * den,
            den > 0,
    ;
    assert(yd * e * e <= 100 * np * (e + 1) * (e + 1)) by (nonlinear_arith)
        requires
            yd * e <= 100 * xd * (e + 1),
            xd * e <= np * (e + 1),
            e == 0x20_0000_0000_0000int,
    ;
    assert(100 * np * (e - 1) * (e - 1) <= yd * e * e) by (nonlinear_arith)
        requires
            100 * xd * (e - 1) <= yd * e,
            np * (e - 1) <= xd * e,
            e == 0x20_0000_0000_0000int,
    ;
    assert(zd * e * e <= wpd * (e + 1) * e && wpd * (e - 1) * e <= zd * e * e) by (nonlinear_arith)
        requires
            zd * e <= wpd * (e + 1),
            wpd * (e - 1) <= zd * e,
            e == 0x20_0000_0000_0000int,
    ;
    let (a, b): (int, int) = ((num * 100) as int, (w * den) as int);
    assert(100 * np == a * p && wpd == b * p) by (nonlinear_arith)
        requires
            np == num * p,
            wp == w * p,
            wpd == wp * den,
            a == num * 100,
            b == w * den,
    ;
    if a > b && ys < zs {
        assert(yd <= zd) by (nonlinear_arith)
            requires
                ys < zs,
                yd == ys * den,
                zd == zs * den,
                den > 0,
        ;
        assert((a * p) * ((e - 1) * (e - 1)) <= (b * p) * ((e + 1) * e)) by (nonlinear_arith)
            requires
                yd <= zd,
                100 * np * (e - 1) * (e - 1) <= yd * e * e,
                zd * e * e <= wpd * (e + 1) * e,
                100 * np == a * p,
                wpd == b * p,
                e == 0x20_0000_0000_0000int,
        ;
        let (f, g) = ((e - 1) * (e - 1), (e + 1) * e);
        lemma_cancel(a * f, b * g, a, b, p, f, g);
    }
    if a < b && zs <= ys {
        assert(zd <= yd) by (nonlinear_arith)
            requires
                zs <= ys,
                yd == ys * den,
                zd == zs * den,
                den > 0,
        ;
        assert((b * p) * ((e - 1) * e) <= (a * p) * ((e + 1) * (e + 1))) by (nonlinear_arith)
            requires
                zd <= yd,
                wpd * (e - 1) * e <= zd * e * e,
                yd * e * e <= 100 * np * (e + 1) * (e + 1),
                100 * np == a * p,
                wpd == b * p,
                e == 0x20_0000_0000_0000int,
        ;
        let (f, g) = ((e - 1) * e, (e + 1) * (e + 1));
        lemma_cancel(b * f, a * g, b, a, p, f, g);
        assert(a * g <= (b - 1) * g) by (nonlinear_arith)
            requires
                a + 1 <= b,
                g > 0,
        ;
        assert(g - f == 3 * e + 1) by (nonlinear_arith)
            requires
                f == (e - 1) * e,
                g == (e + 1) * (e + 1),
        ;
        assert(g <= b * (3 * e + 1)) by (nonlinear_arith)
            requires
                b * f <= (b - 1) * g,
                g - f == 3 * e + 1,
        ;
        assert(false) by (nonlinear_arith)
            requires
                g <= b * (3 * e + 1),
                g == (e + 1) * (e + 1),
                b < 0x4_0000_0000_0000,
                e == 0x20_0000_0000_0000int,
        ;
    }
}

proof fn lemma_cancel(x: int, y: int, a: int, b: int, p: int, f: int, g: int)
    requires
        p > 0,
        (a * p) * f <= (b * p) * g,
        x == a * f,
        y == b * g,
    ensures
        x <= y,
{
    assert(x <= y) by (nonlinear_arith)
        requires
            p > 0,
            (a * p) * f <= (b * p) * g,
            x == a * f,
            y == b * g,
    ;
}

/// Rounding keeps the order of quotients.
pub proof fn lemma_rounding_is_monotone(a: nat, b: nat, c: nat, d: nat)
    requires
        a > 0,
        b > 0,
        c > 0,
        d > 0,
        a * d <= c * b,
    ensures
        double_le(rounded(a, b), rounded(c, d)),
{
    let e1 = lemma_exponent_exists(a, b);
    let e2 = lemma_exponent_exists(c, d);
    lemma_significand_is_nearest(a, b, e1);
    lemma_significand_is_nearest(c, d, e2);
    let (x, y) = (rounded(a, b), rounded(c, d));
    lemma2_to64();
    if e1 == e2 {
        lemma_monotone_at(a, b, c, d, e1);
        assert(y.m * 1 == y.m);
    } else if e1 < e2 {
        let gap = (e2 - e1) as nat;
        lemma_pow2_unfold(gap);
        lemma_pow2_pos((gap - 1) as nat);
        assert(x.m <= y.m * pow2(gap)) by (nonlinear_arith)
            requires
                x.m <= 2 * MIN_SIGNIFICAND,
                y.m >= MIN_SIGNIFICAND,
                pow2(gap) >= 2,
        ;
    } else {
        let k = if e2 <= 0 {
            e2
        } else {
            0
        };
        lemma_quotient_bounds(a, b, k);
        lemma_quotient_bounds(c, d, k);
        let p = pow2((-k) as nat) as int;
        lemma_pow2_pos((-k) as nat);
        let (pa, pc) = (pow2((e1 - k) as nat) as int, pow2((e2 - k) as nat) as int);
        lemma_pow2_adds((e2 - k) as nat, (e1 - e2) as nat);
        lemma_pow2_unfold((e1 - e2) as nat);
        lemma_pow2_pos((e1 - e2 - 1) as nat);
        lemma_pow2_pos((e2 - k) as nat);
        let g = pow2((e1 - e2) as nat) as int;
        assert(pa >= 2 * pc) by (nonlinear_arith)
            requires
                pa == pc * g,
                g >= 2,
                pc > 0,
        ;
        let min = MIN_SIGNIFICAND as int;
        let (ap, cp) = (a * p, c * p);
        assert(ap * d <= cp * b) by (nonlinear_arith)
            requires
                ap == a * p,
                cp == c * p,
                a * d <= c * b,
                p > 0,
        ;
        assert(false) by (nonlinear_arith)
            requires
                min * (b * pa) <= ap,
                cp < 2 * min * (d * pc),
                ap * d <= cp * b,
                pa >= 2 * pc,
                b > 0,
                d > 0,
                min > 0,
        ;
    }
}

} // verus!
