//! A model of IEEE 754 rounding (round to nearest, ties to even) of
//! positive values to a `p`-bit significand (53 bits for binary64, 24 for
//! binary32), and integer procedures that compute exactly the value the
//! hardware would.
//!
//! A positive double below 2^53 is written as a pair `(m, k)` standing for
//! `m / 2^k`, where `k` is chosen so that the exact value scaled by `2^k`
//! lies in `[2^52, 2^53)`: then the representable doubles of that binade are
//! exactly the integers divided by `2^k`.
use vstd::prelude::*;
use vstd::arithmetic::power2::*;
use vstd::arithmetic::div_mod::*;

verus! {

/// `m` is `a / b` rounded to the nearest integer, ties going to the even one.
pub open spec fn rounds_half_even(a: int, b: int, m: int) -> bool {
    let r = a - m * b;
    ||| -b < 2 * r && 2 * r < b
    ||| (2 * r == b || 2 * r == -b) && m % 2 == 0
}

/// `m / 2^k` is the number with a `p`-bit significand nearest to the ratio
/// `n / d`, which lies in `[2^(p-1) / 2^k, 2^p / 2^k)`.
pub open spec fn is_rounded(n: int, d: int, m: int, k: nat, p: nat) -> bool {
    &&& p >= 1
    &&& d > 0
    &&& pow2((p - 1) as nat) * d <= n * pow2(k)
    &&& n * pow2(k) < pow2(p) * d
    &&& rounds_half_even(n * pow2(k), d, m)
}


/// `m / 2^k` is the double nearest to the square root of `mq / 2^kq`, which
/// lies in `[2^52 / 2^k, 2^53 / 2^k)`. Written without roots: `m` is within
/// one half of `sqrt(mq * 2^(2k) / 2^kq)`.
pub open spec fn is_rounded_sqrt(mq: int, kq: nat, m: int, k: nat) -> bool {
    &&& m > 0
    &&& pow2(104) * pow2(kq) <= mq * pow2(2 * k)
    &&& mq * pow2(2 * k) < pow2(106) * pow2(kq)
    &&& (2 * m - 1) * (2 * m - 1) * pow2(kq) < 4 * mq * pow2(2 * k)
    &&& 4 * mq * pow2(2 * k) < (2 * m + 1) * (2 * m + 1) * pow2(kq)
}

/// The number with a `p`-bit significand nearest to `n / d` (an IEEE
/// operation whose exact result is `n / d`, for a positive result).
pub open spec fn rounded(n: int, d: int, p: nat) -> (int, nat) {
    choose|r: (int, nat)| is_rounded(n, d, r.0, r.1, p)
}

/// The double nearest to `n / d` (IEEE division of two exact doubles).
pub open spec fn rounded_ratio(n: int, d: int) -> (int, nat) {
    rounded(n, d, 53)
}

/// The double nearest to the square root of the double `v` (IEEE `sqrt`).
pub open spec fn rounded_sqrt(v: (int, nat)) -> (int, nat) {
    choose|p: (int, nat)| is_rounded_sqrt(v.0, v.1, p.0, p.1)
}

proof fn lemma_pow2_ge_double(a: nat, b: nat)
    requires
        a < b,
    ensures
        pow2(b) >= 2 * pow2(a),
{
    let c = (b - a - 1) as nat;
    lemma_pow2_adds(a, (b - a) as nat);
    lemma_pow2_adds(1, c);
    lemma_pow2_pos(c);
    lemma_pow2_pos(a);
    lemma2_to64();
    assert((b - a) as nat == 1 + c);
    let x = pow2(a) as int;
    let y = pow2(c) as int;
    assert(x * (2 * y) >= 2 * x) by (nonlinear_arith)
        requires
            x > 0,
            y >= 1,
    ;
}

proof fn lemma_half_even_unique(a: int, b: int, m1: int, m2: int)
    requires
        b > 0,
        rounds_half_even(a, b, m1),
        rounds_half_even(a, b, m2),
    ensures
        m1 >= m2,
{
    if m1 >= m2 {
        return;
    }
    let r1 = a - m1 * b;
    let r2 = a - m2 * b;
    assert(r1 - r2 == (m2 - m1) * b) by (nonlinear_arith)
        requires
            r1 == a - m1 * b,
            r2 == a - m2 * b,
    ;
    assert((m2 - m1) * b >= b) by (nonlinear_arith)
        requires
            m2 - m1 >= 1,
            b > 0,
    ;
    assert((m2 - m1) * b == b ==> m2 - m1 == 1) by (nonlinear_arith)
        requires
            b > 0,
    ;
}

proof fn lemma_ratio_exponent_unique(n: int, d: int, m1: int, k1: nat, m2: int, k2: nat, p: nat)
    requires
        is_rounded(n, d, m1, k1, p),
        is_rounded(n, d, m2, k2, p),
    ensures
        k1 >= k2,
{
    if k1 >= k2 {
        return;
    }
    lemma_pow2_ge_double(k1, k2);
    lemma_pow2_adds((p - 1) as nat, 1);
    lemma2_to64();
    lemma_pow2_pos((p - 1) as nat);
    assert(((p - 1) as nat + 1) as nat == p);
    let plo = pow2((p - 1) as nat) as int;
    let phi = pow2(p) as int;
    let pa = pow2(k1) as int;
    let pb = pow2(k2) as int;
    assert(phi == 2 * plo);
    assert(false) by (nonlinear_arith)
        requires
            plo * d <= n * pa,
            n * pb < phi * d,
            phi == 2 * plo,
            plo > 0,
            d > 0,
            pa >= 0,
            pb >= 2 * pa,
    ;
}

/// The nearest number with a `p`-bit significand to a ratio is unique.
pub proof fn lemma_rounded_unique(n: int, d: int, m1: int, k1: nat, m2: int, k2: nat, p: nat)
    requires
        is_rounded(n, d, m1, k1, p),
        is_rounded(n, d, m2, k2, p),
    ensures
        m1 == m2,
        k1 == k2,
{
    lemma_ratio_exponent_unique(n, d, m1, k1, m2, k2, p);
    lemma_ratio_exponent_unique(n, d, m2, k2, m1, k1, p);
    lemma_half_even_unique(n * pow2(k1), d, m1, m2);
    lemma_half_even_unique(n * pow2(k1), d, m2, m1);
}

proof fn lemma_sqrt_exponent_unique(mq: int, kq: nat, m1: int, k1: nat, m2: int, k2: nat)
    requires
        is_rounded_sqrt(mq, kq, m1, k1),
        is_rounded_sqrt(mq, kq, m2, k2),
    ensures
        k1 >= k2,
{
    if k1 >= k2 {
        return;
    }
    lemma_pow2_pos(kq);
    lemma_pow2_pos(104);
    lemma_pow2_ge_double((2 * k1) as nat, (2 * k1 + 1) as nat);
    lemma_pow2_ge_double((2 * k1 + 1) as nat, (2 * k2) as nat);
    lemma_pow2_adds(104, 1);
    lemma_pow2_adds(105, 1);
    lemma2_to64();
    let x = pow2(kq) as int;
    let pa = pow2((2 * k1) as nat) as int;
    let pb = pow2((2 * k2) as nat) as int;
    let p104 = pow2(104) as int;
    let p106 = pow2(106) as int;
    assert(p106 == 4 * p104);
    assert(false) by (nonlinear_arith)
        requires
            p104 * x <= mq * pa,
            mq * pb < p106 * x,
            p106 == 4 * p104,
            p104 > 0,
            x > 0,
            pa >= 0,
            pb >= 4 * pa,
    ;
}

proof fn lemma_sqrt_mantissa_unique(mq: int, kq: nat, m1: int, m2: int, k: nat)
    requires
        is_rounded_sqrt(mq, kq, m1, k),
        is_rounded_sqrt(mq, kq, m2, k),
    ensures
        m1 >= m2,
{
    if m1 >= m2 {
        return;
    }
    lemma_pow2_pos(kq);
    let x = pow2(kq) as int;
    let y = 4 * mq * pow2((2 * k) as nat);
    assert(false) by (nonlinear_arith)
        requires
            m1 >= 1,
            m2 >= m1 + 1,
            x > 0,
            (2 * m2 - 1) * (2 * m2 - 1) * x < y,
            y < (2 * m1 + 1) * (2 * m1 + 1) * x,
    ;
}

/// The nearest double to a square root is unique.
pub proof fn lemma_rounded_sqrt_unique(mq: int, kq: nat, m1: int, k1: nat, m2: int, k2: nat)
    requires
        is_rounded_sqrt(mq, kq, m1, k1),
        is_rounded_sqrt(mq, kq, m2, k2),
    ensures
        m1 == m2,
        k1 == k2,
{
    lemma_sqrt_exponent_unique(mq, kq, m1, k1, m2, k2);
    lemma_sqrt_exponent_unique(mq, kq, m2, k2, m1, k1);
    lemma_sqrt_mantissa_unique(mq, kq, m1, m2, k1);
    lemma_sqrt_mantissa_unique(mq, kq, m2, m1, k1);
}

/// A ratio that rounds to `(m, k)` has `rounded` equal to `(m, k)`.
pub proof fn lemma_rounded_is(n: int, d: int, m: int, k: nat, p: nat)
    requires
        is_rounded(n, d, m, k, p),
    ensures
        rounded(n, d, p) == (m, k),
{
    let r = rounded(n, d, p);
    assert(is_rounded(n, d, (m, k).0, (m, k).1, p));
    lemma_rounded_unique(n, d, m, k, r.0, r.1, p);
}

/// A square root that is rounded to `(m, k)` has `rounded_sqrt` equal to `(m, k)`.
pub proof fn lemma_rounded_sqrt_is(mq: int, kq: nat, m: int, k: nat)
    requires
        is_rounded_sqrt(mq, kq, m, k),
    ensures
        rounded_sqrt((mq, kq)) == (m, k),
{
    let p = rounded_sqrt((mq, kq));
    assert(is_rounded_sqrt((mq, kq).0, (mq, kq).1, (m, k).0, (m, k).1));
    lemma_rounded_sqrt_unique(mq, kq, m, k, p.0, p.1);
}

/// `2^51`, `2^52` and `2^53`, the bounds of the significands used here.
pub const TWO_51: u128 = 0x8_0000_0000_0000;
pub const TWO_52: u128 = 0x10_0000_0000_0000;
pub const TWO_53: u128 = 0x20_0000_0000_0000;

/// The powers of two that the rounding procedures rely on.
pub proof fn lemma_pow2_values()
    ensures
        pow2(0) == 1,
        pow2(1) == 2,
        pow2(51) == TWO_51,
        pow2(52) == TWO_52,
        pow2(53) == TWO_53,
        pow2(64) == 0x1_0000_0000_0000_0000,
        pow2(104) == TWO_52 * TWO_52,
        pow2(105) == TWO_52 * TWO_53,
        pow2(106) == TWO_53 * TWO_53,
        pow2(128) == 0x1_0000_0000_0000_0000 * 0x1_0000_0000_0000_0000,
{
    lemma2_to64();
    lemma2_to64_rest();
    lemma_pow2_adds(52, 52);
    lemma_pow2_adds(52, 53);
    lemma_pow2_adds(53, 53);
    lemma_pow2_adds(64, 64);
}

/// `pow2` is strictly increasing, read backwards.
pub proof fn lemma_pow2_lt_inv(a: nat, b: nat)
    requires
        pow2(a) < pow2(b),
    ensures
        a < b,
{
    if a >= b {
        if a > b {
            lemma_pow2_strictly_increases(b, a);
        }
    }
}

/// `2^k` as a machine integer.
pub fn pow2_u128(k: u32) -> (r: u128)
    requires
        k < 128,
    ensures
        r == pow2(k as nat),
{
    proof {
        lemma_pow2_values();
    }
    let mut r: u128 = 1;
    let mut i: u32 = 0;
    while i < k
        invariant
            i <= k < 128,
            r == pow2(i as nat),
            pow2(128) == 0x1_0000_0000_0000_0000 * 0x1_0000_0000_0000_0000,
        decreases k - i,
    {
        proof {
            lemma_pow2_ge_double((i + 1) as nat, 128);
            lemma_pow2_unfold((i + 1) as nat);
        }
        r = r * 2;
        i = i + 1;
    }
    r
}

/// Rounds the ratio `n / d` to the nearest number with a `p`-bit
/// significand (an IEEE operation with exact result `n / d`), returning
/// `(m, k)` for `m / 2^k`.
pub fn round_ratio(n: u128, d: u128, p: u32) -> (res: (u128, u32))
    requires
        1 <= p <= 53,
        0 < n,
        0 < d,
        d * pow2(p as nat) <= pow2(123),
        n < pow2(p as nat) * d,
    ensures
        is_rounded(n as int, d as int, res.0 as int, res.1 as nat, p as nat),
        pow2((p - 1) as nat) <= res.0 <= pow2(p as nat),
        res.1 < 123,
{
    let pw = pow2_u128(p - 1);
    proof {
        lemma_pow2_values();
        lemma_pow2_adds((p - 1) as nat, 1);
        assert(((p - 1) as nat + 1) as nat == p);
        lemma_pow2_pos((p - 1) as nat);
        lemma_pow2_strictly_increases(123, 128);
        lemma_pow2_adds(122, 1);
        assert(pw * d <= pow2(122) && d <= pow2(122)) by (nonlinear_arith)
            requires
                d * pow2(p as nat) <= pow2(123),
                pow2(p as nat) == pw * 2,
                pow2(123) == pow2(122) * 2,
                d > 0,
                pw >= 1,
        ;
    }
    let lower: u128 = d * pw;
    proof {
        lemma_pow2_ge_double(122, 128);
        assert(pow2(p as nat) * d == 2 * (pw * d)) by (nonlinear_arith)
            requires
                pow2(p as nat) == 2 * pw,
        ;
        assert(n * pow2(0) == n);
    }
    let mut t: u128 = n;
    let mut k: u32 = 0;
    while t < lower
        invariant
            0 < n,
            0 < d,
            lower == pw * d,
            lower <= pow2(122),
            2 * pow2(122) <= pow2(128),
            pow2(128) == 0x1_0000_0000_0000_0000 * 0x1_0000_0000_0000_0000,
            t == n * pow2(k as nat),
            t >= 1,
            t < 2 * lower,
            k < 123,
        decreases 123 - k,
    {
        proof {
            lemma_pow2_pos(k as nat);
            assert(pow2(k as nat) <= t) by (nonlinear_arith)
                requires
                    t == n * pow2(k as nat),
                    n >= 1,
                    pow2(k as nat) > 0,
            ;
            lemma_pow2_lt_inv(k as nat, 122);
            lemma_pow2_unfold((k + 1) as nat);
            assert(n * pow2((k + 1) as nat) == 2 * (n * pow2(k as nat))) by (nonlinear_arith)
                requires
                    pow2((k + 1) as nat) == 2 * pow2(k as nat),
            ;
        }
        t = t * 2;
        k = k + 1;
    }
    proof {
        assert(pow2((p - 1) as nat) * d == pw * d);
    }
    let q = t / d;
    let r = t % d;
    proof {
        assert(d <= pow2(122));
        lemma_fundamental_div_mod(t as int, d as int);
        lemma_mod_pos_bound(t as int, d as int);
        assert(pw <= q < 2 * pw) by (nonlinear_arith)
            requires
                t == d * q + r,
                0 <= r < d,
                pw * d <= t,
                t < 2 * (pw * d),
                d > 0,
        ;
    }
    let m = if 2 * r > d || (2 * r == d && q % 2 == 1) {
        q + 1
    } else {
        q
    };
    proof {
        if m == q + 1 {
            assert(t - m * d == r - d) by (nonlinear_arith)
                requires
                    t == d * q + r,
                    m == q + 1,
            ;
        } else {
            assert(t - m * d == r) by (nonlinear_arith)
                requires
                    t == d * q + r,
                    m == q,
            ;
        }
        assert(rounds_half_even(t as int, d as int, m as int));
    }
    (m, k)
}

/// Rounds the square root of the double `mq / 2^kq` to the nearest double
/// (IEEE `sqrt`), returning `(m, k)` for `m / 2^k`.
pub fn round_sqrt(mq: u128, kq: u32) -> (res: (u128, u32))
    requires
        pow2(52) <= mq <= pow2(53),
        kq < 128,
    ensures
        is_rounded_sqrt(mq as int, kq as nat, res.0 as int, res.1 as nat),
        pow2(52) <= res.0 <= pow2(53),
        kq + 51 <= 2 * res.1 <= kq + 53,
{
    proof {
        lemma_pow2_values();
    }
    let j: u32 = if kq % 2 == 0 {
        52
    } else if mq < TWO_53 {
        53
    } else {
        51
    };
    let pj: u128 = if j == 52 {
        TWO_52
    } else if j == 53 {
        TWO_53
    } else {
        TWO_51
    };
    proof {
        assert(TWO_52 * TWO_52 <= mq * pj < TWO_53 * TWO_53) by (nonlinear_arith)
            requires
                TWO_52 <= mq <= TWO_53,
                pj == TWO_52 || (pj == TWO_53 && mq < TWO_53) || (pj == TWO_51 && mq == TWO_53),
                TWO_53 == 2 * TWO_52,
                TWO_52 == 2 * TWO_51,
                TWO_51 > 0,
        ;
    }
    let nn: u128 = mq * pj;
    let k: u32 = (kq + j) / 2;
    let mut lo: u128 = TWO_52;
    let mut hi: u128 = TWO_53;
    while hi - lo > 1
        invariant
            TWO_52 <= lo < hi <= TWO_53,
            lo * lo <= nn,
            nn < hi * hi,
        decreases hi - lo,
    {
        let mid = lo + (hi - lo) / 2;
        proof {
            assert(mid * mid <= TWO_53 * TWO_53) by (nonlinear_arith)
                requires
                    0 <= mid <= TWO_53,
            ;
        }
        if mid * mid <= nn {
            lo = mid;
        } else {
            hi = mid;
        }
    }
    let r = lo;
    proof {
        assert(r * r <= TWO_53 * TWO_53) by (nonlinear_arith)
            requires
                0 <= r <= TWO_53,
        ;
    }
    let m = if nn - r * r > r {
        r + 1
    } else {
        r
    };
    proof {
        let x = pow2(kq as nat) as int;
        lemma_pow2_pos(kq as nat);
        assert(2 * k == kq + j);
        lemma_pow2_adds(kq as nat, j as nat);
        assert(pow2(j as nat) == pj);
        assert(mq * pow2((2 * k) as nat) == nn * x) by (nonlinear_arith)
            requires
                pow2((2 * k) as nat) == x * pj,
                nn == mq * pj,
        ;
        assert((2 * m - 1) * (2 * m - 1) < 4 * nn < (2 * m + 1) * (2 * m + 1)) by (nonlinear_arith)
            requires
                r * r <= nn,
                nn < (r + 1) * (r + 1),
                r >= 1,
                (m == r + 1 && nn - r * r > r) || (m == r && nn - r * r <= r),
        ;
        let y = 4 * nn;
        assert((2 * m - 1) * (2 * m - 1) * x < y * x < (2 * m + 1) * (2 * m + 1) * x)
            by (nonlinear_arith)
            requires
                (2 * m - 1) * (2 * m - 1) < y < (2 * m + 1) * (2 * m + 1),
                x > 0,
        ;
        assert(pow2(104) * x <= nn * x < pow2(106) * x) by (nonlinear_arith)
            requires
                pow2(104) <= nn < pow2(106),
                x > 0,
        ;
        assert(4 * mq * pow2((2 * k) as nat) == y * x) by (nonlinear_arith)
            requires
                mq * pow2((2 * k) as nat) == nn * x,
                y == 4 * nn,
        ;
    }
    (m, k)
}

/// Rounding to the nearest integer never goes past an integer bound.
pub proof fn lemma_rounds_half_even_le(a: int, b: int, m: int, bound: int)
    requires
        b > 0,
        rounds_half_even(a, b, m),
        a <= bound * b,
    ensures
        m <= bound,
{
    assert(m <= bound) by (nonlinear_arith)
        requires
            b > 0,
            2 * (a - m * b) >= -b,
            a <= bound * b,
    ;
}

/// Rounding to the nearest integer never goes below an integer bound.
pub proof fn lemma_rounds_half_even_ge(a: int, b: int, m: int, bound: int)
    requires
        b > 0,
        rounds_half_even(a, b, m),
        a >= bound * b,
    ensures
        m >= bound,
{
    assert(m >= bound) by (nonlinear_arith)
        requires
            b > 0,
            2 * (a - m * b) <= b,
            a >= bound * b,
    ;
}

/// A value `n / d` of at most `bound` rounds to at most `bound`.
pub proof fn lemma_rounded_le(n: int, d: int, m: int, k: nat, p: nat, bound: int)
    requires
        is_rounded(n, d, m, k, p),
        n <= bound * d,
    ensures
        m <= bound * pow2(k),
{
    lemma_pow2_pos(k);
    let pk = pow2(k) as int;
    assert(n * pk <= (bound * pk) * d) by (nonlinear_arith)
        requires
            n <= bound * d,
            pk > 0,
    ;
    lemma_rounds_half_even_le(n * pk, d, m, bound * pk);
}

/// Rounding a ratio to `p` bits errs upward by at most a factor of
/// `1 + 2^-p`: `m / 2^k <= (n / d) * (2^p + 1) / 2^p`.
pub proof fn lemma_rounded_relative_upper(n: int, d: int, m: int, k: nat, p: nat)
    requires
        is_rounded(n, d, m, k, p),
    ensures
        pow2(p) * (m * d) <= (pow2(p) + 1) * (n * pow2(k)),
{
    let big_n = n * pow2(k);
    let lo = pow2((p - 1) as nat) as int;
    let hi = pow2(p) as int;
    lemma_pow2_adds((p - 1) as nat, 1);
    lemma2_to64();
    assert(((p - 1) as nat + 1) as nat == p);
    assert(hi == 2 * lo);
    assert(2 * (m * d) <= 2 * big_n + d);
    assert(hi * (m * d) <= (hi + 1) * big_n) by (nonlinear_arith)
        requires
            2 * (m * d) <= 2 * big_n + d,
            lo * d <= big_n,
            hi == 2 * lo,
            lo >= 0,
    ;
}

/// Rounding a square root errs upward by at most a factor of `1 + 2^-53`:
/// `(m / 2^k)^2 <= (mq / 2^kq) * ((2^53 + 1) / 2^53)^2`.
pub proof fn lemma_rounded_sqrt_relative_upper(mq: int, kq: nat, m: int, k: nat)
    requires
        is_rounded_sqrt(mq, kq, m, k),
    ensures
        pow2(53) * pow2(53) * (m * m * pow2(kq)) <= (pow2(53) + 1) * (pow2(53) + 1) * (mq * pow2(
            2 * k,
        )),
{
    let u = pow2(53) as int;
    let v = u + 1;
    let x = pow2(kq) as int;
    let q = mq * pow2(2 * k);
    let a = 2 * m - 1;
    lemma_pow2_pos(kq);
    lemma_pow2_pos(53);
    lemma_pow2_adds(53, 53);
    lemma_pow2_adds(104, 2);
    lemma2_to64();
    assert(u * u == 4 * pow2(104));
    assert(a * a * x < 4 * q && u * u * x <= 4 * q) by (nonlinear_arith)
        requires
            (2 * m - 1) * (2 * m - 1) * pow2(kq) < 4 * mq * pow2(2 * k),
            pow2(104) * pow2(kq) <= mq * pow2(2 * k),
            a == 2 * m - 1,
            x == pow2(kq),
            q == mq * pow2(2 * k),
            u * u == 4 * pow2(104),
    ;
    if u * u * (m * m * x) > v * v * q {
        assert(u * u * ((a + 1) * (a + 1) * x) > 4 * (v * v * q)) by (nonlinear_arith)
            requires
                u * u * (m * m * x) > v * v * q,
                a + 1 == 2 * m,
        ;
        // the root is below 2^53, as the rounding is at most half a unit off
        assert(u * (a + 1) > v * a) by (nonlinear_arith)
            requires
                u * u * ((a + 1) * (a + 1) * x) > 4 * (v * v * q),
                a * a * x < 4 * q,
                x > 0,
                a >= 1,
                u > 0,
                v > 0,
        ;
        // and it is at least 2^53, as the root is at least 2^52
        assert(a + 1 > v) by (nonlinear_arith)
            requires
                u * u * ((a + 1) * (a + 1) * x) > 4 * (v * v * q),
                u * u * x <= 4 * q,
                x > 0,
                a >= 1,
                u > 0,
                v > 0,
        ;
        assert(a < u) by (nonlinear_arith)
            requires
                u * (a + 1) > v * a,
                v == u + 1,
        ;
    }
}

/// Rounding a ratio to `p` bits errs downward by at most a factor of
/// `1 - 2^-p`: `m / 2^k >= (n / d) * (2^p - 1) / 2^p`.
pub proof fn lemma_rounded_relative_lower(n: int, d: int, m: int, k: nat, p: nat)
    requires
        is_rounded(n, d, m, k, p),
    ensures
        pow2(p) * (m * d) >= (pow2(p) - 1) * (n * pow2(k)),
{
    let big_n = n * pow2(k);
    let lo = pow2((p - 1) as nat) as int;
    let hi = pow2(p) as int;
    lemma_pow2_adds((p - 1) as nat, 1);
    lemma2_to64();
    assert(((p - 1) as nat + 1) as nat == p);
    assert(hi == 2 * lo);
    assert(2 * (m * d) >= 2 * big_n - d);
    assert(hi * (m * d) >= (hi - 1) * big_n) by (nonlinear_arith)
        requires
            2 * (m * d) >= 2 * big_n - d,
            lo * d <= big_n,
            hi == 2 * lo,
            lo >= 0,
    ;
}

/// Rounding a square root errs downward by at most a factor of `1 - 2^-53`:
/// `(m / 2^k)^2 >= (mq / 2^kq) * ((2^53 - 1) / 2^53)^2`.
pub proof fn lemma_rounded_sqrt_relative_lower(mq: int, kq: nat, m: int, k: nat)
    requires
        is_rounded_sqrt(mq, kq, m, k),
    ensures
        pow2(53) * pow2(53) * (m * m * pow2(kq)) >= (pow2(53) - 1) * (pow2(53) - 1) * (mq * pow2(
            2 * k,
        )),
{
    let u = pow2(53) as int;
    let v = u - 1;
    let x = pow2(kq) as int;
    let q = mq * pow2(2 * k);
    let c = 2 * m + 1;
    lemma_pow2_pos(kq);
    lemma_pow2_pos(53);
    lemma_pow2_adds(53, 53);
    lemma_pow2_adds(104, 2);
    lemma2_to64();
    assert(u * u == 4 * pow2(104));
    assert(4 * q < c * c * x && u * u * x <= 4 * q) by (nonlinear_arith)
        requires
            4 * mq * pow2(2 * k) < (2 * m + 1) * (2 * m + 1) * pow2(kq),
            pow2(104) * pow2(kq) <= mq * pow2(2 * k),
            c == 2 * m + 1,
            x == pow2(kq),
            q == mq * pow2(2 * k),
            u * u == 4 * pow2(104),
    ;
    assert(u >= 2) by {
        lemma_pow2_strictly_increases(1, 53);
    }
    if u * u * (m * m * x) < v * v * q {
        assert(u * u * ((c - 1) * (c - 1) * x) < 4 * (v * v * q)) by (nonlinear_arith)
            requires
                u * u * (m * m * x) < v * v * q,
                c - 1 == 2 * m,
        ;
        // the root is below 2^53 ...
        assert(u * (c - 1) < v * c) by (nonlinear_arith)
            requires
                u * u * ((c - 1) * (c - 1) * x) < 4 * (v * v * q),
                4 * q < c * c * x,
                x > 0,
                c >= 1,
                u > 0,
                v > 0,
        ;
        assert(c < u) by (nonlinear_arith)
            requires
                u * (c - 1) < v * c,
                v == u - 1,
        ;
        // ... and above it, as the root is at least 2^52
        assert(c * c > u * u) by (nonlinear_arith)
            requires
                4 * q < c * c * x,
                u * u * x <= 4 * q,
                x > 0,
        ;
        assert(false) by (nonlinear_arith)
            requires
                c * c > u * u,
                c < u,
                c >= 1,
                u > 0,
        ;
    }
}

/// The exponent of a rounded ratio is bounded by how small the ratio is:
/// with `n >= 2^a` and `d <= 2^b`, `k + a < p + b`.
pub proof fn lemma_rounded_exponent_le(n: int, d: int, m: int, k: nat, p: nat, a: nat, b: nat)
    requires
        is_rounded(n, d, m, k, p),
        pow2(a) <= n,
        d <= pow2(b),
    ensures
        k + a < p + b,
{
    lemma_pow2_pos(k);
    lemma_pow2_pos(p);
    lemma_pow2_adds(a, k);
    lemma_pow2_adds(p, b);
    let pk = pow2(k) as int;
    assert(pow2(a) * pk < pow2(p) * pow2(b)) by (nonlinear_arith)
        requires
            pow2(a) <= n,
            n * pk < pow2(p) * d,
            d <= pow2(b),
            pk > 0,
            pow2(p) > 0,
    ;
    lemma_pow2_lt_inv(a + k, p + b);
}

/// The binary32 value (`(m, k)` for `m / 2^k`) nearest to `n / d`, where
/// zero is `(0, 0)`.
pub open spec fn round24(n: int, d: int) -> (int, nat) {
    if n == 0 {
        (0, 0)
    } else {
        rounded(n, d, 24)
    }
}

/// Rounds `n / d` to the nearest binary32 value.
pub fn round24_exec(n: u128, d: u128) -> (r: (u128, u32))
    requires
        d >= 1,
        d * pow2(24) <= pow2(123),
        n < pow2(24) * d,
    ensures
        r == (round24(n as int, d as int).0 as u128, round24(n as int, d as int).1 as u32),
        r.0 as int == round24(n as int, d as int).0,
        r.1 as nat == round24(n as int, d as int).1,
        r.0 <= pow2(24),
        r.1 < 123,
        n == 0 ==> r.0 == 0 && r.1 == 0,
        n > 0 ==> is_rounded(n as int, d as int, r.0 as int, r.1 as nat, 24) && pow2(23) <= r.0,
{
    if n == 0 {
        proof {
            lemma_pow2_pos(24);
        }
        return (0, 0);
    }
    let r = round_ratio(n, d, 24);
    proof {
        lemma_rounded_is(n as int, d as int, r.0 as int, r.1 as nat, 24);
    }
    r
}

/// A power of two below `2^128` fits in a `u128`.
pub proof fn lemma_pow2_fits_u128(e: nat)
    requires
        e < 128,
    ensures
        pow2(e) <= u128::MAX,
{
    lemma_pow2_values();
    lemma_pow2_strictly_increases(e, 128);
}

/// Scales a ratio below `2^p` into the binade `[2^(p-1), 2^p)` by doubling.
proof fn lemma_scale_into_binade(n: int, d: int, p: nat, k: nat) -> (kk: nat)
    requires
        0 < n,
        0 < d,
        p >= 1,
        n * pow2(k) < pow2(p) * d,
    ensures
        pow2((p - 1) as nat) * d <= n * pow2(kk),
        n * pow2(kk) < pow2(p) * d,
    decreases pow2(p) * d - n * pow2(k),
{
    if pow2((p - 1) as nat) * d <= n * pow2(k) {
        k
    } else {
        lemma_pow2_unfold((k + 1) as nat);
        lemma_pow2_unfold(p);
        lemma_pow2_pos(k);
        assert(((p - 1) as nat + 1) as nat == p);
        assert(n * pow2((k + 1) as nat) == 2 * (n * pow2(k))) by (nonlinear_arith)
            requires
                pow2((k + 1) as nat) == 2 * pow2(k),
        ;
        assert(pow2(p) * d == 2 * (pow2((p - 1) as nat) * d)) by (nonlinear_arith)
            requires
                pow2(p) == 2 * pow2((p - 1) as nat),
        ;
        assert(n * pow2(k) >= 1) by (nonlinear_arith)
            requires
                n >= 1,
                pow2(k) >= 1,
        ;
        lemma_scale_into_binade(n, d, p, (k + 1) as nat)
    }
}

/// Every positive ratio below `2^p` has a nearest number with a `p`-bit
/// significand, so `rounded` gives it.
pub proof fn lemma_rounded_exists(n: int, d: int, p: nat)
    requires
        0 < n,
        0 < d,
        p >= 1,
        n < pow2(p) * d,
    ensures
        is_rounded(n, d, rounded(n, d, p).0, rounded(n, d, p).1, p),
{
    assert(n * pow2(0) == n) by {
        lemma2_to64();
    }
    let k = lemma_scale_into_binade(n, d, p, 0);
    let a = n * pow2(k);
    let q = a / d;
    let r = a % d;
    lemma_fundamental_div_mod(a, d);
    lemma_mod_pos_bound(a, d);
    let m = if 2 * r > d || (2 * r == d && q % 2 == 1) {
        q + 1
    } else {
        q
    };
    if m == q + 1 {
        assert(a - m * d == r - d) by (nonlinear_arith)
            requires
                a == d * q + r,
                m == q + 1,
        ;
    } else {
        assert(a - m * d == r) by (nonlinear_arith)
            requires
                a == d * q + r,
                m == q,
        ;
    }
    assert(rounds_half_even(a, d, m));
    assert(is_rounded(n, d, (m, k).0, (m, k).1, p));
}

/// The value order of two numbers `(m, k)` standing for `m / 2^k`.
pub open spec fn value_le(x: (int, nat), y: (int, nat)) -> bool {
    x.0 * pow2(y.1) <= y.0 * pow2(x.1)
}

/// What a binary32 rounding of a nonnegative ratio below `2^24` is: zero,
/// or the nearest number with a 24-bit significand, which is normalized.
pub proof fn lemma_round24_facts(n: int, d: int)
    requires
        0 <= n,
        0 < d,
        n < pow2(24) * d,
    ensures
        round24(n, d).0 >= 0,
        n == 0 ==> round24(n, d) == (0int, 0nat),
        n > 0 ==> is_rounded(n, d, round24(n, d).0, round24(n, d).1, 24),
        n > 0 ==> pow2(23) <= round24(n, d).0 <= pow2(24),
{
    if n > 0 {
        lemma_rounded_exists(n, d, 24);
        let m = round24(n, d).0;
        let k = round24(n, d).1;
        assert((24 - 1) as nat == 23);
        lemma_rounds_half_even_ge(n * pow2(k), d, m, pow2(23) as int);
        lemma_rounds_half_even_le(n * pow2(k), d, m, pow2(24) as int);
        lemma_pow2_pos(23);
    }
}

/// A nonnegative ratio of at most `bound` rounds in binary32 to at most
/// `bound`.
pub proof fn lemma_round24_bounded(n: int, d: int, bound: int)
    requires
        0 <= n,
        0 < d,
        0 <= bound,
        bound < pow2(24),
        n <= bound * d,
    ensures
        0 <= round24(n, d).0 <= bound * pow2(round24(n, d).1),
{
    assert(n < pow2(24) * d) by (nonlinear_arith)
        requires
            n <= bound * d,
            bound < pow2(24),
            d > 0,
    ;
    lemma_round24_facts(n, d);
    if n > 0 {
        lemma_rounded_le(n, d, round24(n, d).0, round24(n, d).1, 24, bound);
    } else {
        lemma2_to64();
    }
}

/// Rounding to the nearest integer, ties to even, is monotone.
proof fn lemma_half_even_monotone(a1: int, b1: int, m1: int, a2: int, b2: int, m2: int)
    requires
        b1 > 0,
        b2 > 0,
        rounds_half_even(a1, b1, m1),
        rounds_half_even(a2, b2, m2),
        a1 * b2 <= a2 * b1,
    ensures
        m1 <= m2,
{
    let r1 = a1 - m1 * b1;
    let r2 = a2 - m2 * b2;
    assert(2 * r1 >= -b1 && 2 * r2 <= b2);
    assert((2 * m1 - 1) * b1 <= 2 * a1 && 2 * a2 <= (2 * m2 + 1) * b2) by (nonlinear_arith)
        requires
            r1 == a1 - m1 * b1,
            r2 == a2 - m2 * b2,
            2 * r1 >= -b1,
            2 * r2 <= b2,
    ;
    assert((2 * m1 - 1) * (b1 * b2) <= (2 * m2 + 1) * (b1 * b2)) by (nonlinear_arith)
        requires
            (2 * m1 - 1) * b1 <= 2 * a1,
            2 * a2 <= (2 * m2 + 1) * b2,
            a1 * b2 <= a2 * b1,
            b1 > 0,
            b2 > 0,
    ;
    assert(b1 * b2 > 0) by (nonlinear_arith)
        requires
            b1 > 0,
            b2 > 0,
    ;
    assert(2 * m1 - 1 <= 2 * m2 + 1) by (nonlinear_arith)
        requires
            (2 * m1 - 1) * (b1 * b2) <= (2 * m2 + 1) * (b1 * b2),
            b1 * b2 > 0,
    ;
    if m1 == m2 + 1 {
        // the chain above is then equalities: both are ties
        assert((2 * m1 - 1) * b1 == 2 * a1 && 2 * a2 == (2 * m2 + 1) * b2) by (nonlinear_arith)
            requires
                (2 * m1 - 1) * b1 <= 2 * a1,
                2 * a2 <= (2 * m2 + 1) * b2,
                a1 * b2 <= a2 * b1,
                b1 > 0,
                b2 > 0,
                m1 == m2 + 1,
        ;
        assert(2 * r1 == -b1 && 2 * r2 == b2) by (nonlinear_arith)
            requires
                r1 == a1 - m1 * b1,
                r2 == a2 - m2 * b2,
                (2 * m1 - 1) * b1 == 2 * a1,
                2 * a2 == (2 * m2 + 1) * b2,
        ;
        assert(m1 % 2 == 0 && m2 % 2 == 0);
    }
}

/// Binary32 rounding is monotone: a smaller (nonnegative) ratio never
/// rounds to a larger value.
pub proof fn lemma_round24_monotone(n1: int, d1: int, n2: int, d2: int)
    requires
        0 <= n1,
        0 < d1,
        0 < d2,
        n1 < pow2(24) * d1,
        n2 < pow2(24) * d2,
        n1 * d2 <= n2 * d1,
    ensures
        value_le(round24(n1, d1), round24(n2, d2)),
{
    assert(n2 >= 0) by (nonlinear_arith)
        requires
            n1 >= 0,
            d2 > 0,
            d1 > 0,
            n1 * d2 <= n2 * d1,
    ;
    lemma_round24_facts(n1, d1);
    lemma_round24_facts(n2, d2);
    let x = round24(n1, d1);
    let y = round24(n2, d2);
    if n1 == 0 {
        lemma2_to64();
        lemma_pow2_pos(y.1);
        assert(0 * pow2(y.1) <= y.0 * pow2(0)) by (nonlinear_arith)
            requires
                y.0 >= 0,
                pow2(0) == 1,
        ;
        return;
    }
    assert(n2 > 0) by (nonlinear_arith)
        requires
            n1 > 0,
            d2 > 0,
            d1 > 0,
            n1 * d2 <= n2 * d1,
    ;
    let (m1, k1) = x;
    let (m2, k2) = y;
    lemma_pow2_pos(k1);
    lemma_pow2_pos(k2);
    lemma_pow2_pos(23);
    lemma_pow2_unfold(24);
    assert(((24 - 1) as nat) == 23);
    if k1 == k2 {
        let pk = pow2(k1) as int;
        assert((n1 * pk) * d2 <= (n2 * pk) * d1) by (nonlinear_arith)
            requires
                n1 * d2 <= n2 * d1,
                pk > 0,
        ;
        lemma_half_even_monotone(n1 * pk, d1, m1, n2 * pk, d2, m2);
        assert(m1 * pk <= m2 * pk) by (nonlinear_arith)
            requires
                m1 <= m2,
                pk > 0,
        ;
    } else if k1 > k2 {
        lemma_pow2_ge_double(k2, k1);
        assert(m1 * pow2(k2) <= m2 * pow2(k1)) by (nonlinear_arith)
            requires
                m1 <= pow2(24),
                pow2(24) == 2 * pow2(23),
                m2 >= pow2(23),
                pow2(k1) >= 2 * pow2(k2),
                pow2(k2) > 0,
                m1 >= 0,
        ;
    } else {
        lemma_pow2_ge_double(k1, k2);
        assert(false) by (nonlinear_arith)
            requires
                pow2(23) * d1 <= n1 * pow2(k1),
                n2 * pow2(k2) < pow2(24) * d2,
                pow2(24) == 2 * pow2(23),
                pow2(k2) >= 2 * pow2(k1),
                n1 * d2 <= n2 * d1,
                d1 > 0,
                d2 > 0,
                n2 > 0,
                pow2(k1) > 0,
                pow2(23) > 0,
        ;
    }
}

} // verus!
