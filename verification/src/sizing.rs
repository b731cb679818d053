//! The size to which a wallpaper is scaled before its colors are counted.
use vstd::prelude::*;
use vstd::arithmetic::power2::*;
use crate::rounding::{
    lemma_pow2_lt_inv, lemma_pow2_values, lemma_rounded_relative_upper, lemma_rounded_relative_lower, lemma_rounded_sqrt_relative_lower, lemma_rounded_sqrt_relative_upper, lemma_rounds_half_even_le, lemma_rounded_is, lemma_rounded_sqrt_is, pow2_u128,
    round_ratio, round_sqrt, rounded_ratio, rounded_sqrt, TWO_53,
};

verus! {

/// The side of the largest square bitmap whose colors are counted as is.
pub const MAX_BITMAP_SIZE: i32 = 112;

/// The largest number of pixels whose colors are counted without scaling.
pub const MAX_WALLPAPER_EXTRACTION_AREA: i32 = MAX_BITMAP_SIZE * MAX_BITMAP_SIZE;

/// A value clamped into the range of `i32` (the conversion of a double to
/// `i32` saturates).
pub open spec fn clamp_i32(v: int) -> int {
    if v > i32::MAX {
        i32::MAX as int
    } else if v < i32::MIN {
        i32::MIN as int
    } else {
        v
    }
}

/// The scale factor `sqrt(12544 / area)` as a double, `(m, k)` for `m / 2^k`.
pub open spec fn scale_factor(area: int) -> (int, nat) {
    rounded_sqrt(rounded_ratio(MAX_WALLPAPER_EXTRACTION_AREA as int, area))
}

/// The side `x` multiplied by the scale factor in double arithmetic, then
/// truncated toward zero to an `i32`.
pub open spec fn scaled_extent(x: int, area: int) -> int {
    let s = scale_factor(area);
    if x == 0 {
        0
    } else {
        let ax = if x < 0 { -x } else { x };
        let p = rounded_ratio(ax * s.0, pow2(s.1) as int);
        let t = p.0 / (pow2(p.1) as int);
        clamp_i32(if x < 0 { -t } else { t })
    }
}

/// The size a `width` by `height` bitmap is scaled to: unchanged when its
/// area is at most `MAX_WALLPAPER_EXTRACTION_AREA`, else both sides
/// multiplied by `sqrt(MAX_WALLPAPER_EXTRACTION_AREA / area)`; a side that
/// comes out as 0 becomes 1.
pub open spec fn optimal_size(width: int, height: int) -> (int, int) {
    let area = width * height;
    let (w, h) = if area > MAX_WALLPAPER_EXTRACTION_AREA as int {
        (scaled_extent(width, area), scaled_extent(height, area))
    } else {
        (width, height)
    };
    if w == 0 {
        (1, if h > 1 { h } else { 1 })
    } else if h == 0 {
        (if w > 1 { w } else { 1 }, 1)
    } else {
        (w, h)
    }
}

/// `v` to the fifth power.
pub open spec fn fifth_power(v: int) -> int {
    v * v * v * v * v
}

/// Multiplies `x` by the scale factor for `area` as double arithmetic does,
/// truncating toward zero. The three roundings on the way (of the ratio, of
/// its square root and of the product) each err upward by at most a factor
/// of `1 + 2^-53`, so `r^2 <= x^2 * (12544 / area) * (1 + 2^-53)^5`.
fn scale_extent(x: i32, area: i32) -> (r: i32)
    requires
        area > MAX_WALLPAPER_EXTRACTION_AREA,
    ensures
        r == scaled_extent(x as int, area as int),
        x >= 0 ==> 0 <= r <= x,
        x >= 1 ==> fifth_power(pow2(53) as int) * (r * r * area) <= fifth_power(pow2(53) + 1int) * (x
            * x * 12544),
        x >= 1 ==> fifth_power(pow2(53) as int) * ((r + 1) * (r + 1) * area) > fifth_power(
            pow2(53) - 1int,
        ) * (x * x * 12544),
{
    if x == 0 {
        return 0;
    }
    proof {
        lemma_pow2_values();
        lemma_pow2_adds(53, 31);
        lemma_pow2_adds(31, 39);
        lemma2_to64();
        lemma_pow2_strictly_increases(31, 70);
        assert(MAX_WALLPAPER_EXTRACTION_AREA == 12544);
        lemma_pow2_adds(53, 70);
        lemma_pow2_strictly_increases(123, 128);
        lemma_pow2_values();
        assert(area * pow2(53) <= pow2(123)) by (nonlinear_arith)
            requires
                area < pow2(31),
                pow2(123) == pow2(53) * pow2(70),
                pow2(31) < pow2(70),
                pow2(53) > 0,
        ;
        assert((12544 as u128) < pow2(53) * (area as u128)) by (nonlinear_arith)
            requires
                area > 12544,
                pow2(53) == TWO_53,
        ;
    }
    let q = round_ratio(12544, area as u128, 53);
    let mq = q.0;
    let kq = q.1;
    proof {
        lemma_rounded_is(12544, area as int, mq as int, kq as nat, 53);
        // the quotient is below one, so its exponent is above 52
        assert(pow2(52) < pow2(kq as nat)) by (nonlinear_arith)
            requires
                pow2(52) * area <= 12544 * pow2(kq as nat),
                area > 12544,
                pow2(52) > 0,
        ;
        lemma_pow2_lt_inv(52, kq as nat);
        // the quotient is above 2^-31, so its exponent is below 84
        lemma_pow2_adds(53, 31);
        assert(pow2(kq as nat) < pow2(84)) by (nonlinear_arith)
            requires
                12544 * pow2(kq as nat) < pow2(53) * area,
                area < pow2(31),
                pow2(84) == pow2(53) * pow2(31),
                pow2(53) > 0,
        ;
        lemma_pow2_lt_inv(kq as nat, 84);
    }
    let s = round_sqrt(mq, kq);
    let ms = s.0;
    let ks = s.1;
    proof {
        // the quotient is at most one, and so is its square root
        lemma_pow2_pos(kq as nat);
        assert(12544 * pow2(kq as nat) <= pow2(kq as nat) * area) by (nonlinear_arith)
            requires
                area > 12544,
                pow2(kq as nat) > 0,
        ;
        lemma_rounds_half_even_le((12544 * pow2(kq as nat)) as int, area as int, mq as int, pow2(kq as nat) as int);
        lemma_pow2_adds(ks as nat, ks as nat);
        lemma_pow2_pos(ks as nat);
        let pk = pow2(ks as nat) as int;
        let x2 = pow2(kq as nat) as int;
        assert((2 * ks) as nat == ks + ks);
        assert(ms <= pk) by (nonlinear_arith)
            requires
                (2 * ms - 1) * (2 * ms - 1) * x2 < 4 * mq * (pk * pk),
                mq <= x2,
                x2 > 0,
                pk > 0,
                ms >= 1,
        ;
        lemma_rounded_sqrt_is(mq as int, kq as nat, ms as int, ks as nat);
        assert(scale_factor(area as int) == (ms as int, ks as nat));
    }
    let ax: u128 = if x < 0 {
        (-(x as i64)) as u128
    } else {
        x as u128
    };
    let d = pow2_u128(ks);
    proof {
        lemma_pow2_strictly_increases(ks as nat, 70);
        lemma_pow2_adds(53, ks as nat);
        lemma_pow2_adds(31, 53);
        if ks > 52 {
            lemma_pow2_strictly_increases(52, ks as nat);
        }
        lemma_pow2_strictly_increases(84, (53 + ks) as nat);
        assert(ax <= pow2(31));
        assert(ax * ms <= pow2(31) * pow2(53)) by (nonlinear_arith)
            requires
                0 <= ax <= pow2(31),
                0 <= ms <= pow2(53),
        ;
        assert(ax * ms >= 1) by (nonlinear_arith)
            requires
                ax >= 1,
                ms >= 1,
        ;
        assert(pow2(84) < pow2(53) * pow2(ks as nat));
        lemma_pow2_adds(ks as nat, 53);
        if ks + 53 < 123 {
            lemma_pow2_strictly_increases((ks + 53) as nat, 123);
        }
    }
    let n: u128 = ax * ms;
    let p = round_ratio(n, d, 53);
    let mp = p.0;
    let kp = p.1;
    proof {
        lemma_rounded_is(n as int, d as int, mp as int, kp as nat, 53);
    }
    let t: u128 = mp / pow2_u128(kp);
    proof {
        lemma_pow2_pos(kp as nat);
        if x >= 0 {
            let pkp = pow2(kp as nat) as int;
            let pks = pow2(ks as nat) as int;
            assert(n * pkp <= x * pkp * pks) by (nonlinear_arith)
                requires
                    n == x * ms,
                    ms <= pks,
                    x >= 0,
                    pkp > 0,
            ;
            lemma_rounds_half_even_le(n * pkp, pks, mp as int, x * pkp);
            assert(t <= x) by (nonlinear_arith)
                requires
                    t as int == (mp as int) / pkp,
                    mp <= x * pkp,
                    pkp > 0,
            ;
        }
        assert(t <= mp) by (nonlinear_arith)
            requires
                t as int == (mp as int) / (pow2(kp as nat) as int),
                pow2(kp as nat) >= 1,
        ;
        lemma_pow2_pos(kp as nat);
    }
    proof {
        if x >= 1 {
            let u = pow2(53) as int;
            let v = u + 1;
            let a = area as int;
            let xq = pow2(kq as nat) as int;
            let dd = pow2(ks as nat) as int;
            let pkp = pow2(kp as nat) as int;
            lemma_pow2_pos(53);
            lemma_pow2_pos(kq as nat);
            lemma_pow2_pos(ks as nat);
            lemma_pow2_pos(kp as nat);
            lemma_pow2_adds(ks as nat, ks as nat);
            assert((2 * ks) as nat == (ks + ks) as nat);
            lemma_rounded_relative_upper(12544, a, mq as int, kq as nat, 53);
            lemma_rounded_sqrt_relative_upper(mq as int, kq as nat, ms as int, ks as nat);
            lemma_rounded_relative_upper(n as int, d as int, mp as int, kp as nat, 53);
            assert(t * pkp <= mp) by (nonlinear_arith)
                requires
                    t as int == (mp as int) / pkp,
                    pkp > 0,
            ;
            // the product: t <= x * s * (1 + 2^-53)
            assert(u * t * dd <= v * x * ms) by (nonlinear_arith)
                requires
                    u * (mp * d) <= v * (n * pkp),
                    t * pkp <= mp,
                    n == x * ms,
                    d == dd,
                    pkp > 0,
                    u > 0,
                    t >= 0,
                    dd > 0,
            ;
            assert(u * u * (t * t) * (dd * dd) <= v * v * (x * x) * (ms * ms)) by (nonlinear_arith)
                requires
                    u * t * dd <= v * x * ms,
                    u > 0,
                    t >= 0,
                    dd > 0,
            ;
            // the square root: s^2 <= q * (1 + 2^-53)^2
            assert(dd * dd > 0) by (nonlinear_arith)
                requires
                    dd > 0,
            ;
            let tt = t * t;
            let xx = x * x;
            let ss = ms * ms;
            let d2 = dd * dd;
            let uu = u * u;
            let vv = v * v;
            assert(uu * tt * d2 <= vv * xx * ss) by (nonlinear_arith)
                requires
                    u * u * (t * t) * (dd * dd) <= v * v * (x * x) * (ms * ms),
                    tt == t * t,
                    xx == x * x,
                    ss == ms * ms,
                    d2 == dd * dd,
                    uu == u * u,
                    vv == v * v,
            ;
            assert(uu * (ss * xq) <= vv * (mq * d2)) by (nonlinear_arith)
                requires
                    u * u * (ms * ms * xq) <= v * v * (mq * (dd * dd)),
                    ss == ms * ms,
                    d2 == dd * dd,
                    uu == u * u,
                    vv == v * v,
            ;
            let lhs = uu * tt * d2;
            let rhs = vv * xx * ss;
            assert(lhs * (uu * xq) <= rhs * (uu * xq)) by (nonlinear_arith)
                requires
                    lhs <= rhs,
                    uu * xq >= 0,
            ;
            let l2 = uu * (ss * xq);
            let r2 = vv * (mq * d2);
            assert(l2 * (vv * xx) <= r2 * (vv * xx)) by (nonlinear_arith)
                requires
                    l2 <= r2,
                    vv * xx >= 0,
            ;
            assert(rhs * (uu * xq) == l2 * (vv * xx)) by (nonlinear_arith)
                requires
                    rhs == vv * xx * ss,
                    l2 == uu * (ss * xq),
            ;
            assert(lhs * (uu * xq) == d2 * (uu * uu * tt * xq)) by (nonlinear_arith)
                requires
                    lhs == uu * tt * d2,
            ;
            assert(r2 * (vv * xx) == d2 * (vv * vv * xx * mq)) by (nonlinear_arith)
                requires
                    r2 == vv * (mq * d2),
            ;
            assert(uu * uu * tt * xq <= vv * vv * xx * mq) by (nonlinear_arith)
                requires
                    d2 * (uu * uu * tt * xq) <= d2 * (vv * vv * xx * mq),
                    d2 > 0,
            ;
            assert(u * u * u * u * (t * t) * xq <= v * v * v * v * (x * x) * mq) by (nonlinear_arith)
                requires
                    uu * uu * tt * xq <= vv * vv * xx * mq,
                    tt == t * t,
                    xx == x * x,
                    uu == u * u,
                    vv == v * v,
            ;
            // the ratio: q <= (12544 / area) * (1 + 2^-53)
            assert(fifth_power(u) * (t * t * a) <= fifth_power(v) * (x * x * 12544)) by (nonlinear_arith)
                requires
                    u * u * u * u * (t * t) * xq <= v * v * v * v * (x * x) * mq,
                    u * (mq * a) <= v * (12544 * xq),
                    u > 0,
                    v > 0,
                    xq > 0,
                    a > 0,
            ;
            // and from below, with the factor 1 - 2^-53 and t + 1 for the truncation
            let w = u - 1;
            let t1 = t + 1;
            lemma_rounded_relative_lower(12544, a, mq as int, kq as nat, 53);
            lemma_rounded_sqrt_relative_lower(mq as int, kq as nat, ms as int, ks as nat);
            lemma_rounded_relative_lower(n as int, d as int, mp as int, kp as nat, 53);
            lemma_pow2_strictly_increases(1, 53);
            lemma2_to64();
            assert(mp < t1 * pkp) by (nonlinear_arith)
                requires
                    t as int == (mp as int) / pkp,
                    t1 == t + 1,
                    pkp > 0,
                    mp >= 0,
            ;
            assert(u * t1 * dd > w * x * ms) by (nonlinear_arith)
                requires
                    u * (mp * d) >= w * (n * pkp),
                    mp < t1 * pkp,
                    n == x * ms,
                    d == dd,
                    pkp > 0,
                    u > 0,
                    dd > 0,
            ;
            let t1t1 = t1 * t1;
            let ww = w * w;
            assert(x * ms >= 0) by (nonlinear_arith)
                requires
                    x >= 1,
                    ms >= 0,
            ;
            assert(uu * t1t1 * d2 > ww * xx * ss) by (nonlinear_arith)
                requires
                    u * t1 * dd > w * x * ms,
                    w * x * ms >= 0,
                    t1t1 == t1 * t1,
                    ww == w * w,
                    xx == x * x,
                    ss == ms * ms,
                    d2 == dd * dd,
                    uu == u * u,
                    w > 0,
            ;
            assert(uu * (ss * xq) >= ww * (mq * d2)) by (nonlinear_arith)
                requires
                    u * u * (ms * ms * xq) >= w * w * (mq * (dd * dd)),
                    ss == ms * ms,
                    d2 == dd * dd,
                    uu == u * u,
                    ww == w * w,
            ;
            let lhs2 = uu * t1t1 * d2;
            let rhs2 = ww * xx * ss;
            assert(lhs2 * (uu * xq) > rhs2 * (uu * xq)) by (nonlinear_arith)
                requires
                    lhs2 > rhs2,
                    uu * xq > 0,
            ;
            let l3 = uu * (ss * xq);
            let r3 = ww * (mq * d2);
            assert(l3 * (ww * xx) >= r3 * (ww * xx)) by (nonlinear_arith)
                requires
                    l3 >= r3,
                    ww * xx >= 0,
            ;
            assert(rhs2 * (uu * xq) == l3 * (ww * xx)) by (nonlinear_arith)
                requires
                    rhs2 == ww * xx * ss,
                    l3 == uu * (ss * xq),
            ;
            assert(lhs2 * (uu * xq) == d2 * (uu * uu * t1t1 * xq)) by (nonlinear_arith)
                requires
                    lhs2 == uu * t1t1 * d2,
            ;
            assert(r3 * (ww * xx) == d2 * (ww * ww * xx * mq)) by (nonlinear_arith)
                requires
                    r3 == ww * (mq * d2),
            ;
            assert(uu * uu * t1t1 * xq > ww * ww * xx * mq) by (nonlinear_arith)
                requires
                    d2 * (uu * uu * t1t1 * xq) > d2 * (ww * ww * xx * mq),
                    d2 > 0,
            ;
            let ll = uu * uu * t1t1;
            let rr = ww * ww * xx;
            assert(ll * xq > rr * mq);
            assert(rr >= 0) by (nonlinear_arith)
                requires
                    rr == ww * ww * xx,
                    xx == x * x,
            ;
            assert((ll * xq) * (u * a) > (rr * mq) * (u * a)) by (nonlinear_arith)
                requires
                    ll * xq > rr * mq,
                    u * a > 0,
            ;
            assert((rr * mq) * (u * a) == rr * (u * (mq * a))) by (nonlinear_arith);
            assert(rr * (u * (mq * a)) >= rr * (w * (12544 * xq))) by (nonlinear_arith)
                requires
                    u * (mq * a) >= w * (12544 * xq),
                    rr >= 0,
            ;
            assert(xq * (ll * u * a) > xq * (rr * w * 12544)) by (nonlinear_arith)
                requires
                    (ll * xq) * (u * a) > rr * (w * (12544 * xq)),
            ;
            assert(ll * u * a > rr * w * 12544) by (nonlinear_arith)
                requires
                    xq * (ll * u * a) > xq * (rr * w * 12544),
                    xq > 0,
            ;
            assert(fifth_power(u) * (t1 * t1 * a) == ll * u * a && fifth_power(w) * (x * x * 12544)
                == rr * w * 12544) by (nonlinear_arith)
                requires
                    ll == uu * uu * t1t1,
                    rr == ww * ww * xx,
                    t1t1 == t1 * t1,
                    xx == x * x,
                    uu == u * u,
                    ww == w * w,
            ;
        }
    }
    let ti = t as i128;
    let v: i128 = if x < 0 {
        -ti
    } else {
        ti
    };
    if v > i32::MAX as i128 {
        i32::MAX
    } else if v < i32::MIN as i128 {
        i32::MIN
    } else {
        v as i32
    }
}

/// Two sides scaled by the factor for their area, each within
/// `(1 + 2^-53)^5` of the exact scaling in square, cover at most
/// `MAX_WALLPAPER_EXTRACTION_AREA` pixels: the error is far below one pixel.
proof fn lemma_scaled_area(w: int, h: int, sw: int, sh: int)
    requires
        w >= 1,
        h >= 1,
        sw >= 1,
        sh >= 1,
        fifth_power(pow2(53) as int) * (sw * sw * (w * h)) <= fifth_power(pow2(53) + 1int) * (w * w
            * 12544),
        fifth_power(pow2(53) as int) * (sh * sh * (w * h)) <= fifth_power(pow2(53) + 1int) * (h * h
            * 12544),
    ensures
        sw * sh <= MAX_WALLPAPER_EXTRACTION_AREA,
{
    lemma_pow2_values();
    let u5 = fifth_power(pow2(53) as int);
    let v5 = fifth_power(pow2(53) + 1int);
    let m = 12544int;
    let a = w * h;
    assert(u5 > 0 && v5 > 0) by (nonlinear_arith)
        requires
            pow2(53) > 0,
            u5 == fifth_power(pow2(53) as int),
            v5 == fifth_power(pow2(53) + 1int),
    ;
    assert(a > 0) by (nonlinear_arith)
        requires
            w >= 1,
            h >= 1,
            a == w * h,
    ;
    let l1 = u5 * (sw * sw * a);
    let r1 = v5 * (w * w * m);
    let l2 = u5 * (sh * sh * a);
    let r2 = v5 * (h * h * m);
    assert(l1 * l2 <= r1 * r2) by (nonlinear_arith)
        requires
            0 <= l1 <= r1,
            0 <= l2 <= r2,
    ;
    let p = u5 * (sw * sh);
    let q = v5 * m;
    assert(l1 * l2 == (p * p) * (a * a)) by (nonlinear_arith)
        requires
            l1 == u5 * (sw * sw * a),
            l2 == u5 * (sh * sh * a),
            p == u5 * (sw * sh),
    ;
    assert(r1 * r2 == (q * q) * (a * a)) by (nonlinear_arith)
        requires
            r1 == v5 * (w * w * m),
            r2 == v5 * (h * h * m),
            q == v5 * m,
            a == w * h,
    ;
    assert(p * p <= q * q) by (nonlinear_arith)
        requires
            (p * p) * (a * a) <= (q * q) * (a * a),
            a > 0,
    ;
    assert(p <= q) by (nonlinear_arith)
        requires
            p * p <= q * q,
            p >= 0,
            q >= 0,
    ;
    // (1 + 2^-53)^5 * 12544 < 12545
    assert(pow2(53) == 0x20_0000_0000_0000);
    assert(u5 == 59285549689505892056868344324448208820874232148807968788202283012051522375647232int)
        by (nonlinear_arith)
        requires
            u5 == fifth_power(pow2(53) as int),
            pow2(53) == 0x20_0000_0000_0000,
    ;
    assert(v5 == 59285549689505924966959490748576359428444537811220383251229243960740955335688193int)
        by (nonlinear_arith)
        requires
            v5 == fifth_power(pow2(53) + 1int),
            pow2(53) == 0x20_0000_0000_0000,
    ;
    assert(v5 * m < u5 * (m + 1));
    assert(sw * sh < m + 1) by (nonlinear_arith)
        requires
            u5 * (sw * sh) <= v5 * m,
            v5 * m < u5 * (m + 1),
            u5 > 0,
    ;
}

/// Two sides scaled by the factor for their area, each one pixel more than
/// at least `(1 - 2^-53)^5` of the exact scaling in square, cover with one
/// more pixel each way at least `MAX_WALLPAPER_EXTRACTION_AREA` pixels: the
/// scaled size is the largest below the limit, up to the truncation.
proof fn lemma_scaled_area_lower(w: int, h: int, sw: int, sh: int)
    requires
        w >= 1,
        h >= 1,
        sw >= 0,
        sh >= 0,
        fifth_power(pow2(53) as int) * ((sw + 1) * (sw + 1) * (w * h)) > fifth_power(
            pow2(53) - 1int,
        ) * (w * w * 12544),
        fifth_power(pow2(53) as int) * ((sh + 1) * (sh + 1) * (w * h)) > fifth_power(
            pow2(53) - 1int,
        ) * (h * h * 12544),
    ensures
        (sw + 1) * (sh + 1) >= MAX_WALLPAPER_EXTRACTION_AREA,
{
    lemma_pow2_values();
    let u5 = fifth_power(pow2(53) as int);
    let w5 = fifth_power(pow2(53) - 1int);
    let m = 12544int;
    let a = w * h;
    assert(pow2(53) == 0x20_0000_0000_0000);
    assert(u5 == 59285549689505892056868344324448208820874232148807968788202283012051522375647232int)
        by (nonlinear_arith)
        requires
            u5 == fifth_power(pow2(53) as int),
            pow2(53) == 0x20_0000_0000_0000,
    ;
    assert(w5 == 59285549689505859146777197900334673229677235515577591173502484983630641288445951int)
        by (nonlinear_arith)
        requires
            w5 == fifth_power(pow2(53) - 1int),
            pow2(53) == 0x20_0000_0000_0000,
    ;
    assert(a > 0) by (nonlinear_arith)
        requires
            w >= 1,
            h >= 1,
            a == w * h,
    ;
    let l1 = u5 * ((sw + 1) * (sw + 1) * a);
    let r1 = w5 * (w * w * m);
    let l2 = u5 * ((sh + 1) * (sh + 1) * a);
    let r2 = w5 * (h * h * m);
    assert(r1 > 0 && r2 > 0) by (nonlinear_arith)
        requires
            r1 == w5 * (w * w * m),
            r2 == w5 * (h * h * m),
            w5 > 0,
            m > 0,
            w >= 1,
            h >= 1,
    ;
    assert(l1 * l2 > r1 * r2) by (nonlinear_arith)
        requires
            l1 > r1,
            l2 > r2,
            r1 > 0,
            r2 > 0,
    ;
    let p = u5 * ((sw + 1) * (sh + 1));
    let q = w5 * m;
    assert(l1 * l2 == (p * p) * (a * a)) by (nonlinear_arith)
        requires
            l1 == u5 * ((sw + 1) * (sw + 1) * a),
            l2 == u5 * ((sh + 1) * (sh + 1) * a),
            p == u5 * ((sw + 1) * (sh + 1)),
    ;
    assert(r1 * r2 == (q * q) * (a * a)) by (nonlinear_arith)
        requires
            r1 == w5 * (w * w * m),
            r2 == w5 * (h * h * m),
            q == w5 * m,
            a == w * h,
    ;
    assert(p * p > q * q) by (nonlinear_arith)
        requires
            (p * p) * (a * a) > (q * q) * (a * a),
            a > 0,
    ;
    assert(p >= 0) by (nonlinear_arith)
        requires
            p == u5 * ((sw + 1) * (sh + 1)),
            u5 > 0,
            sw >= 0,
            sh >= 0,
    ;
    assert(p > q) by (nonlinear_arith)
        requires
            p * p > q * q,
            p >= 0,
            q >= 0,
    ;
    // (1 - 2^-53)^5 * 12544 > 12543
    assert(q > u5 * (m - 1));
    assert((sw + 1) * (sh + 1) > m - 1) by (nonlinear_arith)
        requires
            u5 * ((sw + 1) * (sh + 1)) > u5 * (m - 1),
            u5 > 0,
    ;
}

/// The size a bitmap of `width` by `height` pixels is scaled to before its
/// colors are counted (see `optimal_size`).
pub fn calculate_optimal_size(width: i32, height: i32) -> (res: (i32, i32))
    requires
        i32::MIN <= width * height <= i32::MAX,
    ensures
        (res.0 as int, res.1 as int) == optimal_size(width as int, height as int),
        width * height <= MAX_WALLPAPER_EXTRACTION_AREA && width != 0 && height != 0 ==> res == (
            width,
            height,
        ),
        width >= 1 && height >= 1 ==> 1 <= res.0 <= width && 1 <= res.1 <= height,
        width >= 1 && height >= 1 ==> res.0 * res.1 <= MAX_WALLPAPER_EXTRACTION_AREA || res.0 == 1
            || res.1 == 1,
        width >= 1 && height >= 1 && width * height > MAX_WALLPAPER_EXTRACTION_AREA && res.0 > 1
            && res.1 > 1 ==> (res.0 + 1) * (res.1 + 1) >= MAX_WALLPAPER_EXTRACTION_AREA,
{
    let requested_area = width * height;
    let (new_width, new_height) = if requested_area > MAX_WALLPAPER_EXTRACTION_AREA {
        let sw = scale_extent(width, requested_area);
        let sh = scale_extent(height, requested_area);
        proof {
            if width >= 1 && height >= 1 && sw >= 1 && sh >= 1 {
                lemma_scaled_area(width as int, height as int, sw as int, sh as int);
                lemma_scaled_area_lower(width as int, height as int, sw as int, sh as int);
            }
        }
        (sw, sh)
    } else {
        (width, height)
    };
    if new_width == 0 {
        return (1, if new_height > 1 { new_height } else { 1 });
    }
    if new_height == 0 {
        return (if new_width > 1 { new_width } else { 1 }, 1);
    }
    (new_width, new_height)
}

} // verus!
