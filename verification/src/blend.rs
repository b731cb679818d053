//! Alpha compositing of two colors as binary32 arithmetic computes it.
//!
//! A binary32 value is written `(m, k)` for `m / 2^k` (zero as `(0, 0)`);
//! each operation is the exact result rounded to a 24-bit significand.
use vstd::prelude::*;
use vstd::arithmetic::power2::*;
use crate::color::Argb;
use crate::rounding::{
    lemma_rounded_relative_lower, lemma_rounded_relative_upper, lemma_round24_bounded, lemma_round24_monotone, value_le,
    is_rounded, lemma_pow2_fits_u128, lemma_pow2_lt_inv, lemma_rounded_exponent_le, lemma_rounded_le, pow2_u128,
    round24, round24_exec,
};

verus! {

/// The binary32 product of two binary32 values.
pub open spec fn b32_mul(x: (int, nat), y: (int, nat)) -> (int, nat) {
    round24(x.0 * y.0, pow2(x.1 + y.1) as int)
}

/// The binary32 sum of two binary32 values.
pub open spec fn b32_add(x: (int, nat), y: (int, nat)) -> (int, nat) {
    round24(x.0 * pow2(y.1) + y.0 * pow2(x.1), pow2(x.1 + y.1) as int)
}

/// One minus a binary32 value of at most one, in binary32.
pub open spec fn b32_one_minus(x: (int, nat)) -> (int, nat) {
    round24(pow2(x.1) - x.0, pow2(x.1) as int)
}

/// A nonnegative binary32 value converted to `u8`: truncated toward zero,
/// saturating at 255.
pub open spec fn to_u8_saturating(x: (int, nat)) -> u8 {
    let v = x.0 / (pow2(x.1) as int);
    if v > 255 {
        255
    } else {
        v as u8
    }
}

/// The binary32 quotient `x / y` converted to `u8`. A quotient of at least
/// 256 rounds to at least 256 (which is representable), so it converts to 255.
pub open spec fn quotient_to_u8(x: (int, nat), y: (int, nat)) -> u8 {
    let n = x.0 * pow2(y.1);
    let d = y.0 * pow2(x.1);
    if n >= 256 * d {
        255
    } else {
        to_u8_saturating(round24(n, d))
    }
}

/// One channel of the composite: `(f * fa + b * ba * om) / alpha`.
pub open spec fn composite_channel(
    f: u8,
    b: u8,
    fa: (int, nat),
    ba: (int, nat),
    om: (int, nat),
    alpha: (int, nat),
) -> u8 {
    let num = b32_add(b32_mul((f as int, 0), fa), b32_mul(b32_mul((b as int, 0), ba), om));
    quotient_to_u8(num, alpha)
}

/// `foreground` over `background`, with the channel weights `alpha / 255`
/// and the arithmetic of binary32: the combined alpha is
/// `fa + ba * (1 - fa)`; when it is zero the result is transparent black,
/// else each channel is `(f * fa + b * ba * (1 - fa)) / alpha` and the alpha
/// channel is `alpha * 255`, each truncated to a byte.
pub open spec fn composite(foreground: Argb, background: Argb) -> Argb {
    let fa = round24(foreground.alpha as int, 255);
    let ba = round24(background.alpha as int, 255);
    let om = b32_one_minus(fa);
    let alpha = b32_add(fa, b32_mul(ba, om));
    if alpha.0 == 0 {
        Argb { alpha: 0, red: 0, green: 0, blue: 0 }
    } else {
        Argb {
            alpha: to_u8_saturating(b32_mul(alpha, (255, 0))),
            red: composite_channel(foreground.red, background.red, fa, ba, om, alpha),
            green: composite_channel(foreground.green, background.green, fa, ba, om, alpha),
            blue: composite_channel(foreground.blue, background.blue, fa, ba, om, alpha),
        }
    }
}

/// The saturating branch of `quotient_to_u8` agrees with rounding: a
/// quotient of at least 256 (and below `2^24`) rounds to a value that
/// converts to 255.
pub proof fn lemma_quotient_saturates(n: int, d: int, m: int, k: nat)
    requires
        is_rounded(n, d, m, k, 24),
        n >= 256 * d,
    ensures
        to_u8_saturating((m, k)) == 255,
{
    lemma_pow2_pos(k);
    let pk = pow2(k) as int;
    assert(n * pk >= (256 * pk) * d) by (nonlinear_arith)
        requires
            n >= 256 * d,
            pk > 0,
    ;
    crate::rounding::lemma_rounds_half_even_ge(n * pk, d, m, 256 * pk);
    assert(m / pk >= 256) by (nonlinear_arith)
        requires
            m >= 256 * pk,
            pk > 0,
    ;
}

/// A machine pair as a binary32 value.
pub open spec fn b32(x: (u128, u32)) -> (int, nat) {
    (x.0 as int, x.1 as nat)
}

proof fn lemma_pow2_le(a: nat, b: nat)
    requires
        a <= b,
    ensures
        pow2(a) <= pow2(b),
{
    if a < b {
        lemma_pow2_strictly_increases(a, b);
    }
}

/// The binary32 product, for factors of at most `bx` and `by`.
fn mul32(x: (u128, u32), y: (u128, u32), Ghost(bx): Ghost<int>, Ghost(by): Ghost<int>) -> (r: (
    u128,
    u32,
))
    requires
        0 <= x.0 <= pow2(24),
        0 <= y.0 <= pow2(24),
        x.0 <= bx * pow2(x.1 as nat),
        y.0 <= by * pow2(y.1 as nat),
        0 <= bx,
        0 <= by,
        bx * by < pow2(24),
        x.1 + y.1 <= 99,
    ensures
        b32(r) == b32_mul(b32(x), b32(y)),
        r.0 <= pow2(24),
        r.1 < 123,
        r.0 <= bx * by * pow2(r.1 as nat),
        x.0 == 0 || y.0 == 0 ==> r == (0u128, 0u32),
        x.0 > 0 && y.0 > 0 ==> r.0 >= pow2(23),
        x.0 >= 1 && y.0 >= pow2(23) ==> r.1 <= x.1 + y.1,
        x.0 >= pow2(23) && y.0 >= pow2(23) ==> r.1 + 23 <= x.1 + y.1,
{
    let d = pow2_u128(x.1 + y.1);
    proof {
        lemma_pow2_values_small();
        lemma_pow2_pos((x.1 + y.1) as nat);
        lemma_pow2_adds(24, 24);
        lemma_pow2_adds((x.1 + y.1) as nat, 24);
        lemma_pow2_le((x.1 + y.1 + 24) as nat, 123);
        lemma_pow2_adds(x.1 as nat, y.1 as nat);
        assert(x.0 * y.0 <= pow2(24) * pow2(24)) by (nonlinear_arith)
            requires
                0 <= x.0 <= pow2(24),
                0 <= y.0 <= pow2(24),
        ;
        assert(x.0 * y.0 <= (bx * by) * d) by (nonlinear_arith)
            requires
                0 <= x.0 <= bx * pow2(x.1 as nat),
                0 <= y.0 <= by * pow2(y.1 as nat),
                d == pow2(x.1 as nat) * pow2(y.1 as nat),
                bx >= 0,
                by >= 0,
        ;
        assert(x.0 * y.0 < pow2(24) * d) by (nonlinear_arith)
            requires
                x.0 * y.0 <= (bx * by) * d,
                bx * by < pow2(24),
                d > 0,
        ;
    }
    let r = round24_exec(x.0 * y.0, d);
    proof {
        let n = (x.0 * y.0) as int;
        lemma_pow2_pos(r.1 as nat);
        if n > 0 {
            lemma_rounded_le(n, d as int, r.0 as int, r.1 as nat, 24, bx * by);
            lemma_pow2_adds(23, 23);
            lemma_pow2_values_small();
            if x.0 >= 1 && y.0 >= pow2(23) {
                assert(pow2(23) <= n) by (nonlinear_arith)
                    requires
                        n == x.0 * y.0,
                        x.0 >= 1,
                        y.0 >= pow2(23),
                ;
                lemma_rounded_exponent_le(n, d as int, r.0 as int, r.1 as nat, 24, 23, (x.1 + y.1) as nat);
            }
            if x.0 >= pow2(23) && y.0 >= pow2(23) {
                assert(pow2(46) <= n) by (nonlinear_arith)
                    requires
                        n == x.0 * y.0,
                        x.0 >= pow2(23),
                        y.0 >= pow2(23),
                        pow2(46) == pow2(23) * pow2(23),
                ;
                lemma_rounded_exponent_le(n, d as int, r.0 as int, r.1 as nat, 24, 46, (x.1 + y.1) as nat);
            }
        } else {
            assert(x.0 == 0 || y.0 == 0) by (nonlinear_arith)
                requires
                    x.0 * y.0 == 0,
            ;
            assert(r.0 <= bx * by * pow2(r.1 as nat)) by (nonlinear_arith)
                requires
                    r.0 == 0,
                    bx >= 0,
                    by >= 0,
                    pow2(r.1 as nat) > 0,
            ;
        }
        assert(x.0 > 0 && y.0 > 0 ==> n > 0) by (nonlinear_arith)
            requires
                n == x.0 * y.0,
        ;
    }
    r
}

/// The binary32 sum, for terms of at most `bx` and `by`.
fn add32(x: (u128, u32), y: (u128, u32), Ghost(bx): Ghost<int>, Ghost(by): Ghost<int>) -> (r: (
    u128,
    u32,
))
    requires
        0 <= x.0 <= pow2(24),
        0 <= y.0 <= pow2(24),
        x.0 <= bx * pow2(x.1 as nat),
        y.0 <= by * pow2(y.1 as nat),
        0 <= bx,
        0 <= by,
        bx + by < pow2(24),
        x.1 + y.1 <= 99,
    ensures
        b32(r) == b32_add(b32(x), b32(y)),
        r.0 <= pow2(24),
        r.1 < 123,
        r.0 <= (bx + by) * pow2(r.1 as nat),
        x.0 == 0 && y.0 == 0 ==> r == (0u128, 0u32),
        x.0 > 0 || y.0 > 0 ==> r.0 >= pow2(23),
        x.0 >= pow2(23) ==> r.1 <= x.1,
        y.0 >= pow2(23) ==> r.1 <= y.1,
{
    proof {
        lemma_pow2_values_small();
        lemma_pow2_le(x.1 as nat, 99);
        lemma_pow2_le(y.1 as nat, 99);
        lemma_pow2_adds(24, 99);
        lemma_pow2_adds(24, 100);
        lemma_pow2_le(124, 127);
        lemma_pow2_adds(1, 99);
        lemma_pow2_values_small();
        lemma2_to64();
    }
    let px = pow2_u128(x.1);
    let py = pow2_u128(y.1);
    proof {
        lemma_pow2_pos(x.1 as nat);
        lemma_pow2_pos(y.1 as nat);
        assert(x.0 * py <= pow2(24) * pow2(99)) by (nonlinear_arith)
            requires
                0 <= x.0 <= pow2(24),
                0 < py <= pow2(99),
        ;
        assert(y.0 * px <= pow2(24) * pow2(99)) by (nonlinear_arith)
            requires
                0 <= y.0 <= pow2(24),
                0 < px <= pow2(99),
        ;
        lemma_pow2_adds(1, 123);
        lemma_pow2_fits_u128(124);
    }
    let n = x.0 * py + y.0 * px;
    let d = pow2_u128(x.1 + y.1);
    proof {
        lemma_pow2_adds(x.1 as nat, y.1 as nat);
        lemma_pow2_pos((x.1 + y.1) as nat);
        lemma_pow2_adds((x.1 + y.1) as nat, 24);
        lemma_pow2_le((x.1 + y.1 + 24) as nat, 123);
        assert(n <= (bx + by) * d) by (nonlinear_arith)
            requires
                n == x.0 * py + y.0 * px,
                0 <= x.0 <= bx * px,
                0 <= y.0 <= by * py,
                d == px * py,
                px > 0,
                py > 0,
        ;
        assert(n < pow2(24) * d) by (nonlinear_arith)
            requires
                n <= (bx + by) * d,
                bx + by < pow2(24),
                d > 0,
        ;
    }
    let r = round24_exec(n, d);
    proof {
        lemma_pow2_pos(r.1 as nat);
        if n > 0 {
            lemma_rounded_le(n as int, d as int, r.0 as int, r.1 as nat, 24, bx + by);
            if x.0 >= pow2(23) {
                lemma_pow2_adds(23, y.1 as nat);
                assert(pow2((23 + y.1) as nat) <= n) by (nonlinear_arith)
                    requires
                        n == x.0 * py + y.0 * px,
                        x.0 >= pow2(23),
                        y.0 * px >= 0,
                        py > 0,
                        pow2((23 + y.1) as nat) == pow2(23) * py,
                ;
                lemma_rounded_exponent_le(n as int, d as int, r.0 as int, r.1 as nat, 24, (23 + y.1) as nat, (x.1 + y.1) as nat);
            }
            if y.0 >= pow2(23) {
                lemma_pow2_adds(23, x.1 as nat);
                assert(pow2((23 + x.1) as nat) <= n) by (nonlinear_arith)
                    requires
                        n == x.0 * py + y.0 * px,
                        y.0 >= pow2(23),
                        x.0 * py >= 0,
                        px > 0,
                        pow2((23 + x.1) as nat) == pow2(23) * px,
                ;
                lemma_rounded_exponent_le(n as int, d as int, r.0 as int, r.1 as nat, 24, (23 + x.1) as nat, (x.1 + y.1) as nat);
            }
        } else {
            assert(x.0 == 0 && y.0 == 0) by (nonlinear_arith)
                requires
                    x.0 * py + y.0 * px == 0,
                    x.0 >= 0,
                    y.0 >= 0,
                    px > 0,
                    py > 0,
            ;
        }
        assert(x.0 > 0 || y.0 > 0 ==> n > 0) by (nonlinear_arith)
            requires
                n == x.0 * py + y.0 * px,
                x.0 >= 0,
                y.0 >= 0,
                px > 0,
                py > 0,
        ;
        assert(r.0 <= (bx + by) * pow2(r.1 as nat)) by (nonlinear_arith)
            requires
                n > 0 ==> r.0 <= (bx + by) * pow2(r.1 as nat),
                n == 0 ==> r.0 == 0,
                bx + by >= 0,
                pow2(r.1 as nat) > 0,
        ;
    }
    r
}

/// One minus a binary32 value of at most one.
fn one_minus32(x: (u128, u32)) -> (r: (u128, u32))
    requires
        0 <= x.0 <= pow2(x.1 as nat),
        x.1 <= 75,
    ensures
        b32(r) == b32_one_minus(b32(x)),
        r.0 <= pow2(24),
        r.0 <= pow2(r.1 as nat),
        r.1 <= x.1 + 23,
        r.0 > 0 ==> r.0 >= pow2(23),
{
    let d = pow2_u128(x.1);
    proof {
        lemma_pow2_values_small();
        lemma_pow2_pos(x.1 as nat);
        lemma_pow2_adds(x.1 as nat, 24);
        lemma_pow2_le((x.1 + 24) as nat, 123);
        assert(d - x.0 < pow2(24) * d) by (nonlinear_arith)
            requires
                d > 0,
                pow2(24) > 1,
                x.0 >= 0,
        ;
    }
    let r = round24_exec(d - x.0, d);
    proof {
        lemma_pow2_pos(r.1 as nat);
        let n = (d - x.0) as int;
        if n > 0 {
            lemma_rounded_le(n, d as int, r.0 as int, r.1 as nat, 24, 1);
            lemma_rounded_exponent_le(n, d as int, r.0 as int, r.1 as nat, 24, 0, x.1 as nat);
        }
    }
    r
}

/// A nonnegative binary32 value converted to `u8`, saturating.
fn to_u8(x: (u128, u32)) -> (r: u8)
    requires
        x.1 < 123,
    ensures
        r == to_u8_saturating(b32(x)),
{
    proof {
        lemma_pow2_pos(x.1 as nat);
    }
    let v = x.0 / pow2_u128(x.1);
    if v > 255 {
        255
    } else {
        v as u8
    }
}

/// The binary32 quotient `x / y` converted to `u8`, saturating.
fn quotient_u8(x: (u128, u32), y: (u128, u32)) -> (r: u8)
    requires
        0 <= x.0 <= pow2(24),
        1 <= y.0 <= pow2(24),
        x.1 <= 62,
        y.1 <= 62,
    ensures
        r == quotient_to_u8(b32(x), b32(y)),
{
    proof {
        lemma_pow2_values_small();
        lemma_pow2_le(x.1 as nat, 62);
        lemma_pow2_le(y.1 as nat, 62);
        lemma_pow2_adds(24, 62);
        lemma_pow2_adds(86, 24);
        lemma_pow2_adds(8, 86);
        lemma_pow2_le(110, 123);
        lemma_pow2_le(94, 127);
        lemma2_to64();
    }
    let px = pow2_u128(x.1);
    let py = pow2_u128(y.1);
    proof {
        lemma_pow2_pos(x.1 as nat);
        lemma_pow2_pos(y.1 as nat);
        assert(x.0 * py <= pow2(24) * pow2(62)) by (nonlinear_arith)
            requires
                0 <= x.0 <= pow2(24),
                0 < py <= pow2(62),
        ;
        assert(y.0 * px <= pow2(24) * pow2(62)) by (nonlinear_arith)
            requires
                0 <= y.0 <= pow2(24),
                0 < px <= pow2(62),
        ;
        lemma_pow2_fits_u128(86);
        assert(y.0 * px >= 1) by (nonlinear_arith)
            requires
                y.0 >= 1,
                px >= 1,
        ;
    }
    let n = x.0 * py;
    let d = y.0 * px;
    proof {
        lemma_pow2_fits_u128(94);
        assert(256 * d <= pow2(94)) by (nonlinear_arith)
            requires
                d <= pow2(24) * pow2(62),
                pow2(86) == pow2(24) * pow2(62),
                pow2(94) == pow2(8) * pow2(86),
                pow2(8) == 256,
        ;
    }
    if n >= 256 * d {
        return 255;
    }
    proof {
        assert(d * pow2(24) <= pow2(123)) by (nonlinear_arith)
            requires
                d <= pow2(86),
                pow2(110) == pow2(86) * pow2(24),
                pow2(110) <= pow2(123),
                pow2(24) > 0,
        ;
        assert(n < pow2(24) * d) by (nonlinear_arith)
            requires
                n < 256 * d,
                pow2(24) == 0x100_0000,
        ;
    }
    let q = round24_exec(n, d);
    to_u8(q)
}

/// One channel of the composite.
fn channel(
    f: u8,
    b: u8,
    fa: (u128, u32),
    ba: (u128, u32),
    om: (u128, u32),
    alpha: (u128, u32),
) -> (r: u8)
    requires
        0 <= fa.0 <= pow2(fa.1 as nat),
        0 <= ba.0 <= pow2(ba.1 as nat),
        0 <= om.0 <= pow2(om.1 as nat),
        fa.0 <= pow2(24),
        ba.0 <= pow2(24),
        om.0 <= pow2(24),
        fa.0 > 0 ==> fa.0 >= pow2(23),
        ba.0 > 0 ==> ba.0 >= pow2(23),
        om.0 > 0 ==> om.0 >= pow2(23),
        fa.1 <= 31,
        ba.1 <= 31,
        om.1 <= 54,
        1 <= alpha.0 <= pow2(24),
        alpha.1 <= 62,
    ensures
        r == composite_channel(f, b, b32(fa), b32(ba), b32(om), b32(alpha)),
{
    proof {
        lemma_pow2_values_small();
    }
    let tf = mul32((f as u128, 0), fa, Ghost(255), Ghost(1));
    let tb = mul32((b as u128, 0), ba, Ghost(255), Ghost(1));
    let tbo = mul32(tb, om, Ghost(255), Ghost(1));
    let num = add32(tf, tbo, Ghost(255), Ghost(255));
    quotient_u8(num, alpha)
}

/// `foreground` over `background`, computed as binary32 arithmetic does
/// (see `composite`).
pub fn composite_colors(foreground: Argb, background: Argb) -> (r: Argb)
    ensures
        r == composite(foreground, background),
{
    proof {
        lemma_pow2_values_small();
        lemma2_to64();
        lemma_pow2_le(32, 123);
    }
    let fa = round24_exec(foreground.alpha as u128, 255);
    let ba = round24_exec(background.alpha as u128, 255);
    proof {
        lemma_pow2_pos(fa.1 as nat);
        lemma_pow2_pos(ba.1 as nat);
        if foreground.alpha > 0 {
            lemma_rounded_le(foreground.alpha as int, 255, fa.0 as int, fa.1 as nat, 24, 1);
            lemma_rounded_exponent_le(foreground.alpha as int, 255, fa.0 as int, fa.1 as nat, 24, 0, 8);
        }
        if background.alpha > 0 {
            lemma_rounded_le(background.alpha as int, 255, ba.0 as int, ba.1 as nat, 24, 1);
            lemma_rounded_exponent_le(background.alpha as int, 255, ba.0 as int, ba.1 as nat, 24, 0, 8);
        }
    }
    let om = one_minus32(fa);
    let bm = mul32(ba, om, Ghost(1), Ghost(1));
    let alpha = add32(fa, bm, Ghost(1), Ghost(1));
    if alpha.0 == 0 {
        return Argb { alpha: 0, red: 0, green: 0, blue: 0 };
    }
    let alpha_byte = to_u8(mul32(alpha, (255, 0), Ghost(2), Ghost(255)));
    Argb {
        alpha: alpha_byte,
        red: channel(foreground.red, background.red, fa, ba, om, alpha),
        green: channel(foreground.green, background.green, fa, ba, om, alpha),
        blue: channel(foreground.blue, background.blue, fa, ba, om, alpha),
    }
}

/// Small powers of two.
proof fn lemma_pow2_values_small()
    ensures
        pow2(0) == 1,
        pow2(8) == 256,
        pow2(23) == 0x80_0000,
        pow2(24) == 0x100_0000,
{
    lemma2_to64();
}

/// An exponent that brings a positive integer below `2^24` into `[2^23, 2^24)`.
proof fn lemma_normalizing_exponent(f: int) -> (k: nat)
    requires
        1 <= f < pow2(24),
    ensures
        pow2(23) <= f * pow2(k) < pow2(24),
    decreases pow2(24) - f,
{
    lemma_pow2_values_small();
    if f >= pow2(23) {
        assert(f * pow2(0) == f);
        0
    } else {
        let k = lemma_normalizing_exponent(2 * f);
        lemma_pow2_unfold(k + 1);
        assert(f * pow2(k + 1) == (2 * f) * pow2(k)) by (nonlinear_arith)
            requires
                pow2(k + 1) == 2 * pow2(k),
        ;
        k + 1
    }
}

/// A ratio that is exactly the integer `f` (below `2^24`) rounds to `f`
/// itself: `round24(n, d)` is `(f * 2^k, k)`.
pub proof fn lemma_round24_exact(n: int, d: int, f: int)
    requires
        d > 0,
        0 <= f < pow2(24),
        n == f * d,
    ensures
        round24(n, d).0 == f * pow2(round24(n, d).1),
{
    if f == 0 {
        assert(n == 0) by (nonlinear_arith)
            requires
                n == f * d,
                f == 0,
        ;
        assert(round24(n, d) == (0int, 0nat));
    } else {
        let k = lemma_normalizing_exponent(f);
        let pk = pow2(k) as int;
        let m = f * pk;
        lemma_pow2_pos(k);
        lemma_pow2_adds(23, 1);
        lemma_pow2_values_small();
        assert(n * pk - m * d == 0) by (nonlinear_arith)
            requires
                n == f * d,
                m == f * pk,
        ;
        assert(pow2(23) * d <= n * pk < pow2(24) * d) by (nonlinear_arith)
            requires
                pow2(23) <= f * pk < pow2(24),
                n == f * d,
                d > 0,
        ;
        assert(is_rounded(n, d, m, k, 24));
        assert(n > 0) by (nonlinear_arith)
            requires
                n == f * d,
                f >= 1,
                d > 0,
        ;
        crate::rounding::lemma_rounded_is(n, d, m, k, 24);
    }
}

/// A ratio that is exactly the byte `f` converts back to `f`.
proof fn lemma_round24_exact_byte(n: int, d: int, f: int)
    requires
        d > 0,
        0 <= f <= 255,
        n == f * d,
    ensures
        to_u8_saturating(round24(n, d)) == f,
{
    lemma_pow2_values_small();
    lemma_round24_exact(n, d, f);
    let r = round24(n, d);
    lemma_pow2_pos(r.1);
    assert(r.0 / (pow2(r.1) as int) == f) by (nonlinear_arith)
        requires
            r.0 == f * pow2(r.1),
            pow2(r.1) > 0,
    ;
}

/// The value one, `(2^k, k)`, at some exponent.
pub open spec fn is_one(x: (int, nat)) -> bool {
    x.0 == pow2(x.1) && x.0 > 0
}

/// An opaque foreground covers the background: compositing it over any
/// color gives the foreground back.
pub proof fn lemma_opaque_foreground_covers(foreground: Argb, background: Argb)
    requires
        foreground.alpha == 255,
    ensures
        composite(foreground, background) == foreground,
{
    lemma_pow2_values_small();
    let fa = round24(255, 255);
    lemma_round24_exact(255, 255, 1);
    lemma_pow2_pos(fa.1);
    let ba = round24(background.alpha as int, 255);
    let om = b32_one_minus(fa);
    assert(om == (0int, 0nat));
    let bm = b32_mul(ba, om);
    assert(bm == (0int, 0nat));
    let alpha = b32_add(fa, bm);
    assert(pow2(0) == 1);
    assert(fa.1 + 0 == fa.1);
    lemma_round24_exact(pow2(fa.1) as int, pow2(fa.1) as int, 1);
    assert(alpha == round24(pow2(fa.1) as int, pow2(fa.1) as int));
    lemma_pow2_pos(alpha.1);
    assert(alpha.0 != 0);
    lemma_round24_exact_byte(alpha.0 * 255, pow2(alpha.1) as int, 255);
    assert(alpha.1 + 0 == alpha.1);
    lemma_channel_covered(foreground.red, background.red, fa, ba, om, alpha);
    lemma_channel_covered(foreground.green, background.green, fa, ba, om, alpha);
    lemma_channel_covered(foreground.blue, background.blue, fa, ba, om, alpha);
}

/// A channel under a foreground weight of one and a background weight of
/// zero is the foreground channel.
proof fn lemma_channel_covered(
    f: u8,
    b: u8,
    fa: (int, nat),
    ba: (int, nat),
    om: (int, nat),
    alpha: (int, nat),
)
    requires
        is_one(fa),
        om == (0int, 0nat),
        is_one(alpha),
    ensures
        composite_channel(f, b, fa, ba, om, alpha) == f,
{
    lemma_pow2_values_small();
    lemma_pow2_pos(fa.1);
    lemma_pow2_pos(alpha.1);
    let tf = b32_mul((f as int, 0), fa);
    assert((0 + fa.1) as nat == fa.1);
    assert(f * fa.0 == f * pow2(fa.1));
    lemma_round24_exact(f * fa.0, pow2(fa.1) as int, f as int);
    lemma_pow2_pos(tf.1);
    let tbo = b32_mul(b32_mul((b as int, 0), ba), om);
    assert(tbo == (0int, 0nat));
    let num = b32_add(tf, tbo);
    assert(tf.1 + 0 == tf.1);
    assert(tf.0 * pow2(0) + 0 * pow2(tf.1) == f * pow2(tf.1));
    lemma_round24_exact(tf.0 * pow2(0) + 0 * pow2(tf.1), pow2(tf.1) as int, f as int);
    lemma_pow2_pos(num.1);
    let n = num.0 * pow2(alpha.1);
    let d = alpha.0 * pow2(num.1);
    assert(n == f * d) by (nonlinear_arith)
        requires
            num.0 == f * pow2(num.1),
            alpha.0 == pow2(alpha.1),
            n == num.0 * pow2(alpha.1),
            d == alpha.0 * pow2(num.1),
    ;
    assert(d > 0) by (nonlinear_arith)
        requires
            alpha.0 > 0,
            pow2(num.1) > 0,
            d == alpha.0 * pow2(num.1),
    ;
    assert(n < 256 * d) by (nonlinear_arith)
        requires
            n == f * d,
            f <= 255,
            d > 0,
    ;
    lemma_round24_exact_byte(n, d, f as int);
}

/// Compositing two fully transparent colors gives transparent black.
pub proof fn lemma_transparent_over_transparent(foreground: Argb, background: Argb)
    requires
        foreground.alpha == 0,
        background.alpha == 0,
    ensures
        composite(foreground, background) == (Argb { alpha: 0, red: 0, green: 0, blue: 0 }),
{
    let fa = round24(0, 255);
    let ba = round24(0, 255);
    assert(fa == (0int, 0nat));
    assert(ba == (0int, 0nat));
    let om = b32_one_minus(fa);
    assert(b32_mul(ba, om) == (0int, 0nat));
    assert(b32_add(fa, b32_mul(ba, om)).0 == 0);
}

/// A fully transparent foreground over an opaque background leaves the
/// background.
pub proof fn lemma_transparent_over_opaque(foreground: Argb, background: Argb)
    requires
        foreground.alpha == 0,
        background.alpha == 255,
    ensures
        composite(foreground, background) == background,
{
    lemma_pow2_values_small();
    let fa = round24(0, 255);
    assert(fa == (0int, 0nat));
    let ba = round24(255, 255);
    lemma_round24_exact(255, 255, 1);
    lemma_pow2_pos(ba.1);
    let om = b32_one_minus(fa);
    assert(om == round24(1, 1));
    lemma_round24_exact(1, 1, 1);
    lemma_pow2_pos(om.1);
    let bm = b32_mul(ba, om);
    lemma_pow2_adds(ba.1, om.1);
    lemma_pow2_pos(ba.1 + om.1);
    lemma_round24_exact(ba.0 * om.0, pow2(ba.1 + om.1) as int, 1);
    lemma_pow2_pos(bm.1);
    let alpha = b32_add(fa, bm);
    assert((0 + bm.1) as nat == bm.1);
    assert(fa.0 * pow2(bm.1) + bm.0 * pow2(fa.1) == bm.0);
    lemma_round24_exact(bm.0, pow2(bm.1) as int, 1);
    lemma_pow2_pos(alpha.1);
    assert(alpha.1 + 0 == alpha.1);
    lemma_round24_exact_byte(alpha.0 * 255, pow2(alpha.1) as int, 255);
    lemma_channel_revealed(foreground.red, background.red, fa, ba, om, alpha);
    lemma_channel_revealed(foreground.green, background.green, fa, ba, om, alpha);
    lemma_channel_revealed(foreground.blue, background.blue, fa, ba, om, alpha);
}

/// A channel under a foreground weight of zero and a background weight of
/// one is the background channel.
proof fn lemma_channel_revealed(
    f: u8,
    b: u8,
    fa: (int, nat),
    ba: (int, nat),
    om: (int, nat),
    alpha: (int, nat),
)
    requires
        fa == (0int, 0nat),
        is_one(ba),
        is_one(om),
        is_one(alpha),
    ensures
        composite_channel(f, b, fa, ba, om, alpha) == b,
{
    lemma_pow2_values_small();
    lemma_pow2_pos(ba.1);
    lemma_pow2_pos(om.1);
    lemma_pow2_pos(alpha.1);
    let tf = b32_mul((f as int, 0), fa);
    assert(tf == (0int, 0nat));
    let tb = b32_mul((b as int, 0), ba);
    assert((0 + ba.1) as nat == ba.1);
    lemma_round24_exact(b * ba.0, pow2(ba.1) as int, b as int);
    lemma_pow2_pos(tb.1);
    let tbo = b32_mul(tb, om);
    lemma_pow2_adds(tb.1, om.1);
    lemma_pow2_pos(tb.1 + om.1);
    assert(tb.0 * om.0 == b * pow2(tb.1 + om.1)) by (nonlinear_arith)
        requires
            tb.0 == b * pow2(tb.1),
            om.0 == pow2(om.1),
            pow2(tb.1 + om.1) == pow2(tb.1) * pow2(om.1),
    ;
    lemma_round24_exact(tb.0 * om.0, pow2(tb.1 + om.1) as int, b as int);
    lemma_pow2_pos(tbo.1);
    let num = b32_add(tf, tbo);
    assert((0 + tbo.1) as nat == tbo.1);
    assert(tf.0 * pow2(tbo.1) + tbo.0 * pow2(tf.1) == b * pow2(tbo.1));
    lemma_round24_exact(b * pow2(tbo.1), pow2(tbo.1) as int, b as int);
    lemma_pow2_pos(num.1);
    let n = num.0 * pow2(alpha.1);
    let d = alpha.0 * pow2(num.1);
    assert(n == b * d) by (nonlinear_arith)
        requires
            num.0 == b * pow2(num.1),
            alpha.0 == pow2(alpha.1),
            n == num.0 * pow2(alpha.1),
            d == alpha.0 * pow2(num.1),
    ;
    assert(d > 0) by (nonlinear_arith)
        requires
            alpha.0 > 0,
            pow2(num.1) > 0,
            d == alpha.0 * pow2(num.1),
    ;
    assert(n < 256 * d) by (nonlinear_arith)
        requires
            n == b * d,
            b <= 255,
            d > 0,
    ;
    lemma_round24_exact_byte(n, d, b as int);
}

/// `x` stands for a value in `[0, bound]`.
pub open spec fn in_range(x: (int, nat), bound: int) -> bool {
    0 <= x.0 <= bound * pow2(x.1)
}

/// A binary32 product of values in `[0, bx]` and `[0, by]` lies in
/// `[0, bx * by]`.
proof fn lemma_mul_in_range(x: (int, nat), y: (int, nat), bx: int, by: int)
    requires
        in_range(x, bx),
        in_range(y, by),
        0 <= bx,
        0 <= by,
        bx * by < pow2(24),
    ensures
        in_range(b32_mul(x, y), bx * by),
{
    lemma_pow2_adds(x.1, y.1);
    lemma_pow2_pos(x.1);
    lemma_pow2_pos(y.1);
    let px = pow2(x.1) as int;
    let py = pow2(y.1) as int;
    assert(0 <= x.0 * y.0 <= (bx * by) * (px * py)) by (nonlinear_arith)
        requires
            0 <= x.0 <= bx * px,
            0 <= y.0 <= by * py,
            0 <= bx,
            0 <= by,
    ;
    assert(px * py > 0) by (nonlinear_arith)
        requires
            px > 0,
            py > 0,
    ;
    lemma_round24_bounded(x.0 * y.0, px * py, bx * by);
}

/// A binary32 product is monotone in its first factor.
proof fn lemma_mul_monotone(x1: (int, nat), x2: (int, nat), y: (int, nat))
    requires
        in_range(x1, 255),
        in_range(x2, 255),
        in_range(y, 1),
        value_le(x1, x2),
    ensures
        value_le(b32_mul(x1, y), b32_mul(x2, y)),
{
    lemma_pow2_adds(x1.1, y.1);
    lemma_pow2_adds(x2.1, y.1);
    lemma_pow2_pos(x1.1);
    lemma_pow2_pos(x2.1);
    lemma_pow2_pos(y.1);
    let p1 = pow2(x1.1) as int;
    let p2 = pow2(x2.1) as int;
    let py = pow2(y.1) as int;
    lemma_pow2_values_small();
    assert(x1.0 * y.0 < pow2(24) * (p1 * py) && x2.0 * y.0 < pow2(24) * (p2 * py)
        && p1 * py > 0 && p2 * py > 0) by (nonlinear_arith)
        requires
            0 <= x1.0 <= 255 * p1,
            0 <= x2.0 <= 255 * p2,
            0 <= y.0 <= py,
            pow2(24) > 255,
            p1 > 0,
            p2 > 0,
            py > 0,
    ;
    assert((x1.0 * y.0) * (p2 * py) <= (x2.0 * y.0) * (p1 * py)) by (nonlinear_arith)
        requires
            x1.0 * p2 <= x2.0 * p1,
            y.0 >= 0,
            py > 0,
    ;
    lemma_round24_monotone(x1.0 * y.0, p1 * py, x2.0 * y.0, p2 * py);
}

/// A binary32 sum of values in `[0, 255]` is monotone in its first term.
proof fn lemma_add_monotone(x1: (int, nat), x2: (int, nat), z: (int, nat))
    requires
        in_range(x1, 255),
        in_range(x2, 255),
        in_range(z, 255),
        value_le(x1, x2),
    ensures
        value_le(b32_add(x1, z), b32_add(x2, z)),
        in_range(b32_add(x1, z), 510),
        in_range(b32_add(x2, z), 510),
{
    lemma_pow2_adds(x1.1, z.1);
    lemma_pow2_adds(x2.1, z.1);
    lemma_pow2_pos(x1.1);
    lemma_pow2_pos(x2.1);
    lemma_pow2_pos(z.1);
    lemma_pow2_values_small();
    let p1 = pow2(x1.1) as int;
    let p2 = pow2(x2.1) as int;
    let pz = pow2(z.1) as int;
    let n1 = x1.0 * pz + z.0 * p1;
    let n2 = x2.0 * pz + z.0 * p2;
    assert(0 <= n1 <= 510 * (p1 * pz) && 0 <= n2 <= 510 * (p2 * pz) && p1 * pz > 0 && p2 * pz > 0)
        by (nonlinear_arith)
        requires
            0 <= x1.0 <= 255 * p1,
            0 <= x2.0 <= 255 * p2,
            0 <= z.0 <= 255 * pz,
            n1 == x1.0 * pz + z.0 * p1,
            n2 == x2.0 * pz + z.0 * p2,
            p1 > 0,
            p2 > 0,
            pz > 0,
    ;
    assert(n1 * (p2 * pz) <= n2 * (p1 * pz)) by (nonlinear_arith)
        requires
            x1.0 * p2 <= x2.0 * p1,
            n1 == x1.0 * pz + z.0 * p1,
            n2 == x2.0 * pz + z.0 * p2,
            pz > 0,
            z.0 >= 0,
    ;
    lemma_round24_bounded(n1, p1 * pz, 510);
    lemma_round24_bounded(n2, p2 * pz, 510);
    lemma_round24_monotone(n1, p1 * pz, n2, p2 * pz);
}

/// Truncating a nonnegative value to a byte, saturating, is monotone.
proof fn lemma_to_u8_monotone(r1: (int, nat), r2: (int, nat))
    requires
        r1.0 >= 0,
        value_le(r1, r2),
    ensures
        to_u8_saturating(r1) <= to_u8_saturating(r2),
{
    lemma_pow2_pos(r1.1);
    lemma_pow2_pos(r2.1);
    let p1 = pow2(r1.1) as int;
    let p2 = pow2(r2.1) as int;
    assert(r2.0 >= 0) by (nonlinear_arith)
        requires
            r1.0 >= 0,
            r1.0 * p2 <= r2.0 * p1,
            p1 > 0,
            p2 > 0,
    ;
    let q1 = r1.0 / p1;
    let q2 = r2.0 / p2;
    vstd::arithmetic::div_mod::lemma_fundamental_div_mod(r1.0, p1);
    vstd::arithmetic::div_mod::lemma_fundamental_div_mod(r2.0, p2);
    vstd::arithmetic::div_mod::lemma_mod_pos_bound(r1.0, p1);
    vstd::arithmetic::div_mod::lemma_mod_pos_bound(r2.0, p2);
    assert(q1 <= q2) by (nonlinear_arith)
        requires
            r1.0 == p1 * q1 + r1.0 % p1,
            r2.0 == p2 * q2 + r2.0 % p2,
            0 <= r1.0 % p1 < p1,
            0 <= r2.0 % p2 < p2,
            r1.0 * p2 <= r2.0 * p1,
            p1 > 0,
            p2 > 0,
    ;
}

/// The byte of a binary32 quotient is monotone in its numerator.
proof fn lemma_quotient_monotone(x1: (int, nat), x2: (int, nat), y: (int, nat))
    requires
        in_range(x1, 510),
        in_range(x2, 510),
        y.0 > 0,
        value_le(x1, x2),
    ensures
        quotient_to_u8(x1, y) <= quotient_to_u8(x2, y),
{
    lemma_pow2_pos(x1.1);
    lemma_pow2_pos(x2.1);
    lemma_pow2_pos(y.1);
    lemma_pow2_values_small();
    let p1 = pow2(x1.1) as int;
    let p2 = pow2(x2.1) as int;
    let py = pow2(y.1) as int;
    let n1 = x1.0 * py;
    let d1 = y.0 * p1;
    let n2 = x2.0 * py;
    let d2 = y.0 * p2;
    if n2 >= 256 * d2 {
        return;
    }
    assert(n1 < 256 * d1) by (nonlinear_arith)
        requires
            n2 < 256 * d2,
            n1 == x1.0 * py,
            d1 == y.0 * p1,
            n2 == x2.0 * py,
            d2 == y.0 * p2,
            x1.0 * p2 <= x2.0 * p1,
            p1 > 0,
            p2 > 0,
            py > 0,
            y.0 > 0,
    ;
    assert(n1 >= 0 && d1 > 0 && d2 > 0 && n1 < pow2(24) * d1 && n2 < pow2(24) * d2
        && n1 * d2 <= n2 * d1) by (nonlinear_arith)
        requires
            n1 < 256 * d1,
            n2 < 256 * d2,
            n1 == x1.0 * py,
            d1 == y.0 * p1,
            n2 == x2.0 * py,
            d2 == y.0 * p2,
            x1.0 * p2 <= x2.0 * p1,
            x1.0 >= 0,
            p1 > 0,
            p2 > 0,
            py > 0,
            y.0 > 0,
            pow2(24) > 256,
    ;
    lemma_round24_monotone(n1, d1, n2, d2);
    crate::rounding::lemma_round24_facts(n1, d1);
    lemma_to_u8_monotone(round24(n1, d1), round24(n2, d2));
}

/// A channel of the composite is monotone in the foreground channel.
proof fn lemma_channel_monotone(
    f1: u8,
    f2: u8,
    b: u8,
    fa: (int, nat),
    ba: (int, nat),
    om: (int, nat),
    alpha: (int, nat),
)
    requires
        f1 <= f2,
        in_range(fa, 1),
        in_range(ba, 1),
        in_range(om, 1),
        alpha.0 > 0,
    ensures
        composite_channel(f1, b, fa, ba, om, alpha) <= composite_channel(f2, b, fa, ba, om, alpha),
{
    lemma_pow2_values_small();
    assert(pow2(0) == 1);
    let g1 = (f1 as int, 0nat);
    let g2 = (f2 as int, 0nat);
    assert(g1.1 == 0 && g2.1 == 0);
    assert(pow2(g1.1) == 1 && pow2(g2.1) == 1);
    assert(g1.0 * pow2(g2.1) == g1.0 && g2.0 * pow2(g1.1) == g2.0) by (nonlinear_arith)
        requires
            pow2(g1.1) == 1,
            pow2(g2.1) == 1,
    ;
    assert(255 * pow2(g1.1) == 255 && 255 * pow2(g2.1) == 255);
    assert(in_range(g1, 255) && in_range(g2, 255) && value_le(g1, g2));
    let bb = b32_mul((b as int, 0nat), ba);
    lemma_mul_in_range((b as int, 0nat), ba, 255, 1);
    let t2 = b32_mul(bb, om);
    lemma_mul_in_range(bb, om, 255, 1);
    lemma_mul_in_range(g1, fa, 255, 1);
    lemma_mul_in_range(g2, fa, 255, 1);
    lemma_mul_monotone(g1, g2, fa);
    let t11 = b32_mul(g1, fa);
    let t12 = b32_mul(g2, fa);
    lemma_add_monotone(t11, t12, t2);
    lemma_quotient_monotone(b32_add(t11, t2), b32_add(t12, t2), alpha);
}

/// Compositing is monotone in the foreground's color channels: of two
/// foregrounds with the same alpha, the one whose channel is at least the
/// other's gives, over any background, a channel at least as large. (So a
/// translucent black layer darkens at least as much as any other color of
/// its alpha.)
pub proof fn lemma_composite_monotone_in_foreground(lo: Argb, hi: Argb, background: Argb)
    requires
        lo.alpha == hi.alpha,
        lo.red <= hi.red,
        lo.green <= hi.green,
        lo.blue <= hi.blue,
    ensures
        composite(lo, background).red <= composite(hi, background).red,
        composite(lo, background).green <= composite(hi, background).green,
        composite(lo, background).blue <= composite(hi, background).blue,
        composite(lo, background).alpha == composite(hi, background).alpha,
{
    lemma_pow2_values_small();
    let fa = round24(lo.alpha as int, 255);
    let ba = round24(background.alpha as int, 255);
    lemma_round24_bounded(lo.alpha as int, 255, 1);
    lemma_round24_bounded(background.alpha as int, 255, 1);
    let om = b32_one_minus(fa);
    lemma_pow2_pos(fa.1);
    lemma_round24_bounded(pow2(fa.1) - fa.0, pow2(fa.1) as int, 1);
    let bm = b32_mul(ba, om);
    lemma_mul_in_range(ba, om, 1, 1);
    let alpha = b32_add(fa, bm);
    lemma_pow2_adds(fa.1, bm.1);
    lemma_pow2_pos(bm.1);
    let pf = pow2(fa.1) as int;
    let pb = pow2(bm.1) as int;
    assert(0 <= fa.0 * pb + bm.0 * pf <= 2 * (pf * pb) && pf * pb > 0) by (nonlinear_arith)
        requires
            0 <= fa.0 <= pf,
            0 <= bm.0 <= pb,
            pf > 0,
            pb > 0,
    ;
    lemma_round24_bounded(fa.0 * pb + bm.0 * pf, pf * pb, 2);
    if alpha.0 != 0 {
        lemma_channel_monotone(lo.red, hi.red, background.red, fa, ba, om, alpha);
        lemma_channel_monotone(lo.green, hi.green, background.green, fa, ba, om, alpha);
        lemma_channel_monotone(lo.blue, hi.blue, background.blue, fa, ba, om, alpha);
    }
}

/// The fixed denominator `255 * 2^32` in which the error bounds below are
/// counted.
pub open spec fn bound_den() -> int {
    1095216660480
}

/// `x` is a nonnegative value in `[lo / bound_den(), hi / bound_den()]`.
pub open spec fn within(x: (int, nat), lo: int, hi: int) -> bool {
    &&& x.0 >= 0
    &&& lo * pow2(x.1) <= x.0 * bound_den()
    &&& x.0 * bound_den() <= hi * pow2(x.1)
}

/// A binary32 rounding of `n / d` lies within a factor `1 -+ 2^-24` of it.
proof fn lemma_round24_within(n: int, d: int, lo: int, hi: int)
    requires
        0 <= n,
        0 < d,
        n < 0x100_0000 * d,
        0x100_0000 * lo * d <= 0xff_ffff * (n * bound_den()),
        0x100_0000 * hi * d >= 0x100_0001 * (n * bound_den()),
    ensures
        within(round24(n, d), lo, hi),
{
    lemma_pow2_values_small();
    crate::rounding::lemma_round24_facts(n, d);
    let r = round24(n, d);
    let kk = bound_den();
    if n == 0 {
        assert(lo <= 0 && hi >= 0) by (nonlinear_arith)
            requires
                0x100_0000 * lo * d <= 0xff_ffff * (n * kk),
                0x100_0000 * hi * d >= 0x100_0001 * (n * kk),
                n == 0,
                d > 0,
        ;
        assert(lo * pow2(0) <= 0 && 0 <= hi * pow2(0));
    } else {
        lemma_rounded_relative_upper(n, d, r.0, r.1, 24);
        lemma_rounded_relative_lower(n, d, r.0, r.1, 24);
        lemma_pow2_pos(r.1);
        let pk = pow2(r.1) as int;
        assert(lo * pk <= r.0 * kk) by (nonlinear_arith)
            requires
                0x100_0000 * lo * d <= 0xff_ffff * (n * kk),
                0x100_0000 * (r.0 * d) >= 0xff_ffff * (n * pk),
                d > 0,
                pk > 0,
                kk > 0,
        ;
        assert(r.0 * kk <= hi * pk) by (nonlinear_arith)
            requires
                0x100_0000 * hi * d >= 0x100_0001 * (n * kk),
                0x100_0000 * (r.0 * d) <= 0x100_0001 * (n * pk),
                d > 0,
                pk > 0,
                kk > 0,
        ;
    }
}

/// The bounds of a binary32 product.
proof fn lemma_mul_within(
    x: (int, nat),
    y: (int, nat),
    lx: int,
    hx: int,
    ly: int,
    hy: int,
    lo: int,
    hi: int,
)
    requires
        within(x, lx, hx),
        within(y, ly, hy),
        lx >= 0,
        hx * hy < 0x100_0000 * (bound_den() * bound_den()),
        0x100_0000 * lo * bound_den() <= 0xff_ffff * (lx * ly),
        0x100_0000 * hi * bound_den() >= 0x100_0001 * (hx * hy),
    ensures
        within(b32_mul(x, y), lo, hi),
{
    let kk = bound_den();
    lemma_pow2_adds(x.1, y.1);
    lemma_pow2_pos(x.1);
    lemma_pow2_pos(y.1);
    let px = pow2(x.1) as int;
    let py = pow2(y.1) as int;
    let n = x.0 * y.0;
    let d = px * py;
    assert(d > 0) by (nonlinear_arith)
        requires
            px > 0,
            py > 0,
            d == px * py,
    ;
    assert(n >= 0) by (nonlinear_arith)
        requires
            x.0 >= 0,
            y.0 >= 0,
            n == x.0 * y.0,
    ;
    assert((lx * ly) * d <= n * (kk * kk)) by (nonlinear_arith)
        requires
            lx * px <= x.0 * kk,
            ly * py <= y.0 * kk,
            lx >= 0,
            x.0 >= 0,
            y.0 >= 0,
            px > 0,
            py > 0,
            kk > 0,
            n == x.0 * y.0,
            d == px * py,
    ;
    assert(n * (kk * kk) <= (hx * hy) * d) by (nonlinear_arith)
        requires
            x.0 * kk <= hx * px,
            y.0 * kk <= hy * py,
            x.0 >= 0,
            y.0 >= 0,
            kk > 0,
            n == x.0 * y.0,
            d == px * py,
    ;
    assert(n < 0x100_0000 * d && 0x100_0000 * lo * d <= 0xff_ffff * (n * kk) && 0x100_0000 * hi * d
        >= 0x100_0001 * (n * kk)) by (nonlinear_arith)
        requires
            (lx * ly) * d <= n * (kk * kk),
            n * (kk * kk) <= (hx * hy) * d,
            hx * hy < 0x100_0000 * (kk * kk),
            0x100_0000 * lo * kk <= 0xff_ffff * (lx * ly),
            0x100_0000 * hi * kk >= 0x100_0001 * (hx * hy),
            d > 0,
            kk > 0,
    ;
    lemma_round24_within(n, d, lo, hi);
}

/// The bounds of a binary32 sum.
proof fn lemma_add_within(
    x: (int, nat),
    y: (int, nat),
    lx: int,
    hx: int,
    ly: int,
    hy: int,
    lo: int,
    hi: int,
)
    requires
        within(x, lx, hx),
        within(y, ly, hy),
        hx + hy < 0x100_0000 * bound_den(),
        0x100_0000 * lo <= 0xff_ffff * (lx + ly),
        0x100_0000 * hi >= 0x100_0001 * (hx + hy),
    ensures
        within(b32_add(x, y), lo, hi),
{
    let kk = bound_den();
    lemma_pow2_adds(x.1, y.1);
    lemma_pow2_pos(x.1);
    lemma_pow2_pos(y.1);
    let px = pow2(x.1) as int;
    let py = pow2(y.1) as int;
    let n = x.0 * py + y.0 * px;
    let d = px * py;
    assert(d > 0 && n >= 0) by (nonlinear_arith)
        requires
            px > 0,
            py > 0,
            d == px * py,
            x.0 >= 0,
            y.0 >= 0,
            n == x.0 * py + y.0 * px,
    ;
    assert((lx * px) * py <= (x.0 * kk) * py && (x.0 * kk) * py <= (hx * px) * py) by (nonlinear_arith)
        requires
            lx * px <= x.0 * kk,
            x.0 * kk <= hx * px,
            py > 0,
    ;
    assert((ly * py) * px <= (y.0 * kk) * px && (y.0 * kk) * px <= (hy * py) * px) by (nonlinear_arith)
        requires
            ly * py <= y.0 * kk,
            y.0 * kk <= hy * py,
            px > 0,
    ;
    assert(n * kk == (x.0 * kk) * py + (y.0 * kk) * px) by (nonlinear_arith)
        requires
            n == x.0 * py + y.0 * px,
    ;
    assert((lx + ly) * d == (lx * px) * py + (ly * py) * px && (hx + hy) * d == (hx * px) * py + (hy
        * py) * px) by (nonlinear_arith)
        requires
            d == px * py,
    ;
    assert((lx + ly) * d <= n * kk && n * kk <= (hx + hy) * d);
    assert(n < 0x100_0000 * d && 0x100_0000 * lo * d <= 0xff_ffff * (n * kk) && 0x100_0000 * hi * d
        >= 0x100_0001 * (n * kk)) by (nonlinear_arith)
        requires
            (lx + ly) * d <= n * kk,
            n * kk <= (hx + hy) * d,
            hx + hy < 0x100_0000 * kk,
            0x100_0000 * lo <= 0xff_ffff * (lx + ly),
            0x100_0000 * hi >= 0x100_0001 * (hx + hy),
            d > 0,
            kk > 0,
    ;
    lemma_round24_within(n, d, lo, hi);
}

/// The bounds of one minus a binary32 value of at most one.
proof fn lemma_one_minus_within(x: (int, nat), lx: int, hx: int, lo: int, hi: int)
    requires
        within(x, lx, hx),
        x.0 <= pow2(x.1),
        0x100_0000 * lo <= 0xff_ffff * (bound_den() - hx),
        0x100_0000 * hi >= 0x100_0001 * (bound_den() - lx),
    ensures
        within(b32_one_minus(x), lo, hi),
{
    let kk = bound_den();
    lemma_pow2_pos(x.1);
    lemma_pow2_values_small();
    let d = pow2(x.1) as int;
    let n = d - x.0;
    assert((kk - hx) * d <= n * kk && n * kk <= (kk - lx) * d) by (nonlinear_arith)
        requires
            lx * d <= x.0 * kk,
            x.0 * kk <= hx * d,
            n == d - x.0,
    ;
    assert(n < 0x100_0000 * d && 0x100_0000 * lo * d <= 0xff_ffff * (n * kk) && 0x100_0000 * hi * d
        >= 0x100_0001 * (n * kk)) by (nonlinear_arith)
        requires
            (kk - hx) * d <= n * kk,
            n * kk <= (kk - lx) * d,
            0 <= n <= d,
            0x100_0000 * lo <= 0xff_ffff * (kk - hx),
            0x100_0000 * hi >= 0x100_0001 * (kk - lx),
            d > 0,
            kk > 0,
    ;
    lemma_round24_within(n, d, lo, hi);
}

/// The byte of a binary32 quotient lies within a factor `1 -+ 2^-24` of the
/// exact quotient, up to the truncation.
proof fn lemma_quotient_within(x: (int, nat), y: (int, nat), lx: int, hx: int, ly: int, hy: int)
    requires
        within(x, lx, hx),
        within(y, ly, hy),
        ly > 0,
        hx < 256 * ly,
    ensures
        0x100_0000 * (quotient_to_u8(x, y) as int) * ly <= 0x100_0001 * hx,
        0x100_0000 * (quotient_to_u8(x, y) as int + 1) * hy > 0xff_ffff * lx,
{
    let kk = bound_den();
    lemma_pow2_values_small();
    lemma_pow2_pos(x.1);
    lemma_pow2_pos(y.1);
    let px = pow2(x.1) as int;
    let py = pow2(y.1) as int;
    let n = x.0 * py;
    let d = y.0 * px;
    assert(y.0 > 0 && hx >= 0) by (nonlinear_arith)
        requires
            ly * py <= y.0 * kk,
            ly > 0,
            py > 0,
            kk > 0,
            x.0 * kk <= hx * px,
            x.0 >= 0,
            px > 0,
    ;
    assert(n >= 0 && d > 0 && n < 256 * d) by (nonlinear_arith)
        requires
            x.0 >= 0,
            y.0 > 0,
            px > 0,
            py > 0,
            n == x.0 * py,
            d == y.0 * px,
            x.0 * kk <= hx * px,
            hx < 256 * ly,
            ly * py <= y.0 * kk,
            kk > 0,
    ;
    assert(n < 0x100_0000 * d);
    crate::rounding::lemma_round24_facts(n, d);
    let r = round24(n, d);
    lemma_pow2_pos(r.1);
    let pr = pow2(r.1) as int;
    let v = r.0 / pr;
    vstd::arithmetic::div_mod::lemma_fundamental_div_mod(r.0, pr);
    vstd::arithmetic::div_mod::lemma_mod_pos_bound(r.0, pr);
    let c = quotient_to_u8(x, y) as int;
    assert(c == to_u8_saturating(r) as int);
    // the rounded quotient against the exact one
    if n > 0 {
        lemma_rounded_relative_upper(n, d, r.0, r.1, 24);
        lemma_rounded_relative_lower(n, d, r.0, r.1, 24);
    } else {
        assert(r == (0int, 0nat));
    }
    assert(0x100_0000 * (r.0 * d) <= 0x100_0001 * (n * pr) && 0x100_0000 * (r.0 * d) >= 0xff_ffff
        * (n * pr));
    // the truncation: c <= r and c + 1 > r, or c is 255 and 256 > n / d
    assert(0x100_0000 * c * d <= 0x100_0001 * n) by (nonlinear_arith)
        requires
            0x100_0000 * (r.0 * d) <= 0x100_0001 * (n * pr),
            r.0 == pr * v + r.0 % pr,
            0 <= r.0 % pr,
            0 <= c <= v,
            pr > 0,
            d > 0,
    ;
    assert(0x100_0000 * (c + 1) * d > 0xff_ffff * n) by (nonlinear_arith)
        requires
            0x100_0000 * (r.0 * d) >= 0xff_ffff * (n * pr),
            r.0 == pr * v + r.0 % pr,
            r.0 % pr < pr,
            c == v || (c == 255 && v > 255),
            n < 256 * d,
            n >= 0,
            pr > 0,
            d > 0,
    ;
    // back to the bounds of the two values
    assert(0x100_0000 * c * ly <= 0x100_0001 * hx) by (nonlinear_arith)
        requires
            0x100_0000 * c * d <= 0x100_0001 * n,
            n == x.0 * py,
            d == y.0 * px,
            ly * py <= y.0 * kk,
            x.0 * kk <= hx * px,
            c >= 0,
            px > 0,
            py > 0,
            kk > 0,
    ;
    assert(0x100_0000 * (c + 1) * hy > 0xff_ffff * lx) by (nonlinear_arith)
        requires
            0x100_0000 * (c + 1) * d > 0xff_ffff * n,
            n == x.0 * py,
            d == y.0 * px,
            y.0 * kk <= hy * py,
            lx * px <= x.0 * kk,
            c >= 0,
            px > 0,
            py > 0,
            kk > 0,
    ;
}

/// A channel of the composite over an opaque background, from the bounds of
/// the weights: within one of `(f * a + b * (255 - a)) / 255`.
proof fn lemma_channel_over_opaque(
    f: u8,
    b: u8,
    a: int,
    fa: (int, nat),
    ba: (int, nat),
    om: (int, nat),
    alpha: (int, nat),
)
    requires
        0 <= a <= 255,
        within(fa, a * 0x1_0000_0000 - 65536, a * 0x1_0000_0000 + 65536),
        ba.0 == pow2(ba.1),
        within(om, (255 - a) * 0x1_0000_0000 - 131072, (255 - a) * 0x1_0000_0000 + 131072),
        within(alpha, bound_den() - 393216, bound_den() + 393216),
    ensures
        255 * (composite_channel(f, b, fa, ba, om, alpha) as int) <= f * a + b * (255 - a) + 255,
        255 * (composite_channel(f, b, fa, ba, om, alpha) as int) + 255 >= f * a + b * (255 - a),
{
    lemma_pow2_values_small();
    let kk = bound_den();
    let fi = f as int;
    let bi = b as int;
    let pp = fi * a;
    let qq = bi * (255 - a);
    assert(0 <= pp <= 255 * a && 0 <= qq <= 255 * (255 - a)) by (nonlinear_arith)
        requires
            0 <= fi <= 255,
            0 <= bi <= 255,
            0 <= a <= 255,
            pp == fi * a,
            qq == bi * (255 - a),
    ;
    // the foreground term f * fa
    let g = (fi, 0nat);
    assert(within(g, fi * kk, fi * kk)) by {
        assert(pow2(g.1) == 1);
        assert(fi * kk * pow2(g.1) == g.0 * kk) by (nonlinear_arith)
            requires
                pow2(g.1) == 1,
                g.0 == fi,
        ;
    }
    let lfa = a * 0x1_0000_0000 - 65536;
    let hfa = a * 0x1_0000_0000 + 65536;
    let lt1 = pp * 0x1_0000_0000 - 0x200_0000;
    let ht1 = pp * 0x1_0000_0000 + 0x200_0000;
    assert((fi * kk) * lfa == kk * (pp * 0x1_0000_0000 - 65536 * fi) && (fi * kk) * hfa == kk * (pp
        * 0x1_0000_0000 + 65536 * fi)) by (nonlinear_arith)
        requires
            pp == fi * a,
            lfa == a * 0x1_0000_0000 - 65536,
            hfa == a * 0x1_0000_0000 + 65536,
    ;
    assert(0x100_0000 * lt1 * kk <= 0xff_ffff * ((fi * kk) * lfa) && 0x100_0000 * ht1 * kk
        >= 0x100_0001 * ((fi * kk) * hfa) && (fi * kk) * hfa < 0x100_0000 * (kk * kk))
        by (nonlinear_arith)
        requires
            (fi * kk) * lfa == kk * (pp * 0x1_0000_0000 - 65536 * fi),
            (fi * kk) * hfa == kk * (pp * 0x1_0000_0000 + 65536 * fi),
            0 <= pp <= 65025,
            0 <= fi <= 255,
            kk == 1095216660480,
            lt1 == pp * 0x1_0000_0000 - 0x200_0000,
            ht1 == pp * 0x1_0000_0000 + 0x200_0000,
    ;
    lemma_mul_within(g, fa, fi * kk, fi * kk, lfa, hfa, lt1, ht1);
    let t1 = b32_mul(g, fa);
    // the background term (b * ba) * om, with b * ba exactly b
    let h = (bi, 0nat);
    assert(h.0 * ba.0 == bi * pow2(0 + ba.1)) by (nonlinear_arith)
        requires
            ba.0 == pow2(ba.1),
            h.0 == bi,
            0 + ba.1 == ba.1,
    ;
    lemma_pow2_pos(h.1 + ba.1);
    lemma_round24_exact(h.0 * ba.0, pow2(h.1 + ba.1) as int, bi);
    let bb = b32_mul(h, ba);
    lemma_pow2_pos(bb.1);
    assert(bb.0 >= 0 && (bi * kk) * pow2(bb.1) <= bb.0 * kk && bb.0 * kk <= (bi * kk) * pow2(bb.1))
        by (nonlinear_arith)
        requires
            bb.0 == bi * pow2(bb.1),
            bi >= 0,
            pow2(bb.1) > 0,
    ;
    assert(within(bb, bi * kk, bi * kk));
    let lom = (255 - a) * 0x1_0000_0000 - 131072;
    let hom = (255 - a) * 0x1_0000_0000 + 131072;
    let lt2 = qq * 0x1_0000_0000 - 50331648;
    let ht2 = qq * 0x1_0000_0000 + 50331648;
    assert((bi * kk) * lom == kk * (qq * 0x1_0000_0000 - 131072 * bi) && (bi * kk) * hom == kk * (qq
        * 0x1_0000_0000 + 131072 * bi)) by (nonlinear_arith)
        requires
            qq == bi * (255 - a),
            lom == (255 - a) * 0x1_0000_0000 - 131072,
            hom == (255 - a) * 0x1_0000_0000 + 131072,
    ;
    assert(0x100_0000 * lt2 * kk <= 0xff_ffff * ((bi * kk) * lom) && 0x100_0000 * ht2 * kk
        >= 0x100_0001 * ((bi * kk) * hom) && (bi * kk) * hom < 0x100_0000 * (kk * kk))
        by (nonlinear_arith)
        requires
            (bi * kk) * lom == kk * (qq * 0x1_0000_0000 - 131072 * bi),
            (bi * kk) * hom == kk * (qq * 0x1_0000_0000 + 131072 * bi),
            0 <= qq <= 65025,
            0 <= bi <= 255,
            kk == 1095216660480,
            lt2 == qq * 0x1_0000_0000 - 50331648,
            ht2 == qq * 0x1_0000_0000 + 50331648,
    ;
    lemma_mul_within(bb, om, bi * kk, bi * kk, lom, hom, lt2, ht2);
    let t2 = b32_mul(bb, om);
    // their sum and the quotient by alpha
    let ss = pp + qq;
    let lnum = ss * 0x1_0000_0000 - 100663296;
    let hnum = ss * 0x1_0000_0000 + 100663296;
    assert(0 <= ss <= 65025);
    lemma_add_within(t1, t2, lt1, ht1, lt2, ht2, lnum, hnum);
    let num = b32_add(t1, t2);
    lemma_quotient_within(num, alpha, lnum, hnum, kk - 393216, kk + 393216);
    let c = quotient_to_u8(num, alpha) as int;
    assert(c == composite_channel(f, b, fa, ba, om, alpha) as int);
    assert(255 * c <= ss + 255) by (nonlinear_arith)
        requires
            0x100_0000 * c * (kk - 393216) <= 0x100_0001 * hnum,
            hnum == ss * 0x1_0000_0000 + 100663296,
            0 <= ss <= 65025,
            kk == 1095216660480,
    ;
    assert(255 * c + 255 >= ss) by (nonlinear_arith)
        requires
            0x100_0000 * (c + 1) * (kk + 393216) > 0xff_ffff * lnum,
            lnum == ss * 0x1_0000_0000 - 100663296,
            0 <= ss <= 65025,
            kk == 1095216660480,
    ;
}

/// Over an opaque background, each color channel of the composite is the
/// mean of the foreground and background channels weighted by the
/// foreground's alpha `a`, `(f * a + b * (255 - a)) / 255`, to within one:
/// a translucent layer pulls every channel toward its own color in
/// proportion to its alpha, whatever that color is.
pub proof fn lemma_composite_over_opaque(foreground: Argb, background: Argb)
    requires
        background.alpha == 255,
    ensures
        255 * (composite(foreground, background).red as int) <= foreground.red * foreground.alpha
            + background.red * (255 - foreground.alpha) + 255,
        255 * (composite(foreground, background).red as int) + 255 >= foreground.red
            * foreground.alpha + background.red * (255 - foreground.alpha),
        255 * (composite(foreground, background).green as int) <= foreground.green
            * foreground.alpha + background.green * (255 - foreground.alpha) + 255,
        255 * (composite(foreground, background).green as int) + 255 >= foreground.green
            * foreground.alpha + background.green * (255 - foreground.alpha),
        255 * (composite(foreground, background).blue as int) <= foreground.blue * foreground.alpha
            + background.blue * (255 - foreground.alpha) + 255,
        255 * (composite(foreground, background).blue as int) + 255 >= foreground.blue
            * foreground.alpha + background.blue * (255 - foreground.alpha),
{
    lemma_pow2_values_small();
    let kk = bound_den();
    let a = foreground.alpha as int;
    let fa = round24(a, 255);
    lemma_round24_within(a, 255, a * 0x1_0000_0000 - 65536, a * 0x1_0000_0000 + 65536);
    lemma_round24_bounded(a, 255, 1);
    let ba = round24(255, 255);
    lemma_round24_exact(255, 255, 1);
    let om = b32_one_minus(fa);
    let lom = (255 - a) * 0x1_0000_0000 - 131072;
    let hom = (255 - a) * 0x1_0000_0000 + 131072;
    lemma_one_minus_within(fa, a * 0x1_0000_0000 - 65536, a * 0x1_0000_0000 + 65536, lom, hom);
    lemma_pow2_pos(ba.1);
    assert(ba.0 >= 0 && kk * pow2(ba.1) <= ba.0 * kk && ba.0 * kk <= kk * pow2(ba.1))
        by (nonlinear_arith)
        requires
            ba.0 == 1 * pow2(ba.1),
            pow2(ba.1) > 0,
            kk > 0,
    ;
    assert(within(ba, kk, kk));
    let lbm = (255 - a) * 0x1_0000_0000 - 196608;
    let hbm = (255 - a) * 0x1_0000_0000 + 196608;
    lemma_mul_within(ba, om, kk, kk, lom, hom, lbm, hbm);
    let bm = b32_mul(ba, om);
    lemma_add_within(
        fa,
        bm,
        a * 0x1_0000_0000 - 65536,
        a * 0x1_0000_0000 + 65536,
        lbm,
        hbm,
        kk - 393216,
        kk + 393216,
    );
    let alpha = b32_add(fa, bm);
    lemma_pow2_pos(alpha.1);
    assert(alpha.0 != 0) by (nonlinear_arith)
        requires
            (kk - 393216) * pow2(alpha.1) <= alpha.0 * kk,
            pow2(alpha.1) > 0,
            kk == 1095216660480,
    ;
    assert(ba.0 == pow2(ba.1));
    lemma_channel_over_opaque(foreground.red, background.red, a, fa, ba, om, alpha);
    lemma_channel_over_opaque(foreground.green, background.green, a, fa, ba, om, alpha);
    lemma_channel_over_opaque(foreground.blue, background.blue, a, fa, ba, om, alpha);
}

} // verus!
