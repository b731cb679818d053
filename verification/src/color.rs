//! Colors as four 8-bit channels, their packed 32-bit form, and hue angles.
use vstd::prelude::*;

verus! {

/// A color with alpha, red, green and blue channels of 8 bits each.
#[derive(Clone, Copy, Debug, PartialEq, Eq, Hash, Structural)]
pub struct Argb {
    pub alpha: u8,
    pub red: u8,
    pub green: u8,
    pub blue: u8,
}

impl Argb {
    /// The color with the given channels.
    pub fn new(alpha: u8, red: u8, green: u8, blue: u8) -> (c: Argb)
        ensures
            c == (Argb { alpha, red, green, blue }),
    {
        Argb { alpha, red, green, blue }
    }
}

/// The packed form of a color: alpha in the top byte, then red, green, blue.
pub open spec fn packed(c: Argb) -> int {
    c.alpha * 0x100_0000 + c.red * 0x1_0000 + c.green * 0x100 + c.blue
}

/// The color whose packed form is `v`.
pub open spec fn unpacked(v: u32) -> Argb {
    Argb {
        alpha: (v / 0x100_0000) as u8,
        red: (v / 0x1_0000 % 0x100) as u8,
        green: (v / 0x100 % 0x100) as u8,
        blue: (v % 0x100) as u8,
    }
}

/// Packs a color into 32 bits, alpha in the top byte.
pub fn argb_to_u32(argb: Argb) -> (v: u32)
    ensures
        v == packed(argb),
{
    let a = argb.alpha;
    let r = argb.red;
    let g = argb.green;
    let b = argb.blue;
    let v = ((a as u32) << 24u32) | ((r as u32) << 16u32) | ((g as u32) << 8u32) | (b as u32);
    assert(v == a as u32 * 0x100_0000u32 + r as u32 * 0x1_0000u32 + g as u32 * 0x100u32 + b as u32)
        by (bit_vector)
        requires
            v == ((a as u32) << 24u32) | ((r as u32) << 16u32) | ((g as u32) << 8u32) | (b as u32),
    ;
    v
}

/// Unpacks 32 bits into a color, alpha from the top byte.
pub fn u32_to_argb(value: u32) -> (c: Argb)
    ensures
        c == unpacked(value),
{
    let a = ((value >> 24u32) & 0xFF) as u8;
    let r = ((value >> 16u32) & 0xFF) as u8;
    let g = ((value >> 8u32) & 0xFF) as u8;
    let b = (value & 0xFF) as u8;
    assert(((value >> 24u32) & 0xFF) == value / 0x100_0000) by (bit_vector);
    assert(((value >> 16u32) & 0xFF) == value / 0x1_0000 % 0x100) by (bit_vector);
    assert(((value >> 8u32) & 0xFF) == value / 0x100 % 0x100) by (bit_vector);
    assert((value & 0xFF) == value % 0x100) by (bit_vector);
    Argb::new(a, r, g, b)
}

/// Packing then unpacking gives the color back.
pub proof fn lemma_unpack_packed(c: Argb)
    ensures
        0 <= packed(c) <= u32::MAX,
        unpacked(packed(c) as u32) == c,
{
    let (a, r, g, b) = (c.alpha as int, c.red as int, c.green as int, c.blue as int);
    let v = packed(c);
    assert(0 <= v <= u32::MAX && v / 0x100_0000 == a && v / 0x1_0000 % 0x100 == r
        && v / 0x100 % 0x100 == g && v % 0x100 == b) by (nonlinear_arith)
        requires
            v == a * 0x100_0000 + r * 0x1_0000 + g * 0x100 + b,
            0 <= a < 0x100,
            0 <= r < 0x100,
            0 <= g < 0x100,
            0 <= b < 0x100,
    ;
}

/// Unpacking then packing gives the 32 bits back.
pub proof fn lemma_pack_unpacked(v: u32)
    ensures
        packed(unpacked(v)) == v,
{
    let x = v as int;
    assert(x / 0x100_0000 * 0x100_0000 + x / 0x1_0000 % 0x100 * 0x1_0000 + x / 0x100 % 0x100 * 0x100
        + x % 0x100 == x) by (nonlinear_arith)
        requires
            0 <= x <= u32::MAX,
    ;
    assert(x / 0x100_0000 < 0x100) by (nonlinear_arith)
        requires
            0 <= x <= u32::MAX,
    ;
}

/// The color with its alpha channel replaced.
pub fn set_alpha_component(argb: Argb, alpha: u8) -> (c: Argb)
    ensures
        c == (Argb { alpha, ..argb }),
{
    Argb { alpha, red: argb.red, green: argb.green, blue: argb.blue }
}

/// An angle in degrees brought into `[0, 360)`.
pub fn wrap_degrees(degrees: i32) -> (r: i32)
    ensures
        r == degrees % 360,
        0 <= r < 360,
{
    let a: i32 = degrees % 360;
    let b: i32 = a + 360;
    let r: i32 = b % 360;
    assert(r == degrees % 360 && 0 <= r < 360) by (nonlinear_arith)
        requires
            -360 < a < 360,
            (degrees - a) % 360 == 0,
            b == a + 360,
            r == b % 360,
    ;
    r
}

} // verus!
