use vstd::prelude::*;
use vstd::arithmetic::div_mod::lemma_div_is_ordered;

verus! {

/// A color sample: red, green and blue channels, each a fixed-point
/// value in thousandths (1000 stands for full intensity 1.0).
/// Channels may lie outside [0, 1000]; they are clamped only when a
/// color is quantized for encoding.
#[derive(Clone, Copy, Debug, PartialEq, Eq, Structural)]
pub struct Color {
    pub r: i32,
    pub g: i32,
    pub b: i32,
}

/// The product of two channels, both in thousandths, truncated toward
/// zero to the nearest thousandth.
pub open spec fn mul_milli(a: int, b: int) -> int {
    if a * b >= 0 {
        (a * b) / 1000
    } else {
        -((-(a * b)) / 1000)
    }
}

impl Color {
    pub fn new(r: i32, g: i32, b: i32) -> (c: Color)
        ensures
            c == (Color { r, g, b }),
    {
        Color { r, g, b }
    }

    /// The default canvas fill: black.
    pub fn black() -> (c: Color)
        ensures
            c == (Color { r: 0, g: 0, b: 0 }),
    {
        Color { r: 0, g: 0, b: 0 }
    }

    /// Component-wise sum of two colors.
    pub fn add(self, rhs: Color) -> (c: Color)
        requires
            i32::MIN <= self.r + rhs.r <= i32::MAX,
            i32::MIN <= self.g + rhs.g <= i32::MAX,
            i32::MIN <= self.b + rhs.b <= i32::MAX,
        ensures
            c.r == self.r + rhs.r,
            c.g == self.g + rhs.g,
            c.b == self.b + rhs.b,
    {
        Color { r: self.r + rhs.r, g: self.g + rhs.g, b: self.b + rhs.b }
    }

    /// Component-wise difference of two colors.
    pub fn sub(self, rhs: Color) -> (c: Color)
        requires
            i32::MIN <= self.r - rhs.r <= i32::MAX,
            i32::MIN <= self.g - rhs.g <= i32::MAX,
            i32::MIN <= self.b - rhs.b <= i32::MAX,
        ensures
            c.r == self.r - rhs.r,
            c.g == self.g - rhs.g,
            c.b == self.b - rhs.b,
    {
        Color { r: self.r - rhs.r, g: self.g - rhs.g, b: self.b - rhs.b }
    }

    /// Component-wise (Hadamard) product of two colors.
    pub fn mul(self, rhs: Color) -> (c: Color)
        requires
            i32::MIN <= mul_milli(self.r as int, rhs.r as int) <= i32::MAX,
            i32::MIN <= mul_milli(self.g as int, rhs.g as int) <= i32::MAX,
            i32::MIN <= mul_milli(self.b as int, rhs.b as int) <= i32::MAX,
        ensures
            c.r == mul_milli(self.r as int, rhs.r as int),
            c.g == mul_milli(self.g as int, rhs.g as int),
            c.b == mul_milli(self.b as int, rhs.b as int),
    {
        Color {
            r: mul_channel(self.r, rhs.r),
            g: mul_channel(self.g, rhs.g),
            b: mul_channel(self.b, rhs.b),
        }
    }

    /// Scales every channel by a factor given in thousandths.
    pub fn mul_scalar(self, factor: i32) -> (c: Color)
        requires
            i32::MIN <= mul_milli(self.r as int, factor as int) <= i32::MAX,
            i32::MIN <= mul_milli(self.g as int, factor as int) <= i32::MAX,
            i32::MIN <= mul_milli(self.b as int, factor as int) <= i32::MAX,
        ensures
            c.r == mul_milli(self.r as int, factor as int),
            c.g == mul_milli(self.g as int, factor as int),
            c.b == mul_milli(self.b as int, factor as int),
    {
        Color {
            r: mul_channel(self.r, factor),
            g: mul_channel(self.g, factor),
            b: mul_channel(self.b, factor),
        }
    }
}

/// Multiplies two channel values, truncating toward zero to thousandths.
fn mul_channel(a: i32, b: i32) -> (r: i32)
    requires
        i32::MIN <= mul_milli(a as int, b as int) <= i32::MAX,
    ensures
        r as int == mul_milli(a as int, b as int),
{
    let aa: u64 = if a < 0 {
        (-(a as i64)) as u64
    } else {
        a as u64
    };
    let bb: u64 = if b < 0 {
        (-(b as i64)) as u64
    } else {
        b as u64
    };
    assert(aa * bb <= 0x8000_0000u64 * 0x8000_0000u64) by (nonlinear_arith)
        requires
            aa <= 0x8000_0000u64,
            bb <= 0x8000_0000u64,
    ;
    let p: u64 = aa * bb;
    assert(p == if a as int * b as int >= 0 {
        a as int * b as int
    } else {
        -(a as int * b as int)
    }) by (nonlinear_arith)
        requires
            aa == if a < 0 { -(a as int) } else { a as int },
            bb == if b < 0 { -(b as int) } else { b as int },
            p == aa * bb,
    ;
    let q: u64 = p / 1000;
    proof {
        let ab = a as int * b as int;
        assert(0int / 1000 == 0);
        assert(a < 0 && b >= 0 ==> a as int * b as int <= 0) by (nonlinear_arith);
        assert(a >= 0 && b < 0 ==> a as int * b as int <= 0) by (nonlinear_arith);
        assert(a >= 0 && b >= 0 ==> a as int * b as int >= 0) by (nonlinear_arith);
        assert(a < 0 && b < 0 ==> a as int * b as int >= 0) by (nonlinear_arith);
        if ab >= 0 {
            assert(p == ab);
            assert(mul_milli(a as int, b as int) == q as int);
        } else {
            assert(p == -ab);
            assert(mul_milli(a as int, b as int) == -(q as int));
            assert(q as int <= 0x8000_0000);
        }
    }
    if (a < 0) != (b < 0) && q > 0 {
        proof {
            if a as int * b as int >= 0 {
                assert(a as int * b as int == 0);
                assert(q == 0);
                assert(false);
            }
        }
        (-(q as i64)) as i32
    } else {
        proof {
            if (a as int) * (b as int) < 0 {
                assert(q == 0);
            }
        }
        (q as i64) as i32
    }
}

/// A channel clamped to the meaningful range [0, 1000] thousandths.
pub open spec fn clamp_milli(c: int) -> int {
    if c < 0 {
        0
    } else if c > 1000 {
        1000
    } else {
        c
    }
}

/// The integer level a channel encodes to: clamp to [0, 1], scale by
/// 255, and round to the nearest integer, halves rounding up.
pub open spec fn level_of(c: int) -> int {
    (clamp_milli(c) * 255 + 500) / 1000
}

/// The clamping law: every level lies in [0, 255]; channels at or
/// below zero encode as 0 and channels at or above full intensity
/// encode as 255.
pub proof fn lemma_level_clamped(c: int)
    ensures
        0 <= level_of(c) <= 255,
        c <= 0 ==> level_of(c) == 0,
        c >= 1000 ==> level_of(c) == 255,
{
    let m = clamp_milli(c);
    assert(0 <= m <= 1000);
    assert(m * 255 + 500 <= 255500) by (nonlinear_arith)
        requires
            m <= 1000,
    ;
    assert(m * 255 + 500 >= 500) by (nonlinear_arith)
        requires
            m >= 0,
    ;
    lemma_div_is_ordered(m * 255 + 500, 255500, 1000);
    lemma_div_is_ordered(500, m * 255 + 500, 1000);
    assert(255500int / 1000 == 255);
    assert(500int / 1000 == 0);
    if c >= 1000 {
        assert(m == 1000);
        assert(1000 * 255 + 500 == 255500);
    }
}

/// Quantizes one channel to its output level.
pub fn channel_level(c: i32) -> (lv: u8)
    ensures
        lv as int == level_of(c as int),
{
    let m: u32 = if c < 0 {
        0
    } else if c > 1000 {
        1000
    } else {
        c as u32
    };
    assert(m as int == clamp_milli(c as int));
    proof {
        lemma_level_clamped(c as int);
    }
    let scaled: u32 = (m * 255 + 500) / 1000;
    scaled as u8
}

} // verus!
