//! Geometry operands as the bit patterns of single-precision numbers.
//!
//! A layout length crosses the boundary as a 32-bit float. Only two questions
//! are ever asked of it: is it finite, and is its magnitude within the layout
//! limit. Both are answered on the bits, because the bit patterns of two
//! non-negative finite floats are ordered as the floats are.
use vstd::arithmetic::div_mod::{
    lemma_basic_div, lemma_div_denominator, lemma_div_is_ordered, lemma_div_multiples_vanish,
    lemma_div_multiples_vanish_fancy, lemma_div_pos_is_pos, lemma_fundamental_div_mod,
    lemma_mod_bound,
};
use vstd::arithmetic::power2::{
    lemma2_to64, lemma_pow2_adds, lemma_pow2_pos, lemma_pow2_strictly_increases, pow2,
};
use vstd::prelude::*;

verus! {

/// Bits of the largest magnitude a layout length may have, one million pixels.
pub const MAX_LAYOUT_PX_BITS: u32 = 0x4974_2400;

/// Weight of the sign bit.
pub const SIGN_BIT: u32 = 0x8000_0000;

/// Weight of the lowest exponent bit.
pub const EXPONENT_UNIT: u32 = 0x0080_0000;

/// Bits of the positive infinity.
pub const INFINITY_BITS: u32 = 0x7f80_0000;

/// A layout length, by its bits.
#[derive(Clone, Copy, PartialEq, Eq, Structural, Debug)]
pub struct LayoutPx {
    pub bits: u32,
}

/// The bits without the sign.
pub open spec fn magnitude(bits: u32) -> u32 {
    bits % SIGN_BIT
}

/// The biased exponent.
pub open spec fn exponent(bits: u32) -> u32 {
    magnitude(bits) / EXPONENT_UNIT
}

/// The fraction field.
pub open spec fn fraction(bits: u32) -> u32 {
    bits % EXPONENT_UNIT
}

/// Neither an infinity nor a NaN.
pub open spec fn is_finite(bits: u32) -> bool {
    exponent(bits) != 0xff
}

/// The magnitude of a finite float, in units of the smallest positive one.
pub open spec fn units(bits: u32) -> nat {
    if exponent(bits) == 0 {
        fraction(bits) as nat
    } else {
        (EXPONENT_UNIT + fraction(bits)) as nat * pow2((exponent(bits) - 1) as nat)
    }
}

/// Strictly greater than zero. No NaN is, and of the infinities one is.
pub open spec fn above_zero(bits: u32) -> bool {
    if is_finite(bits) {
        numeric(bits) > 0
    } else {
        bits == INFINITY_BITS
    }
}

/// The value of a finite float, in units of the smallest positive one.
pub open spec fn numeric(bits: u32) -> int {
    if bits >= SIGN_BIT {
        -(units(bits) as int)
    } else {
        units(bits) as int
    }
}

/// One million pixels, in units of the smallest positive float.
pub open spec fn max_units() -> nat {
    1_000_000 * pow2(149)
}

/// The bits of a finite float clamped to the layout limit.
pub open spec fn clamp_bits(bits: u32) -> u32 {
    if magnitude(bits) <= MAX_LAYOUT_PX_BITS {
        bits
    } else if bits >= SIGN_BIT {
        (SIGN_BIT + MAX_LAYOUT_PX_BITS) as u32
    } else {
        MAX_LAYOUT_PX_BITS
    }
}

/// What the rest of the library relies on: finite, and within the limit.
pub open spec fn is_layout_length(px: LayoutPx) -> bool {
    &&& is_finite(px.bits)
    &&& magnitude(px.bits) <= MAX_LAYOUT_PX_BITS
}

impl LayoutPx {
    /// The length zero.
    pub fn zero() -> (px: LayoutPx)
        ensures
            px.bits == 0,
            is_layout_length(px),
    {
        LayoutPx { bits: 0 }
    }

    /// Reads a length off its bits: refuses infinities and NaNs, and clamps the
    /// rest to the layout limit.
    pub fn from_bits(bits: u32) -> (px: Option<LayoutPx>)
        ensures
            px == if is_finite(bits) {
                Some(LayoutPx { bits: clamp_bits(bits) })
            } else {
                None
            },
            px is Some ==> is_layout_length(px->0),
    {
        let magnitude: u32 = bits % SIGN_BIT;
        if magnitude / EXPONENT_UNIT == 0xff {
            None
        } else if magnitude <= MAX_LAYOUT_PX_BITS {
            Some(LayoutPx { bits })
        } else if bits >= SIGN_BIT {
            Some(LayoutPx { bits: SIGN_BIT + MAX_LAYOUT_PX_BITS })
        } else {
            Some(LayoutPx { bits: MAX_LAYOUT_PX_BITS })
        }
    }

    /// Is the length strictly positive? Both zeros are not, nor is a NaN.
    pub fn is_positive(&self) -> (positive: bool)
        ensures
            positive == above_zero(self.bits),
    {
        proof {
            lemma_units_zero(self.bits);
        }
        0 < self.bits && self.bits <= INFINITY_BITS
    }
}

/// Only the two zeros have no magnitude.
proof fn lemma_units_zero(bits: u32)
    ensures
        units(bits) == 0 <==> magnitude(bits) == 0,
{
    if exponent(bits) == 0 {
        assert(fraction(bits) == magnitude(bits) % EXPONENT_UNIT);
        assert(magnitude(bits) < EXPONENT_UNIT);
    } else {
        lemma_pow2_pos((exponent(bits) - 1) as nat);
        let hidden = (EXPONENT_UNIT + fraction(bits)) as nat;
        let scale = pow2((exponent(bits) - 1) as nat);
        assert(hidden * scale > 0) by (nonlinear_arith)
            requires
                hidden > 0,
                scale > 0,
        ;
    }
}

/// The bits of magnitudes are ordered as the magnitudes are.
pub proof fn law_magnitude_bits_are_ordered(a: u32, b: u32)
    requires
        is_finite(a),
        is_finite(b),
    ensures
        magnitude(a) <= magnitude(b) <==> units(a) <= units(b),
{
    if magnitude(a) < magnitude(b) {
        lemma_units_strictly_increase(a, b);
    }
    if magnitude(b) < magnitude(a) {
        lemma_units_strictly_increase(b, a);
    }
    if magnitude(a) == magnitude(b) {
        lemma_same_magnitude(a, b);
    }
}

proof fn lemma_same_magnitude(a: u32, b: u32)
    requires
        magnitude(a) == magnitude(b),
    ensures
        units(a) == units(b),
{
    assert(fraction(a) == magnitude(a) % EXPONENT_UNIT);
    assert(fraction(b) == magnitude(b) % EXPONENT_UNIT);
}

proof fn lemma_units_strictly_increase(a: u32, b: u32)
    requires
        magnitude(a) < magnitude(b),
    ensures
        units(a) < units(b),
{
    let (ea, eb) = (exponent(a), exponent(b));
    let (fa, fb) = (fraction(a), fraction(b));
    assert(fa == magnitude(a) % EXPONENT_UNIT);
    assert(fb == magnitude(b) % EXPONENT_UNIT);
    assert(magnitude(a) == ea * EXPONENT_UNIT + fa);
    assert(magnitude(b) == eb * EXPONENT_UNIT + fb);
    if ea == eb {
        if ea != 0 {
            let scale = pow2((ea - 1) as nat);
            lemma_pow2_pos((ea - 1) as nat);
            assert((EXPONENT_UNIT + fa) * scale < (EXPONENT_UNIT + fb) * scale) by (nonlinear_arith)
                requires
                    fa < fb,
                    scale > 0,
            ;
        }
    } else {
        assert(ea < eb);
        let scale_b = pow2((eb - 1) as nat);
        lemma_pow2_pos((eb - 1) as nat);
        if ea == 0 {
            assert((EXPONENT_UNIT + fb) * scale_b >= EXPONENT_UNIT) by (nonlinear_arith)
                requires
                    fb >= 0,
                    scale_b >= 1,
            ;
        } else {
            let scale_a = pow2((ea - 1) as nat);
            lemma_pow2_pos((ea - 1) as nat);
            lemma2_to64();
            lemma_pow2_adds((ea - 1) as nat, 1);
            if ea < eb - 1 {
                lemma_pow2_strictly_increases(ea as nat, (eb - 1) as nat);
            }
            assert(scale_b >= 2 * scale_a);
            assert((EXPONENT_UNIT + fa) * scale_a < (EXPONENT_UNIT + fb) * scale_b)
                by (nonlinear_arith)
                requires
                    fa < EXPONENT_UNIT,
                    fb >= 0,
                    scale_a > 0,
                    scale_b >= 2 * scale_a,
            ;
        }
    }
}

/// The limit's bits stand for one million pixels.
pub proof fn law_layout_limit_is_one_million()
    ensures
        is_finite(MAX_LAYOUT_PX_BITS),
        numeric(MAX_LAYOUT_PX_BITS) == max_units(),
{
    assert(exponent(MAX_LAYOUT_PX_BITS) == 146);
    assert(EXPONENT_UNIT + fraction(MAX_LAYOUT_PX_BITS) == 16_000_000);
    lemma2_to64();
    lemma_pow2_adds(4, 145);
    assert(pow2(4) == 16);
    let scale = pow2(145);
    assert(16_000_000 * scale == 1_000_000 * (16 * scale)) by (nonlinear_arith);
}

/// Clamping the bits clamps the value: what is read is the given value brought
/// into the range of plus and minus one million pixels.
pub proof fn law_clamp_is_numeric(bits: u32)
    requires
        is_finite(bits),
    ensures
        is_finite(clamp_bits(bits)),
        -max_units() <= numeric(clamp_bits(bits)) <= max_units(),
        -max_units() <= numeric(bits) <= max_units() ==> clamp_bits(bits) == bits,
        numeric(bits) > max_units() ==> numeric(clamp_bits(bits)) == max_units(),
        numeric(bits) < -max_units() ==> numeric(clamp_bits(bits)) == -max_units(),
{
    law_layout_limit_is_one_million();
    law_magnitude_bits_are_ordered(bits, MAX_LAYOUT_PX_BITS);
    law_magnitude_bits_are_ordered(clamp_bits(bits), MAX_LAYOUT_PX_BITS);
    let negated: u32 = (SIGN_BIT + MAX_LAYOUT_PX_BITS) as u32;
    lemma_same_magnitude(negated, MAX_LAYOUT_PX_BITS);
}

/// Not a number?
pub open spec fn is_nan(bits: u32) -> bool {
    magnitude(bits) > 0x7f80_0000
}

/// The magnitude of a finite float rounded to a whole number, halves upwards.
pub open spec fn rounded_magnitude(bits: u32) -> int {
    (2 * units(bits) + pow2(149)) as int / pow2(150) as int
}

/// A float rounded to the nearest whole number, halves away from zero, and
/// brought into the range of 32 bits. Infinities go to the ends of the range
/// and what is no number becomes zero.
pub open spec fn rounded(bits: u32) -> i32 {
    if is_nan(bits) {
        0
    } else if bits >= SIGN_BIT {
        if !is_finite(bits) || -rounded_magnitude(bits) < i32::MIN {
            i32::MIN
        } else {
            (-rounded_magnitude(bits)) as i32
        }
    } else if !is_finite(bits) || rounded_magnitude(bits) > i32::MAX {
        i32::MAX
    } else {
        rounded_magnitude(bits) as i32
    }
}

/// A power of two.
fn power_of_two(exponent: u32) -> (power: u64)
    requires
        exponent <= 31,
    ensures
        power == pow2(exponent as nat),
{
    let mut power: u64 = 1;
    let mut i: u32 = 0;
    proof {
        lemma2_to64();
    }
    while i < exponent
        invariant
            i <= exponent <= 31,
            power == pow2(i as nat),
        decreases exponent - i,
    {
        proof {
            lemma2_to64();
            lemma_pow2_adds(i as nat, 1);
            if i < 31 {
                lemma_pow2_strictly_increases(i as nat, 31);
            }
        }
        power = power * 2;
        i = i + 1;
    }
    power
}

/// Small magnitudes round to zero.
proof fn lemma_rounds_to_zero(bits: u32)
    requires
        exponent(bits) < 126,
    ensures
        rounded_magnitude(bits) == 0,
{
    let e = exponent(bits);
    lemma2_to64();
    lemma_pow2_pos(148);
    lemma_pow2_adds(1, 148);
    lemma_pow2_adds(1, 149);
    if e == 0 {
        lemma_pow2_strictly_increases(23, 148);
    } else {
        let scale = pow2((e - 1) as nat);
        lemma_pow2_pos((e - 1) as nat);
        lemma_pow2_adds(24, 124);
        if e - 1 < 124 {
            lemma_pow2_strictly_increases((e - 1) as nat, 124);
        }
        let hidden = (EXPONENT_UNIT + fraction(bits)) as int;
        assert(hidden * scale < pow2(24) * pow2(124)) by (nonlinear_arith)
            requires
                hidden < pow2(24),
                scale <= pow2(124),
                0 < scale,
                0 < hidden,
        ;
    }
    lemma_basic_div((2 * units(bits) + pow2(149)) as int, pow2(150) as int);
}

/// Magnitudes with a fraction round to the hidden digits plus a half, shifted.
proof fn lemma_rounds_with_fraction(bits: u32)
    requires
        126 <= exponent(bits) < 150,
    ensures
        rounded_magnitude(bits) == (EXPONENT_UNIT + fraction(bits) + pow2(
            (149 - exponent(bits)) as nat,
        )) / pow2((150 - exponent(bits)) as nat) as int,
{
    let e = exponent(bits) as nat;
    let half = pow2((149 - e) as nat) as int;
    let step = pow2((150 - e) as nat) as int;
    let scale = pow2(e) as int;
    let hidden = (EXPONENT_UNIT + fraction(bits)) as int;
    lemma2_to64();
    lemma_pow2_pos(e);
    lemma_pow2_pos((149 - e) as nat);
    lemma_pow2_pos((150 - e) as nat);
    lemma_pow2_adds(1, (e - 1) as nat);
    lemma_pow2_adds(e, (149 - e) as nat);
    lemma_pow2_adds(e, (150 - e) as nat);
    let below = pow2((e - 1) as nat) as int;
    assert(2 * (hidden * below) == hidden * (2 * below)) by (nonlinear_arith);
    assert(hidden * scale + scale * half == scale * (hidden + half)) by (nonlinear_arith);
    lemma_div_denominator(scale * (hidden + half), scale, step);
    lemma_div_multiples_vanish(hidden + half, scale);
}

/// Large magnitudes are whole.
proof fn lemma_rounds_whole(bits: u32)
    requires
        150 <= exponent(bits) < 255,
    ensures
        rounded_magnitude(bits) == (EXPONENT_UNIT + fraction(bits)) * pow2(
            (exponent(bits) - 150) as nat,
        ),
{
    let e = exponent(bits) as nat;
    let whole = pow2((e - 150) as nat) as int;
    let unit = pow2(150) as int;
    let hidden = (EXPONENT_UNIT + fraction(bits)) as int;
    lemma2_to64();
    lemma_pow2_pos(149);
    lemma_pow2_pos(150);
    lemma_pow2_adds(1, 149);
    lemma_pow2_adds(1, (e - 1) as nat);
    lemma_pow2_adds(150, (e - 150) as nat);
    let below = pow2((e - 1) as nat) as int;
    assert(2 * (hidden * below) == hidden * (2 * below)) by (nonlinear_arith);
    assert(hidden * (unit * whole) == unit * (hidden * whole)) by (nonlinear_arith);
    lemma_div_multiples_vanish_fancy(hidden * whole, pow2(149) as int, unit);
}

/// Rounds a float to the nearest whole number.
pub fn round_to_i32(bits: u32) -> (value: i32)
    ensures
        value == rounded(bits),
{
    let magnitude: u32 = bits % SIGN_BIT;
    let exponent: u32 = magnitude / EXPONENT_UNIT;
    let hidden: u64 = EXPONENT_UNIT as u64 + (bits % EXPONENT_UNIT) as u64;
    if magnitude > 0x7f80_0000 {
        return 0;
    }
    proof {
        lemma2_to64();
    }
    if exponent >= 158 {
        proof {
            if exponent < 255 {
                lemma_rounds_whole(bits);
                lemma_pow2_adds(8, (exponent - 158) as nat);
                lemma_pow2_pos((exponent - 158) as nat);
                let whole = pow2((exponent - 150) as nat) as int;
                assert(hidden * whole >= 0x80_0000 * 256) by (nonlinear_arith)
                    requires
                        hidden >= 0x80_0000,
                        whole >= 256,
                ;
            }
        }
        return if bits >= SIGN_BIT {
            i32::MIN
        } else {
            i32::MAX
        };
    }
    let value: u64 = if exponent < 126 {
        proof {
            lemma_rounds_to_zero(bits);
        }
        0
    } else if exponent < 150 {
        let half: u64 = power_of_two(149 - exponent);
        proof {
            lemma_rounds_with_fraction(bits);
            lemma_pow2_adds(1, (149 - exponent) as nat);
            lemma_pow2_pos((149 - exponent) as nat);
            if 149 - exponent < 23 {
                lemma_pow2_strictly_increases((149 - exponent) as nat, 23);
            }
        }
        (hidden + half) / (2 * half)
    } else {
        let whole: u64 = power_of_two(exponent - 150);
        proof {
            lemma_rounds_whole(bits);
            if exponent - 150 < 7 {
                lemma_pow2_strictly_increases((exponent - 150) as nat, 7);
            }
            assert(hidden * whole <= 0xff_ffff * 128) by (nonlinear_arith)
                requires
                    hidden <= 0xff_ffff,
                    whole <= 128,
            ;
        }
        hidden * whole
    };
    assert(value <= 0x7fff_ff80);
    if bits >= SIGN_BIT {
        -(value as i32)
    } else {
        value as i32
    }
}

/// Four times the magnitude of a finite float rounded to a whole number, halves
/// upwards.
pub open spec fn quarter_magnitude(bits: u32) -> int {
    (8 * units(bits) + pow2(149)) as int / pow2(150) as int
}

/// How many quarters a float is, rounded to the nearest whole number, halves away
/// from zero, and brought into the range of 32 bits. Infinities go to the ends of
/// the range and what is no number becomes zero.
pub open spec fn quarters(bits: u32) -> i32 {
    if is_nan(bits) {
        0
    } else if bits >= SIGN_BIT {
        if !is_finite(bits) || -quarter_magnitude(bits) < i32::MIN {
            i32::MIN
        } else {
            (-quarter_magnitude(bits)) as i32
        }
    } else if !is_finite(bits) || quarter_magnitude(bits) > i32::MAX {
        i32::MAX
    } else {
        quarter_magnitude(bits) as i32
    }
}

/// Floats below the normal ones are no quarters.
proof fn lemma_no_quarters(bits: u32)
    requires
        exponent(bits) == 0,
    ensures
        quarter_magnitude(bits) == 0,
{
    lemma2_to64();
    lemma_pow2_adds(1, 149);
    lemma_pow2_pos(149);
    lemma_pow2_strictly_increases(26, 149);
    lemma_basic_div((8 * units(bits) + pow2(149)) as int, pow2(150) as int);
}

/// Two more in the exponent make four times the value.
proof fn lemma_four_times(bits: u32)
    requires
        1 <= exponent(bits) <= 252,
    ensures
        bits + 2 * EXPONENT_UNIT <= u32::MAX,
        exponent((bits + 2 * EXPONENT_UNIT) as u32) == exponent(bits) + 2,
        ((bits + 2 * EXPONENT_UNIT) as u32 >= SIGN_BIT) == (bits >= SIGN_BIT),
        units((bits + 2 * EXPONENT_UNIT) as u32) == 4 * units(bits),
        rounded_magnitude((bits + 2 * EXPONENT_UNIT) as u32) == quarter_magnitude(bits),
{
    let four: u32 = (bits + 2 * EXPONENT_UNIT) as u32;
    let e = exponent(bits);
    assert(magnitude(four) == magnitude(bits) + 2 * EXPONENT_UNIT);
    assert(exponent(four) == e + 2);
    assert(fraction(four) == fraction(bits));
    lemma2_to64();
    lemma_pow2_adds(2, (e - 1) as nat);
    let scale = pow2((e - 1) as nat) as int;
    let hidden = (EXPONENT_UNIT + fraction(bits)) as int;
    assert(hidden * (4 * scale) == 4 * (hidden * scale)) by (nonlinear_arith);
}

/// The largest finite floats are too many quarters.
proof fn lemma_too_many_quarters(bits: u32)
    requires
        253 <= exponent(bits) <= 254,
    ensures
        quarter_magnitude(bits) > i32::MAX + 1,
{
    let e = exponent(bits) as nat;
    let unit = pow2(150) as int;
    let hidden = (EXPONENT_UNIT + fraction(bits)) as int;
    let scale = pow2((e - 1) as nat) as int;
    lemma2_to64();
    lemma_pow2_pos(149);
    lemma_pow2_pos(150);
    lemma_pow2_adds(32, 150);
    lemma_pow2_strictly_increases(182, (e - 1) as nat);
    let many = 8 * (hidden * scale) + pow2(149) as int;
    assert(many >= pow2(32) * unit) by (nonlinear_arith)
        requires
            many >= 8 * (hidden * scale),
            hidden >= 1,
            scale >= pow2(32) * unit,
            pow2(32) * unit >= 0,
    ;
    lemma_div_is_ordered(pow2(32) * unit, many, unit);
    lemma_div_multiples_vanish(pow2(32) as int, unit);
}

/// Counts the quarters of a float.
pub fn round_to_quarters(bits: u32) -> (value: i32)
    ensures
        value == quarters(bits),
{
    let magnitude: u32 = bits % SIGN_BIT;
    let exponent: u32 = magnitude / EXPONENT_UNIT;
    if magnitude > 0x7f80_0000 {
        return 0;
    }
    if exponent == 0 {
        proof {
            lemma_no_quarters(bits);
        }
        return 0;
    }
    if exponent >= 253 {
        proof {
            if exponent < 255 {
                lemma_too_many_quarters(bits);
            }
        }
        return if bits >= SIGN_BIT {
            i32::MIN
        } else {
            i32::MAX
        };
    }
    proof {
        lemma_four_times(bits);
    }
    round_to_i32(bits + 2 * EXPONENT_UNIT)
}

/// Rounding finds the nearest whole number: no pixel is nearer, and halves go away
/// from zero. What is out of range goes to the nearer end of it.
pub proof fn law_rounding_is_to_the_nearest(bits: u32)
    requires
        is_finite(bits),
    ensures
        ({
            let pixel = pow2(149) as int;
            let whole = rounded(bits) as int;
            &&& bits < SIGN_BIT && whole < i32::MAX ==> 2 * (pixel * whole) - pixel <= 2 * numeric(
                bits,
            ) < 2 * (pixel * whole) + pixel
            &&& bits >= SIGN_BIT && whole > i32::MIN ==> 2 * (pixel * whole) - pixel < 2 * numeric(
                bits,
            ) <= 2 * (pixel * whole) + pixel
            &&& bits < SIGN_BIT ==> whole >= 0
            &&& bits >= SIGN_BIT ==> whole <= 0
            &&& whole == i32::MAX ==> 2 * numeric(bits) >= 2 * (pixel * whole) - pixel
            &&& whole == i32::MIN ==> 2 * numeric(bits) <= 2 * (pixel * whole) + pixel
        }),
{
    let pixel = pow2(149) as int;
    let whole = rounded(bits) as int;
    let many = (2 * units(bits) + pow2(149)) as int;
    let near = rounded_magnitude(bits);
    lemma_nearest(many, pixel, near);
    if bits < SIGN_BIT && near <= i32::MAX {
        assert(whole == near);
        assert(pixel * whole == pixel * near);
    }
    if bits >= SIGN_BIT && -near >= i32::MIN {
        assert(whole == -near);
        assert(pixel * whole == -(pixel * near));
    }
    assert(pixel >= 1) by {
        lemma_pow2_pos(149);
    }
}

proof fn lemma_nearest(many: int, pixel: int, near: int)
    requires
        pixel == pow2(149),
        many >= pixel,
        near == many / pow2(150) as int,
    ensures
        near >= 0,
        2 * (pixel * near) <= many < 2 * (pixel * near) + 2 * pixel,
        pixel * (-near) == -(pixel * near),
        near >= i32::MAX ==> pixel * near >= pixel * i32::MAX,
        near >= i32::MAX + 1 ==> pixel * near >= pixel * (i32::MAX + 1),
{
    lemma2_to64();
    lemma_pow2_pos(149);
    lemma_pow2_pos(150);
    lemma_pow2_adds(1, 149);
    let double = pow2(150) as int;
    lemma_fundamental_div_mod(many, double);
    lemma_mod_bound(many, double);
    lemma_div_pos_is_pos(many, double);
    assert(double * near == 2 * (pixel * near)) by (nonlinear_arith)
        requires
            double == 2 * pixel,
    ;
    assert(pixel * (-near) == -(pixel * near)) by (nonlinear_arith);
    assert(near >= i32::MAX ==> pixel * near >= pixel * i32::MAX) by (nonlinear_arith)
        requires
            pixel > 0,
    ;
    assert(near >= i32::MAX + 1 ==> pixel * near >= pixel * (i32::MAX + 1)) by (nonlinear_arith)
        requires
            pixel > 0,
    ;
}

/// Counting quarters finds the nearest whole number of them, in the same way.
pub proof fn law_quarters_are_to_the_nearest(bits: u32)
    requires
        is_finite(bits),
    ensures
        ({
            let pixel = pow2(149) as int;
            let whole = quarters(bits) as int;
            &&& bits < SIGN_BIT && whole < i32::MAX ==> 2 * (pixel * whole) - pixel <= 8 * numeric(
                bits,
            ) < 2 * (pixel * whole) + pixel
            &&& bits >= SIGN_BIT && whole > i32::MIN ==> 2 * (pixel * whole) - pixel < 8 * numeric(
                bits,
            ) <= 2 * (pixel * whole) + pixel
            &&& bits < SIGN_BIT ==> whole >= 0
            &&& bits >= SIGN_BIT ==> whole <= 0
            &&& whole == i32::MAX ==> 8 * numeric(bits) >= 2 * (pixel * whole) - pixel
            &&& whole == i32::MIN ==> 8 * numeric(bits) <= 2 * (pixel * whole) + pixel
        }),
{
    let pixel = pow2(149) as int;
    let whole = quarters(bits) as int;
    let many = (8 * units(bits) + pow2(149)) as int;
    let near = quarter_magnitude(bits);
    lemma_nearest(many, pixel, near);
    if bits < SIGN_BIT && near <= i32::MAX {
        assert(whole == near);
        assert(pixel * whole == pixel * near);
    }
    if bits >= SIGN_BIT && -near >= i32::MIN {
        assert(whole == -near);
        assert(pixel * whole == -(pixel * near));
    }
    assert(pixel >= 1) by {
        lemma_pow2_pos(149);
    }
}

/// Infinities round to the ends of the range, and what is no number to zero.
pub proof fn law_rounding_of_what_is_not_finite(bits: u32)
    requires
        !is_finite(bits),
    ensures
        bits == INFINITY_BITS ==> rounded(bits) == i32::MAX && quarters(bits) == i32::MAX,
        bits == SIGN_BIT + INFINITY_BITS ==> rounded(bits) == i32::MIN && quarters(bits)
            == i32::MIN,
        bits != INFINITY_BITS && bits != SIGN_BIT + INFINITY_BITS ==> rounded(bits) == 0 && quarters(
            bits,
        ) == 0,
{
}

/// Only what is greater than zero counts as positive: neither zero, nor anything
/// negative, nor what is no number.
pub proof fn law_positive_is_greater_than_zero(bits: u32)
    ensures
        is_finite(bits) ==> (above_zero(bits) <==> numeric(bits) > 0),
        !is_finite(bits) ==> (above_zero(bits) <==> bits == INFINITY_BITS),
        bits >= SIGN_BIT ==> !above_zero(bits),
        0 < bits < INFINITY_BITS ==> above_zero(bits),
        !above_zero(0),
{
    lemma_units_zero(bits);
    lemma_units_zero(0);
}

} // verus!
