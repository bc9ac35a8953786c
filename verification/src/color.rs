use vstd::prelude::*;

verus! {

/// A colour with alpha: the IEEE 754 single-precision bit patterns of its
/// red, green, blue and alpha channels, in that order.
pub type Color = [u32; 4];

/// The bit pattern with its sign bit cleared.
pub open spec fn magnitude(bits: u32) -> int {
    bits as int % 0x8000_0000
}

/// The pattern encodes a NaN: the exponent is all ones and the fraction is not zero.
pub open spec fn is_nan(bits: u32) -> bool {
    magnitude(bits) > 0x7f80_0000
}

/// The pattern encodes positive or negative zero.
pub open spec fn is_zero(bits: u32) -> bool {
    magnitude(bits) == 0
}

/// Two channel values compare equal as numbers: neither is a NaN, and they
/// are the same pattern or both a zero of either sign.
pub open spec fn channel_eq(a: u32, b: u32) -> bool {
    &&& !is_nan(a)
    &&& !is_nan(b)
    &&& (a == b || (is_zero(a) && is_zero(b)))
}

/// All four channels compare equal as numbers.
pub open spec fn color_eq(a: Color, b: Color) -> bool {
    &&& channel_eq(a[0], b[0])
    &&& channel_eq(a[1], b[1])
    &&& channel_eq(a[2], b[2])
    &&& channel_eq(a[3], b[3])
}

/// Compares two channel values as numbers.
pub fn channels_equal(a: u32, b: u32) -> (r: bool)
    ensures
        r == channel_eq(a, b),
{
    let ma: u32 = a % 0x8000_0000;
    let mb: u32 = b % 0x8000_0000;
    if ma > 0x7f80_0000 || mb > 0x7f80_0000 {
        false
    } else {
        a == b || (ma == 0 && mb == 0)
    }
}

/// Compares two colours channel by channel, as numbers.
pub fn colors_equal(a: &Color, b: &Color) -> (r: bool)
    ensures
        r == color_eq(*a, *b),
{
    channels_equal(a[0], b[0]) && channels_equal(a[1], b[1]) && channels_equal(a[2], b[2])
        && channels_equal(a[3], b[3])
}

/// Equality of channel values is symmetric.
pub proof fn lemma_channel_eq_symmetric(a: u32, b: u32)
    ensures
        channel_eq(a, b) == channel_eq(b, a),
{
}

/// Equality of channel values is transitive.
pub proof fn lemma_channel_eq_transitive(a: u32, b: u32, c: u32)
    requires
        channel_eq(a, b),
        channel_eq(b, c),
    ensures
        channel_eq(a, c),
{
}

} // verus!
