use vstd::prelude::*;

verus! {

/// Order keys stand for 32-bit IEEE 754 numbers (distances and scores) in
/// this library: a key is computed from the number's bit pattern so that,
/// for numbers that are not NaN, keys compare as the numbers do. Both zeros
/// get the key of positive zero.
pub open spec fn order_key_spec(bits: u32) -> u32 {
    if bits == 0x8000_0000u32 {
        0x8000_0000u32
    } else if bits >= 0x8000_0000u32 {
        (0xFFFF_FFFFu32 - bits) as u32
    } else {
        (bits + 0x8000_0000u32) as u32
    }
}

/// The order key of the number `f32::MAX`, the distance given to points that
/// cannot be measured.
pub const FAR_KEY: u32 = 0xFF7F_FFFFu32;

/// The order key of the number zero.
pub const ZERO_KEY: u32 = 0x8000_0000u32;

/// The order key of the number whose bit pattern (`f32::to_bits`) is `bits`.
pub fn order_key(bits: u32) -> (r: u32)
    ensures
        r == order_key_spec(bits),
{
    if bits == 0x8000_0000u32 {
        0x8000_0000u32
    } else if bits >= 0x8000_0000u32 {
        0xFFFF_FFFFu32 - bits
    } else {
        bits + 0x8000_0000u32
    }
}

/// The bit pattern that a key maps back to: keys from `0x8000_0000` up stand
/// for the non-negative numbers (`0x8000_0000` for positive zero), keys below
/// for the negative ones, the bits inverted (`0x7FFF_FFFF` gives the bits of
/// negative zero, a key `order_key` never produces). It inverts `order_key`
/// on every key that `order_key` produces.
pub open spec fn bits_of_key_spec(key: u32) -> u32 {
    if key >= 0x8000_0000u32 {
        (key - 0x8000_0000u32) as u32
    } else {
        (0xFFFF_FFFFu32 - key) as u32
    }
}

/// The bit pattern of the number an order key stands for (see
/// `bits_of_key_spec`).
pub fn bits_of_key(key: u32) -> (r: u32)
    ensures
        r == bits_of_key_spec(key),
        key != 0x7FFF_FFFFu32 ==> order_key_spec(r) == key,
{
    if key >= 0x8000_0000u32 {
        key - 0x8000_0000u32
    } else {
        0xFFFF_FFFFu32 - key
    }
}

} // verus!
