use vstd::prelude::*;

verus! {

/// Mask of the magnitude bits of an IEEE-754 single.
pub const MAGNITUDE_MASK: u32 = 0x7fff_ffff;

/// Bit pattern of positive infinity; magnitudes above it are NaNs.
pub const INFINITY_BITS: u32 = 0x7f80_0000;

/// Sign bit of an IEEE-754 single.
pub const SIGN_BIT: u32 = 0x8000_0000;

/// The magnitude field of a bit pattern.
pub open spec fn magnitude(bits: u32) -> int {
    (bits & MAGNITUDE_MASK) as int
}

/// A bit pattern encodes a NaN when its magnitude exceeds that of infinity.
pub open spec fn is_nan_bits(bits: u32) -> bool {
    magnitude(bits) > INFINITY_BITS
}

/// The signed magnitude of a bit pattern. For non-NaN patterns this orders
/// exactly as the encoded floating-point values do (both zeros map to 0).
pub open spec fn ord_value(bits: u32) -> int {
    if bits >= SIGN_BIT {
        -magnitude(bits)
    } else {
        magnitude(bits)
    }
}

/// The order key of a bit pattern: its signed magnitude shifted into `u32`.
pub open spec fn spec_order_key(bits: u32) -> int {
    ord_value(bits) + SIGN_BIT
}

/// Key of negative infinity; every non-NaN key is at least this large.
pub const NEG_INFINITY_KEY: u32 = 0x0080_0000;

proof fn lemma_magnitude_facts(bits: u32)
    ensures
        bits & MAGNITUDE_MASK <= MAGNITUDE_MASK,
        bits < SIGN_BIT ==> bits & MAGNITUDE_MASK == bits,
        bits >= SIGN_BIT ==> (bits & MAGNITUDE_MASK) + SIGN_BIT == bits,
{
    assert(bits & 0x7fff_ffffu32 <= 0x7fff_ffffu32) by (bit_vector);
    assert(bits < 0x8000_0000u32 ==> bits & 0x7fff_ffffu32 == bits) by (bit_vector);
    assert(bits >= 0x8000_0000u32 ==> (bits & 0x7fff_ffffu32) + 0x8000_0000u32 == bits)
        by (bit_vector);
}

/// Maps the bit pattern of a similarity to a key whose `u32` order is the
/// order of the encoded values: negative zero and positive zero get the same
/// key, and larger values get larger keys.
pub fn order_key(bits: u32) -> (key: u32)
    ensures
        key == spec_order_key(bits),
{
    proof {
        lemma_magnitude_facts(bits);
    }
    if bits >= SIGN_BIT {
        SIGN_BIT - (bits & MAGNITUDE_MASK)
    } else {
        bits + SIGN_BIT
    }
}

/// Key used when choosing the nearest centroid: a NaN similarity never beats
/// anything, so it gets key 0, below every non-NaN key (which are all at
/// least `NEG_INFINITY_KEY`).
pub fn similarity_key(bits: u32) -> (key: u32)
    ensures
        is_nan_bits(bits) ==> key == 0,
        !is_nan_bits(bits) ==> key == spec_order_key(bits),
        !is_nan_bits(bits) ==> key >= NEG_INFINITY_KEY,
{
    proof {
        lemma_magnitude_facts(bits);
    }
    if (bits & MAGNITUDE_MASK) > INFINITY_BITS {
        0
    } else {
        order_key(bits)
    }
}


/// Two non-NaN bit patterns compare by key exactly as their signed
/// magnitudes compare, so sorting by key sorts by value.
pub proof fn lemma_order_key_monotone(a: u32, b: u32)
    ensures
        spec_order_key(a) < spec_order_key(b) <==> ord_value(a) < ord_value(b),
        spec_order_key(a) == spec_order_key(b) <==> ord_value(a) == ord_value(b),
        0 <= spec_order_key(a) <= u32::MAX,
{
    lemma_magnitude_facts(a);
    lemma_magnitude_facts(b);
}

} // verus!
