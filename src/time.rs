//! Order keys for scheduled times.
//!
//! Times are IEEE 754 binary64 values computed by the caller. The queue orders
//! events by a `u64` key taken from the bit pattern of the time: the key of a
//! negative value is the complement of its bits, and the key of a non-negative
//! value has the sign bit set. Keys then compare as the values do, for every
//! value but NaN (and with -0 just before +0). The map is a bijection, so the
//! time can be read back from its key.
use vstd::prelude::*;

verus! {

/// The sign bit of a binary64 bit pattern.
pub const SIGN_BIT: u64 = 0x8000_0000_0000_0000;

/// Value order of two binary64 bit patterns that are not NaN, with -0 before
/// +0: negative values come first, by decreasing magnitude, then non-negative
/// values by increasing magnitude. Within one sign the magnitude grows with the
/// unsigned bit pattern.
pub open spec fn bits_le(a: u64, b: u64) -> bool {
    if a >= SIGN_BIT && b >= SIGN_BIT {
        a >= b
    } else if a >= SIGN_BIT {
        true
    } else if b >= SIGN_BIT {
        false
    } else {
        a <= b
    }
}

/// The order key of a bit pattern.
pub open spec fn key_of(bits: u64) -> u64 {
    if bits >= SIGN_BIT {
        (u64::MAX - bits) as u64
    } else {
        (bits + SIGN_BIT) as u64
    }
}

/// The order key of the time whose bit pattern is `bits`.
pub fn time_key(bits: u64) -> (r: u64)
    ensures
        r == key_of(bits),
{
    if bits >= SIGN_BIT {
        u64::MAX - bits
    } else {
        bits + SIGN_BIT
    }
}

/// The bit pattern of the time whose order key is `key`.
pub fn time_bits(key: u64) -> (r: u64)
    ensures
        key_of(r) == key,
{
    if key >= SIGN_BIT {
        key - SIGN_BIT
    } else {
        u64::MAX - key
    }
}

/// Keys compare as the times do, and distinct bit patterns have distinct keys.
pub proof fn lemma_time_key_order(a: u64, b: u64)
    ensures
        bits_le(a, b) <==> key_of(a) <= key_of(b),
        key_of(a) == key_of(b) ==> a == b,
{
}

} // verus!
