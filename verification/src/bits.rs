//! Bitmask reasoning for row/column occupancy masks: bit `v - 1` of a mask is
//! set exactly when value `v` is already present.

use vstd::prelude::*;

verus! {

/// Bit `k` of mask `m` is set.
pub open spec fn bit_set(m: u32, k: u32) -> bool {
    m & (1u32 << k) != 0
}

/// Setting one bit by `or` leaves every other bit as it was.
pub proof fn lemma_or_one_bit(m: u32, k: u32, k2: u32)
    by (bit_vector)
    requires
        k < 32,
        k2 < 32,
    ensures
        bit_set(m | (1u32 << k), k2) == (k2 == k || bit_set(m, k2)),
{
}

/// The zero mask has no bit set.
pub proof fn lemma_zero_no_bits(k: u32)
    by (bit_vector)
    requires
        k < 32,
    ensures
        !bit_set(0u32, k),
{
}

} // verus!
