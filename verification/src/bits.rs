//! Bit-level reasoning about the nine-bit candidate masks.

use vstd::prelude::*;

verus! {

/// True when bit `i` of `m` is set.
pub open spec fn has_bit(m: u16, i: u16) -> bool
    recommends
        i < 16,
{
    (m >> i) & 1u16 == 1u16
}

/// Testing a bit with a shifted mask agrees with `has_bit`.
pub proof fn lemma_mask_test(m: u16, i: u16)
    requires
        i < 16,
    ensures
        ((1u16 << i) & m != 0) == has_bit(m, i),
{
    assert(((1u16 << i) & m != 0) == ((m >> i) & 1u16 == 1u16)) by (bit_vector)
        requires
            i < 16,
    ;
}

/// Clearing bit `i` of `m` clears exactly that bit.
pub proof fn lemma_mask_clear(m: u16, i: u16, j: u16)
    requires
        i < 16,
        j < 16,
    ensures
        has_bit(m & !(1u16 << i), j) == (has_bit(m, j) && j != i),
{
    assert((((m & !(1u16 << i)) >> j) & 1u16 == 1u16) == (((m >> j) & 1u16 == 1u16) && j != i))
        by (bit_vector)
        requires
            i < 16,
            j < 16,
    ;
}

/// Clearing a bit that is already clear leaves the mask unchanged.
pub proof fn lemma_mask_clear_absent(m: u16, i: u16)
    requires
        i < 16,
        !has_bit(m, i),
    ensures
        m & !(1u16 << i) == m,
{
    assert((m >> i) & 1u16 != 1u16 ==> m & !(1u16 << i) == m) by (bit_vector)
        requires
            i < 16,
    ;
}

/// The union of two masks has the bits of either.
pub proof fn lemma_mask_or(m1: u16, m2: u16, j: u16)
    requires
        j < 16,
    ensures
        has_bit(m1 | m2, j) == (has_bit(m1, j) || has_bit(m2, j)),
{
    assert((((m1 | m2) >> j) & 1u16 == 1u16) == (((m1 >> j) & 1u16 == 1u16) || ((m2 >> j) & 1u16
        == 1u16))) by (bit_vector)
        requires
            j < 16,
    ;
}

/// The full nine-bit mask has exactly the low nine bits set; the zero mask has none.
pub proof fn lemma_mask_const(j: u16)
    requires
        j < 16,
    ensures
        has_bit(0x1ffu16, j) == (j < 9),
        !has_bit(0u16, j),
{
    assert(((0x1ffu16 >> j) & 1u16 == 1u16) == (j < 9)) by (bit_vector)
        requires
            j < 16,
    ;
    assert((0u16 >> j) & 1u16 != 1u16) by (bit_vector);
}

/// One step of a low-to-high scan: the parity of the shifted mask reads bit `k`,
/// and one further shift moves the scan to bit `k + 1`.
pub proof fn lemma_scan_step(m: u16, k: u16)
    requires
        k < 15,
    ensures
        ((m >> k) % 2 == 1) == has_bit(m, k),
        (m >> k) >> 1u16 == m >> ((k + 1) as u16),
{
    assert(((m >> k) % 2 == 1) == ((m >> k) & 1u16 == 1u16)) by (bit_vector);
    assert((m >> k) >> 1u16 == m >> ((k + 1) as u16)) by (bit_vector)
        requires
            k < 15,
    ;
}

/// A scan starts with the unshifted mask.
pub proof fn lemma_shift_zero(m: u16)
    ensures
        m >> 0u16 == m,
{
    assert(m >> 0u16 == m) by (bit_vector);
}

} // verus!
