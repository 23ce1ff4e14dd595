//! Bit-level facts about qubit masks and index tables.

use vstd::prelude::*;

verus! {

/// Whether bit `b` of `x` is set.
pub open spec fn has_bit(x: u64, b: u64) -> bool {
    x & (1u64 << b) != 0
}

/// Whether `len` is a power of two that fits in 64 bits.
pub open spec fn is_power_of_two(len: nat) -> bool {
    0 < len <= u64::MAX && (len as u64) & ((len - 1) as u64) == 0
}

/// The residual that follows `o` among the indices with no bit of `mask`.
pub open spec fn next_residual(o: u64, mask: u64) -> u64 {
    (((o | mask) + 1) as u64) & !mask
}

/// The residual that follows a residual is larger and is a residual too.
pub proof fn lemma_next_residual(o: u64, mask: u64)
    requires
        o & mask == 0,
        (o | mask) < u64::MAX,
    ensures
        next_residual(o, mask) > o,
        next_residual(o, mask) & mask == 0,
{
    assert(o & mask == 0 && (o | mask) < 0xffff_ffff_ffff_ffffu64 ==> ((((o | mask) + 1) as u64) & !mask) > o
        && ((((o | mask) + 1) as u64) & !mask) & mask == 0) by (bit_vector);
}

/// No residual lies between a residual and the one that follows it.
pub proof fn lemma_no_residual_between(o: u64, x: u64, mask: u64)
    requires
        o & mask == 0,
        (o | mask) < u64::MAX,
        o < x < next_residual(o, mask),
    ensures
        x & mask != 0,
{
    assert(o & mask == 0 && (o | mask) < 0xffff_ffff_ffff_ffffu64 && o < x && x < ((((o | mask)
        + 1) as u64) & !mask) ==> x & mask != 0) by (bit_vector);
}

/// Below a power of two, a residual joined with an offset within the mask,
/// or with the mask itself, stays below that power.
pub proof fn lemma_or_below_power(o: u64, m: u64, mask: u64, len: u64)
    requires
        len > 0,
        len & ((len - 1) as u64) == 0,
        o < len,
        mask < len,
        m & !mask == 0,
    ensures
        (o | m) < len,
        (o | mask) < len,
{
    assert(len > 0 && len & ((len - 1) as u64) == 0 && o < len && mask < len && m & !mask == 0 ==> (o | m)
        < len && (o | mask) < len) by (bit_vector);
}

/// `1 << k` is a power of two.
pub proof fn lemma_shift_is_power(k: u64)
    requires
        k < 64,
    ensures
        (1u64 << k) > 0,
        (1u64 << k) & (((1u64 << k) - 1) as u64) == 0,
        k <= 32 ==> (1u64 << k) <= 0x1_0000_0000u64,
{
    assert(k < 64 ==> (1u64 << k) > 0 && (1u64 << k) & (((1u64 << k) - 1) as u64) == 0) by (bit_vector);
    assert(k <= 32 ==> (1u64 << k) <= 0x1_0000_0000u64) by (bit_vector);
}

/// Setting bit `q` changes bit `q` and no other.
pub proof fn lemma_set_bit(x: u64, q: u64, b: u64)
    requires
        q < 64,
        b < 64,
    ensures
        has_bit(x | (1u64 << q), b) == (has_bit(x, b) || b == q),
{
    assert(q < 64 && b < 64 ==> (((x | (1u64 << q)) & (1u64 << b) != 0) == ((x & (1u64 << b) != 0)
        || b == q))) by (bit_vector);
}

/// What lies within a mask lies within every larger mask, also after the
/// bits that were added to the mask are added to it.
pub proof fn lemma_mask_grows(a: u64, m: u64, t: u64)
    requires
        a & !m == 0,
    ensures
        a & !(m | t) == 0,
        (a | t) & !(m | t) == 0,
{
    assert(a & !m == 0 ==> a & !(m | t) == 0 && (a | t) & !(m | t) == 0) by (bit_vector);
}

/// Setting a bit below `n` keeps a number below `2^n`.
pub proof fn lemma_bit_below_power(q: u64, n: u64, m: u64)
    requires
        q < n,
        n <= 63,
        m < (1u64 << n),
    ensures
        (m | (1u64 << q)) < (1u64 << n),
{
    assert(q < n && n <= 63 && m < (1u64 << n) ==> (m | (1u64 << q)) < (1u64 << n))
        by (bit_vector);
}

/// Two different numbers below `2^k` differ in one of their low `k` bits.
pub proof fn lemma_differing_bit(i: u64, j: u64, k: u64) -> (b: u64)
    requires
        k <= 63,
        i < (1u64 << k),
        j < (1u64 << k),
        i != j,
    ensures
        b < k,
        has_bit(i, b) != has_bit(j, b),
    decreases k,
{
    if k == 0 {
        assert((1u64 << 0u64) == 1) by (bit_vector);
        0
    } else {
        let top = (k - 1) as u64;
        if has_bit(i, top) != has_bit(j, top) {
            top
        } else {
            let i2 = i & !(1u64 << top);
            let j2 = j & !(1u64 << top);
            assert(i2 < (1u64 << top) && j2 < (1u64 << top) && i2 != j2) by (bit_vector)
                requires
                    1 <= k <= 63,
                    top == k - 1,
                    i < (1u64 << k),
                    j < (1u64 << k),
                    i != j,
                    (i & (1u64 << top) != 0) == (j & (1u64 << top) != 0),
                    i2 == i & !(1u64 << top),
                    j2 == j & !(1u64 << top),
            ;
            let b = lemma_differing_bit(i2, j2, top);
            assert((i2 & (1u64 << b) != 0) == (i & (1u64 << b) != 0) && (j2 & (1u64 << b) != 0) == (
            j & (1u64 << b) != 0)) by (bit_vector)
                requires
                    b < top,
                    top < 64,
                    i2 == i & !(1u64 << top),
                    j2 == j & !(1u64 << top),
            ;
            b
        }
    }
}

} // verus!
