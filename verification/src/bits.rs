use vstd::prelude::*;

verus! {

/// Bit `b` of `mask` is set.
pub open spec fn bit(mask: u64, b: int) -> bool {
    mask & (1u64 << (b as u64)) != 0
}

/// Setting bit `b` sets it and leaves every other bit as it was.
pub proof fn lemma_bit_or(m: u64, b: u64, c: u64)
    requires
        b < 64,
        c < 64,
    ensures
        ((m | (1u64 << b)) & (1u64 << c) != 0) == ((m & (1u64 << c) != 0) || b == c),
{
    assert(((m | (1u64 << b)) & (1u64 << c) != 0) == ((m & (1u64 << c) != 0) || b == c)) by (bit_vector)
        requires
            b < 64,
            c < 64,
    ;
}

/// No bit of zero is set.
pub proof fn lemma_bit_zero(c: u64)
    requires
        c < 64,
    ensures
        (0u64 & (1u64 << c)) == 0,
{
    assert((0u64 & (1u64 << c)) == 0) by (bit_vector);
}

} // verus!
