//! Sets of cell values held as bit masks: bit `v - 1` stands for the value `v`.
use vstd::prelude::*;

verus! {

/// The largest value a cell can hold.
pub const MAX_VALUE: usize = 9;

/// One more than the largest mask that holds only bits of cell values.
pub const MASK_END: usize = 512;

/// The mask that marks every value as excluded.
pub const ALL_EXCLUDED: usize = usize::MAX;

/// The mask of a single value; an empty cell contributes no bit.
pub open spec fn value_bit(value: usize) -> usize {
    if value == 0 {
        0
    } else {
        1usize << ((value - 1) as usize)
    }
}

/// Whether the mask `bits` holds the bit of `value`.
pub open spec fn excludes(bits: usize, value: int) -> bool {
    bits & value_bit(value as usize) != 0
}

/// The empty mask excludes nothing.
pub proof fn lemma_empty_mask(value: int)
    requires
        1 <= value <= 9,
    ensures
        !excludes(0, value),
{
    let m = value_bit(value as usize);
    assert(0usize & m == 0) by (bit_vector);
}

/// The full mask excludes every value.
pub proof fn lemma_full_mask(value: int)
    requires
        1 <= value <= 9,
    ensures
        excludes(ALL_EXCLUDED, value),
{
    let s = (value - 1) as usize;
    let full = ALL_EXCLUDED;
    assert(full & (1usize << s) != 0) by (bit_vector)
        requires
            s < 9,
            full == 0xffff_ffffusize || full == 0xffff_ffff_ffff_ffffu64,
    ;
}

/// The mask of one value excludes that value and no other.
pub proof fn lemma_single_mask(held: usize, value: int)
    requires
        held <= 9,
        1 <= value <= 9,
    ensures
        excludes(value_bit(held), value) <==> held == value,
        value_bit(held) < MASK_END,
{
    let s = (value - 1) as usize;
    if held == 0 {
        assert(0usize & (1usize << s) == 0) by (bit_vector);
    } else {
        let h = (held - 1) as usize;
        assert(((1usize << h) & (1usize << s) != 0) <==> h == s) by (bit_vector)
            requires
                h < 9,
                s < 9,
        ;
        assert((1usize << h) < 512) by (bit_vector)
            requires
                h < 9,
        ;
    }
}

/// A union of masks excludes what either mask excludes.
pub proof fn lemma_union_mask(a: usize, b: usize, value: int)
    requires
        1 <= value <= 9,
    ensures
        excludes(a | b, value) <==> excludes(a, value) || excludes(b, value),
        a < MASK_END && b < MASK_END ==> (a | b) < MASK_END,
{
    let m = value_bit(value as usize);
    assert(((a | b) & m != 0) <==> (a & m != 0) || (b & m != 0)) by (bit_vector);
    assert(a < 512 && b < 512 ==> (a | b) < 512) by (bit_vector);
}

/// Adding a mask twice is adding it once.
pub proof fn lemma_union_again(a: usize, b: usize)
    ensures
        (a | b) | b == a | b,
{
    assert((a | b) | b == a | b) by (bit_vector);
}

/// Computes the mask of a single value.
pub fn num_to_bitmap(value: usize) -> (bits: usize)
    requires
        value <= MAX_VALUE,
    ensures
        bits == value_bit(value),
{
    if value == 0 {
        0
    } else {
        1usize << (value - 1)
    }
}

} // verus!
