use vstd::prelude::*;

verus! {

/// A flag word with one bit switched on or off: how the visibility
/// backend rewrites the flags it read, leaving every other bit as it
/// was.
pub fn set_flag_bit(flags: u32, mask: u32, on: bool) -> (r: u32)
    ensures
        on ==> r == flags | mask,
        !on ==> r == flags & !mask,
{
    if on {
        flags | mask
    } else {
        flags & !mask
    }
}

/// Switching a bit on touches no other bit, and switching it off
/// afterwards leaves the word as if the bit had never been set: at
/// the flag level, hiding and then unhiding is residue-free.
pub proof fn lemma_flag_round_trip(flags: u32, mask: u32)
    ensures
        ((flags | mask) & !mask) == (flags & !mask),
        flags & mask == 0 ==> ((flags | mask) & !mask) == flags,
        ((flags | mask) & !mask) & mask == 0,
{
    assert(((flags | mask) & !mask) == (flags & !mask)) by (bit_vector);
    assert(flags & mask == 0 ==> (flags & !mask) == flags) by (bit_vector);
    assert((flags & !mask) & mask == 0) by (bit_vector);
}

} // verus!
