use vstd::prelude::*;

verus! {

/// Whether square `i` is a member of bitboard `b`.
pub open spec fn has(b: u64, i: int) -> bool {
    0 <= i < 64 && (b >> (i as u64)) & 1 == 1
}

} // verus!
