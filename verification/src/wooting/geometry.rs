//! Which boards of a Wooting set are drawn turned round.
use vstd::prelude::*;

verus! {

/// Board `i` of `n` is drawn rotated by 180 degrees when it is even-indexed
/// and has a partner after it.
pub fn rotated(i: u8, n: u8) -> (r: bool)
    ensures
        r == (i % 2 == 0 && i + 1 < n),
{
    i % 2 == 0 && i + 1 < n
}

} // verus!
