//! What the decoder's callers ask of the block store.

use vstd::prelude::*;

verus! {

/// The bound below which blocks are asked for: the block number that the caller
/// gave, or the greatest one where the caller gave none.
pub fn block_number_bound(before_block_number: Option<i64>) -> (out: i64)
    ensures
        out == match before_block_number {
            Some(number) => number,
            None => i64::MAX,
        },
{
    match before_block_number {
        Some(number) => number,
        None => i64::MAX,
    }
}

} // verus!
