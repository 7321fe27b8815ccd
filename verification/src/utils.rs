use vstd::prelude::*;
use crate::error::Error;
use crate::storage::Storage;

verus! {

/// Fails with `BlockOutOfRange` exactly when the index lies outside the
/// port's region.
pub fn validate_block_index<S: Storage>(storage: &S, blk_idx: usize) -> (r: Result<(), Error>)
    requires
        storage.wf(),
    ensures
        r is Ok <==> storage.min_idx() <= blk_idx < storage.max_idx(),
        r is Err ==> r == Err::<(), Error>(Error::BlockOutOfRange),
{
    if blk_idx < storage.min_block_index() || blk_idx >= storage.max_block_index() {
        return Err(Error::BlockOutOfRange);
    }
    Ok(())
}

/// True iff the two byte slices hold the same bytes in the same order.
pub fn slices_are_equal(a: &[u8], b: &[u8]) -> (r: bool)
    ensures
        r == (a@ == b@),
{
    if a.len() != b.len() {
        return false;
    }
    let mut i: usize = 0;
    while i < a.len()
        invariant
            i <= a@.len(),
            a@.len() == b@.len(),
            forall|j: int| 0 <= j < i ==> a@[j] == b@[j],
        decreases a@.len() - i,
    {
        if *vstd::slice::slice_index_get(a, i) != *vstd::slice::slice_index_get(b, i) {
            return false;
        }
        i = i + 1;
    }
    proof {
        assert(a@ =~= b@);
    }
    true
}

/// Normalize a block index into the data ring `[min_blk, max_blk)`:
/// indices below the ring start at its first block, indices past the end
/// wrap around by the ring's length.
pub fn trim_block_idx_with_wraparound(blk_idx: usize, min_blk: usize, max_blk: usize) -> (r: usize)
    requires
        min_blk < max_blk,
    ensures
        min_blk <= r < max_blk,
        blk_idx < min_blk ==> r == min_blk,
        min_blk <= blk_idx < max_blk ==> r == blk_idx,
        blk_idx >= max_blk ==> r == min_blk + ((blk_idx - min_blk) % (max_blk - min_blk)),
{
    if blk_idx < min_blk {
        min_blk
    } else if blk_idx >= max_blk {
        (blk_idx - min_blk) % (max_blk - min_blk) + min_blk
    } else {
        blk_idx
    }
}

} // verus!

