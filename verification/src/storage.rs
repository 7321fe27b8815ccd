use vstd::prelude::*;
use crate::error::Error;

verus! {

/// A sector-addressed block-device port: whole-block reads and writes at
/// integer indices within `[min_block_index, max_block_index)`.
///
/// The spec functions model the device: `bs` is the block size, `blocks`
/// the content of every block, indexed by absolute block index.  A read
/// leaves the device unchanged; a write that fails may leave arbitrary
/// bytes in the addressed block but touches no other.
pub trait Storage: Sized {
    /// The block size the port serves.
    spec fn bs(&self) -> nat;

    /// The first block index of the region.
    spec fn min_idx(&self) -> nat;

    /// One past the last block index of the region.
    spec fn max_idx(&self) -> nat;

    /// The bytes of every block; meaningful on `[min_idx, max_idx)`.
    spec fn blocks(&self) -> Seq<Seq<u8>>;

    /// The port serves a coherent region of at least two blocks of at
    /// least 16 bytes each.
    spec fn wf(&self) -> bool;

    proof fn lemma_wf(&self)
        requires
            self.wf(),
        ensures
            16 <= self.bs(),
            self.min_idx() < self.max_idx(),
            self.max_idx() <= usize::MAX,
            self.bs() <= usize::MAX,
            self.blocks().len() == self.max_idx(),
            forall|i: int|
                self.min_idx() <= i < self.max_idx() ==> (#[trigger] self.blocks()[i]).len()
                    == self.bs(),
    ;

    fn read(&mut self, blk_idx: usize, data: &mut Vec<u8>) -> (r: Result<usize, Error>)
        requires
            old(self).wf(),
        ensures
            final(self).wf(),
            final(self).bs() == old(self).bs(),
            final(self).min_idx() == old(self).min_idx(),
            final(self).max_idx() == old(self).max_idx(),
            final(self).blocks() == old(self).blocks(),
            final(data)@.len() == old(data)@.len(),
            match r {
                Ok(n) => {
                    &&& n == old(self).bs()
                    &&& old(self).min_idx() <= blk_idx < old(self).max_idx()
                    &&& old(data)@.len() >= old(self).bs()
                    &&& final(data)@ == old(self).blocks()[blk_idx as int] + old(data)@.skip(
                        old(self).bs() as int,
                    )
                },
                Err(e) => {
                    &&& (e == Error::BlockOutOfRange || e == Error::NotEnoughSpaceForRead || e
                        == Error::CanNotSeekForRead || e == Error::CanNotPerformRead)
                    &&& (e == Error::BlockOutOfRange ==> !(old(self).min_idx() <= blk_idx < old(
                        self,
                    ).max_idx()))
                    &&& (e == Error::NotEnoughSpaceForRead ==> old(data)@.len() < old(self).bs())
                },
            },
    ;

    fn write(&mut self, blk_idx: usize, data: &Vec<u8>) -> (r: Result<usize, Error>)
        requires
            old(self).wf(),
        ensures
            final(self).wf(),
            final(self).bs() == old(self).bs(),
            final(self).min_idx() == old(self).min_idx(),
            final(self).max_idx() == old(self).max_idx(),
            final(self).blocks().len() == old(self).blocks().len(),
            forall|j: int|
                0 <= j < old(self).blocks().len() && j != blk_idx ==> final(self).blocks()[j]
                    == old(self).blocks()[j],
            match r {
                Ok(n) => {
                    &&& n == old(self).bs()
                    &&& old(self).min_idx() <= blk_idx < old(self).max_idx()
                    &&& data@.len() == old(self).bs()
                    &&& final(self).blocks() == old(self).blocks().update(blk_idx as int, data@)
                },
                Err(e) => {
                    &&& (e == Error::BlockOutOfRange || e == Error::DataLenNotEqualToBlockSize
                        || e == Error::CanNotSeekForWrite || e == Error::CanNotPerformWrite)
                    &&& (e == Error::BlockOutOfRange ==> !(old(self).min_idx() <= blk_idx < old(
                        self,
                    ).max_idx()) && final(self).blocks() == old(self).blocks())
                    &&& (e == Error::DataLenNotEqualToBlockSize ==> data@.len() != old(self).bs()
                        && final(self).blocks() == old(self).blocks())
                },
            },
    ;

    fn block_size(&self) -> (r: usize)
        requires
            self.wf(),
        ensures
            r == self.bs(),
    ;

    fn min_block_index(&self) -> (r: usize)
        requires
            self.wf(),
        ensures
            r == self.min_idx(),
    ;

    fn max_block_index(&self) -> (r: usize)
        requires
            self.wf(),
        ensures
            r == self.max_idx(),
    ;
}

/// Block `i` of a buffer of `len` bytes carved into blocks of `bs` bytes
/// spans `[i * bs, i * bs + bs)`, inside the buffer.
proof fn lemma_block_span(len: int, bs: int, i: int)
    requires
        bs > 0,
        len % bs == 0,
        0 <= i < len / bs,
    ensures
        0 <= i * bs,
        i * bs + bs <= len,
        i * bs + bs == (i + 1) * bs,
{
    vstd::arithmetic::div_mod::lemma_fundamental_div_mod(len, bs);
    assert(i * bs >= 0) by (nonlinear_arith)
        requires
            i >= 0,
            bs > 0,
    ;
    assert((i + 1) * bs <= (len / bs) * bs) by (nonlinear_arith)
        requires
            i + 1 <= len / bs,
            bs > 0,
    ;
    assert(i * bs + bs == (i + 1) * bs) by (nonlinear_arith);
}

/// An in-memory block device over one flat byte buffer; block 0 starts at
/// byte 0 and the region covers the whole buffer.
#[derive(Debug)]
pub struct RamStorage {
    pub data: Vec<u8>,
    pub block_size: usize,
}

impl RamStorage {
    /// A zeroed in-memory region of `size` bytes carved into blocks of
    /// `block_size` bytes.
    pub fn new(size: usize, block_size: usize) -> (r: Result<RamStorage, Error>)
        ensures
            match r {
                Ok(s) => {
                    &&& block_size >= 16
                    &&& size >= 2 * block_size
                    &&& size % block_size == 0
                    &&& s.wf()
                    &&& s.bs() == block_size
                    &&& s.min_idx() == 0
                    &&& s.max_idx() == size / block_size
                    &&& forall|i: int, j: int|
                        0 <= i < s.max_idx() && 0 <= j < block_size ==> (
                        #[trigger] s.blocks()[i][j]) == 0
                },
                Err(e) => {
                    &&& (e == Error::InvalidBlockSizeForStorage <==> (block_size < 16 || (size
                        >= 2 * block_size && size % block_size != 0)))
                    &&& (e == Error::TooSmallBuffer <==> (block_size >= 16 && size < 2
                        * block_size))
                    &&& (e == Error::InvalidBlockSizeForStorage || e == Error::TooSmallBuffer)
                },
            },
    {
        if block_size < 16 {
            return Err(Error::InvalidBlockSizeForStorage);
        }
        if size / 2 < block_size {
            proof {
                assert(size < 2 * block_size) by (nonlinear_arith)
                    requires
                        size / 2 < block_size,
                ;
            }
            return Err(Error::TooSmallBuffer);
        }
        proof {
            assert(size >= 2 * block_size) by (nonlinear_arith)
                requires
                    size / 2 >= block_size,
            ;
        }
        if size % block_size != 0 {
            return Err(Error::InvalidBlockSizeForStorage);
        }
        let s = RamStorage { data: vec![0u8; size], block_size };
        proof {
            s.lemma_wf();
            assert forall|i: int, j: int|
                0 <= i < s.max_idx() && 0 <= j < block_size implies (#[trigger] s.blocks()[i][j])
                == 0 by {
                lemma_block_span(s.data@.len() as int, block_size as int, i);
                assert(s.blocks()[i][j] == s.data@[i * block_size + j]);
            }
        }
        Ok(s)
    }
}

impl Storage for RamStorage {
    open spec fn bs(&self) -> nat {
        self.block_size as nat
    }

    open spec fn min_idx(&self) -> nat {
        0
    }

    open spec fn max_idx(&self) -> nat {
        self.data@.len() / self.bs()
    }

    open spec fn blocks(&self) -> Seq<Seq<u8>> {
        Seq::new(
            self.max_idx(),
            |i: int| self.data@.subrange(i * self.bs(), i * self.bs() + self.bs()),
        )
    }

    open spec fn wf(&self) -> bool {
        &&& self.block_size >= 16
        &&& self.data@.len() >= 2 * self.block_size
        &&& self.data@.len() as int % (self.block_size as int) == 0
    }

    proof fn lemma_wf(&self) {
        let bs = self.bs() as int;
        let len = self.data@.len() as int;
        vstd::arithmetic::div_mod::lemma_fundamental_div_mod(len, bs);
        assert(self.max_idx() <= usize::MAX) by {
            assert(vstd::std_specs::vec::spec_vec_len(&self.data) == self.data@.len());
            vstd::arithmetic::div_mod::lemma_div_is_ordered(len, usize::MAX as int, bs);
            vstd::arithmetic::div_mod::lemma_div_nonincreasing(usize::MAX as int, bs);
        }
        assert(self.min_idx() < self.max_idx()) by {
            vstd::arithmetic::div_mod::lemma_div_is_ordered(2 * bs, len, bs);
            vstd::arithmetic::div_mod::lemma_div_multiples_vanish(2, bs);
        }
        assert forall|i: int|
            self.min_idx() <= i < self.max_idx() implies (#[trigger] self.blocks()[i]).len()
            == self.bs() by {
            lemma_block_span(len, bs, i);
        }
    }

    fn read(&mut self, blk_idx: usize, data: &mut Vec<u8>) -> (r: Result<usize, Error>)
        ensures
            *final(self) == *old(self),
            r is Ok <==> (blk_idx < old(self).max_idx() && old(data)@.len() >= old(self).bs()),
            r is Err ==> final(data)@ == old(data)@,
            match r {
                Ok(n) => true,
                Err(e) => {
                    &&& (e == Error::BlockOutOfRange <==> blk_idx >= old(self).max_idx())
                    &&& (e == Error::NotEnoughSpaceForRead <==> blk_idx < old(self).max_idx()
                        && old(data)@.len() < old(self).bs())
                },
            },
    {
        if blk_idx >= self.max_block_index() {
            return Err(Error::BlockOutOfRange);
        }
        if data.len() < self.block_size {
            return Err(Error::NotEnoughSpaceForRead);
        }
        let total = self.data.len();
        proof {
            self.lemma_wf();
            lemma_block_span(self.data@.len() as int, self.block_size as int, blk_idx as int);
            assert(blk_idx * self.block_size + self.block_size <= total);
        }
        let base = blk_idx * self.block_size;
        let mut j: usize = 0;
        while j < self.block_size
            invariant
                j <= self.block_size,
                base == blk_idx * self.block_size,
                base + self.block_size <= self.data.len(),
                data.len() >= self.block_size,
                data@.len() == old(data)@.len(),
                self == old(self),
                forall|t: int| 0 <= t < j ==> data@[t] == self.data@[base + t],
                forall|t: int| j <= t < data@.len() ==> data@[t] == old(data)@[t],
            decreases self.block_size - j,
        {
            let b = self.data[base + j];
            data.set(j, b);
            j = j + 1;
        }
        proof {
            self.lemma_wf();
            assert(data@ =~= self.blocks()[blk_idx as int] + old(data)@.skip(self.bs() as int));
        }
        Ok(self.block_size)
    }

    fn write(&mut self, blk_idx: usize, data: &Vec<u8>) -> (r: Result<usize, Error>)
        ensures
            r is Ok <==> (blk_idx < old(self).max_idx() && data@.len() == old(self).bs()),
            r is Err ==> *final(self) == *old(self),
            match r {
                Ok(n) => true,
                Err(e) => {
                    &&& (e == Error::BlockOutOfRange <==> blk_idx >= old(self).max_idx())
                    &&& (e == Error::DataLenNotEqualToBlockSize <==> blk_idx < old(self).max_idx()
                        && data@.len() != old(self).bs())
                },
            },
    {
        if blk_idx >= self.max_block_index() {
            return Err(Error::BlockOutOfRange);
        }
        if data.len() != self.block_size {
            return Err(Error::DataLenNotEqualToBlockSize);
        }
        let total = self.data.len();
        proof {
            self.lemma_wf();
            lemma_block_span(self.data@.len() as int, self.block_size as int, blk_idx as int);
            assert(blk_idx * self.block_size + self.block_size <= total);
        }
        let base = blk_idx * self.block_size;
        let mut j: usize = 0;
        while j < self.block_size
            invariant
                j <= self.block_size,
                base == blk_idx * self.block_size,
                base + self.block_size <= self.data.len(),
                data.len() == self.block_size,
                self.block_size == old(self).block_size,
                self.data@.len() == old(self).data@.len(),
                forall|t: int| 0 <= t < j ==> self.data@[base + t] == data@[t],
                forall|t: int|
                    0 <= t < self.data@.len() && !(base <= t < base + j) ==> self.data@[t] == old(
                        self,
                    ).data@[t],
            decreases self.block_size - j,
        {
            let b = data[j];
            self.data.set(base + j, b);
            j = j + 1;
        }
        proof {
            self.lemma_wf();
            old(self).lemma_wf();
            lemma_ram_write_blocks(old(self), self, blk_idx as int, data@);
        }
        Ok(self.block_size)
    }

    fn block_size(&self) -> (r: usize) {
        self.block_size
    }

    fn min_block_index(&self) -> (r: usize) {
        0
    }

    fn max_block_index(&self) -> (r: usize) {
        self.data.len() / self.block_size
    }
}

/// After rewriting the bytes of one block, the device's block view is the
/// old view with only that block replaced.
proof fn lemma_ram_write_blocks(pre: &RamStorage, post: &RamStorage, idx: int, content: Seq<u8>)
    requires
        pre.wf(),
        post.wf(),
        post.block_size == pre.block_size,
        post.data@.len() == pre.data@.len(),
        0 <= idx < pre.max_idx(),
        content.len() == pre.bs(),
        forall|t: int|
            0 <= t < pre.bs() ==> post.data@[idx * pre.bs() as int + t] == content[t],
        forall|t: int|
            0 <= t < pre.data@.len() && !(idx * pre.bs() as int <= t < idx * pre.bs() as int
                + pre.bs() as int) ==> post.data@[t] == pre.data@[t],
    ensures
        post.blocks() == pre.blocks().update(idx, content),
{
    let bs = pre.bs() as int;
    let len = pre.data@.len() as int;
    vstd::arithmetic::div_mod::lemma_fundamental_div_mod(len, bs);
    lemma_block_span(len, bs, idx);
    assert forall|i: int| 0 <= i < pre.max_idx() implies #[trigger] post.blocks()[i]
        == pre.blocks().update(idx, content)[i] by {
        lemma_block_span(len, bs, i);
        if i == idx {
            assert forall|t: int| 0 <= t < bs implies post.blocks()[i][t] == content[t] by {
                assert(post.blocks()[i][t] == post.data@[i * bs + t]);
            }
            assert(post.blocks()[i] =~= content);
        } else {
            if i < idx {
                assert((i + 1) * bs <= idx * bs) by (nonlinear_arith)
                    requires
                        i + 1 <= idx,
                        bs > 0,
                ;
            } else {
                assert((idx + 1) * bs <= i * bs) by (nonlinear_arith)
                    requires
                        idx + 1 <= i,
                        bs > 0,
                ;
            }
            assert forall|t: int| 0 <= t < bs implies post.blocks()[i][t] == pre.blocks()[i][t]
                by {
                assert(post.data@[i * bs + t] == pre.data@[i * bs + t]);
            }
            assert(post.blocks()[i] =~= pre.blocks()[i]);
        }
    }
    assert(post.blocks() =~= pre.blocks().update(idx, content));
}

} // verus!
