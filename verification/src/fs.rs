use vstd::prelude::*;
use vstd::arithmetic::div_mod::{
    lemma_fundamental_div_mod, lemma_fundamental_div_mod_converse, lemma_mod_division_less_than_divisor,
    lemma_small_mod,
};
use crate::block::{
    frame_belongs, frame_fs_id, frame_is_valid, frame_payload, frame_seq_id, Block, BlockFactory,
    BlockId, BlockInfo, FsId, DATA_BEGIN,
};
use crate::error::Error;
use crate::storage::Storage;
use crate::utils::trim_block_idx_with_wraparound;

verus! {

/// The version stamped into every config block.
pub const FS_VERSION: u32 = 0x1;

pub const VERSION_BEGIN: usize = 0;
pub const VERSION_LEN: usize = 4;
pub const VERSION_END: usize = 4;
pub const CONFIG_BLOCK_LEN: usize = 4;

/// The sequence id carried by the data frame that the ring stores in slot
/// `p`, after `k` appends into a ring of `n` slots: the largest id below
/// `k` that is congruent to `p` modulo `n`.
pub open spec fn slot_seq_id(k: nat, n: nat, p: nat) -> int
    recommends
        n > 0,
        p < k,
{
    p + n * ((k - 1 - p) / (n as int))
}

/// The data ring of a region: every block past the config block.
pub open spec fn ring_of<S: Storage>(st: &S) -> nat {
    (st.max_idx() - st.min_idx() - 1) as nat
}

/// The config block of the region belongs to the instance.
pub open spec fn image_config_ok<S: Storage>(st: &S, id: FsId) -> bool {
    &&& st.blocks()[st.min_idx() as int].len() == st.bs()
    &&& frame_belongs(st.blocks()[st.min_idx() as int], id)
}

/// The bytes of ring slot `p`.
pub open spec fn slot_block<S: Storage>(st: &S, p: int) -> Seq<u8> {
    st.blocks()[st.min_idx() + 1 + p]
}

/// Ring slot `p` holds the frame that a `k`-append history whose first
/// append carried sequence id `base` puts there.
pub open spec fn image_slot_ok<S: Storage>(st: &S, id: FsId, base: nat, k: nat, p: int) -> bool {
    let b = slot_block(st, p);
    &&& b.len() == st.bs()
    &&& frame_belongs(b, id)
    &&& frame_seq_id(b) == base + slot_seq_id(k, ring_of(st), p as nat)
}

/// The region is exactly the on-disk image left by `k` successful appends
/// into a formatted log whose sequence ids start at `base`: the config
/// block belongs, every ring slot that the history reaches holds its
/// frame, and every slot it does not reach holds a block that does not
/// belong to the instance.  A log formatted by this crate appends from
/// sequence id 0, so its regions are images with `base == 0`; a region
/// whose ids run from any other contiguous base is recovered all the
/// same.
pub open spec fn region_image<S: Storage>(st: &S, id: FsId, base: nat, k: nat) -> bool {
    &&& image_config_ok(st, id)
    &&& forall|p: int|
        0 <= p < ring_of(st) && p < k ==> #[trigger] image_slot_ok(st, id, base, k, p)
    &&& forall|p: int| k <= p < ring_of(st) ==> !frame_belongs(#[trigger] slot_block(st, p), id)
}

/// How a full ring absorbs one more payload: the oldest entry leaves,
/// the new one enters at the back.
pub open spec fn window_push(w: Seq<Seq<u8>>, p: Seq<u8>, n: nat) -> Seq<Seq<u8>> {
    if w.len() < n {
        w.push(p)
    } else {
        w.subrange(1, w.len() as int).push(p)
    }
}

/// A sequence id `j` that the ring still retains lives in slot `j % n`,
/// and that slot's stored id after `k` appends is `j` itself.
proof fn lemma_slot_of_seq(k: nat, n: nat, j: int)
    requires
        n >= 1,
        0 <= j < k,
        j >= k - n,
    ensures
        0 <= j % (n as int) < n,
        j % (n as int) < k,
        slot_seq_id(k, n, (j % (n as int)) as nat) == j,
{
    let ni = n as int;
    let p = j % ni;
    let q = j / ni;
    lemma_fundamental_div_mod(j, ni);
    lemma_mod_division_less_than_divisor(j, ni);
    vstd::arithmetic::div_mod::lemma_div_pos_is_pos(j, ni);
    assert(ni * q >= 0) by (nonlinear_arith)
        requires
            ni > 0,
            q >= 0,
    ;
    assert(p <= j);
    let r = k - 1 - j;
    assert(0 <= r < n);
    assert(k - 1 - p == ni * q + r);
    lemma_fundamental_div_mod_converse(k - 1 - p, ni, q, r);
    assert((k - 1 - p) / ni == q);
}

/// Stored slot ids do not move when one more append lands in a different
/// slot.
proof fn lemma_slot_seq_id_step(k: nat, n: nat, p: nat)
    requires
        n >= 1,
        p < n,
        p < k,
        p != k % n,
    ensures
        slot_seq_id((k + 1) as nat, n, p) == slot_seq_id(k, n, p),
{
    let ni = n as int;
    let q = (k - 1 - p) / ni;
    let r = (k - 1 - p) % ni;
    lemma_fundamental_div_mod(k - 1 - p, ni);
    lemma_mod_division_less_than_divisor(k - 1 - p, ni);
    vstd::arithmetic::div_mod::lemma_div_pos_is_pos(k - 1 - p, ni);
    if r == ni - 1 {
        assert(k - p == ni * (q + 1)) by (nonlinear_arith)
            requires
                k - 1 - p == ni * q + ni - 1,
        ;
        assert(k == p + ni * (q + 1));
        lemma_small_mod(p, n);
        vstd::arithmetic::div_mod::lemma_mod_multiples_vanish(q + 1, p as int, ni);
        assert(k as int % ni == p);
        assert(false);
    }
    assert(k - p == ni * q + (r + 1));
    lemma_fundamental_div_mod_converse(k - p, ni, q, r + 1);
}

/// The slot the cursor points at takes the new sequence id `k`.
proof fn lemma_cursor_slot(k: nat, n: nat)
    requires
        n >= 1,
    ensures
        0 <= k % n < n,
        slot_seq_id((k + 1) as nat, n, k % n) == k,
{
    let ni = n as int;
    let c = k % n;
    lemma_fundamental_div_mod(k as int, ni);
    lemma_mod_division_less_than_divisor(k as int, ni);
    vstd::arithmetic::div_mod::lemma_div_pos_is_pos(k as int, ni);
    let q = k as int / ni;
    assert(k - c == ni * q);
    assert(ni * q == q * ni) by (nonlinear_arith);
    lemma_fundamental_div_mod_converse(k - c, ni, q, 0);
    assert((k - c) / ni == q);
}

/// The closed form of a stored slot id: slots below the cursor hold ids
/// from the current lap of the ring, slots at or above it ids from the
/// previous lap.
proof fn lemma_slot_seq_value(kk: nat, n: nat, p: nat)
    requires
        n >= 1,
        p < n,
        p < kk,
    ensures
        p < kk % n ==> slot_seq_id(kk, n, p) == p + n * (kk as int / n as int),
        p >= kk % n ==> kk as int / n as int >= 1 && slot_seq_id(kk, n, p) == p + n * (
        kk as int / n as int) - n,
{
    let ni = n as int;
    let q = kk as int / ni;
    let c = kk as int % ni;
    lemma_fundamental_div_mod(kk as int, ni);
    lemma_mod_division_less_than_divisor(kk as int, ni);
    vstd::arithmetic::div_mod::lemma_div_pos_is_pos(kk as int, ni);
    if p < c {
        assert(kk - 1 - p == q * ni + (c - 1 - p)) by (nonlinear_arith)
            requires
                kk == ni * q + c,
        ;
        lemma_fundamental_div_mod_converse(kk - 1 - p, ni, q, c - 1 - p);
    } else {
        assert(q >= 1) by {
            if q == 0 {
                assert(kk == c) by (nonlinear_arith)
                    requires
                        kk == ni * q + c,
                        q == 0,
                ;
            }
        }
        assert(kk - 1 - p == (q - 1) * ni + (ni + c - 1 - p)) by (nonlinear_arith)
            requires
                kk == ni * q + c,
        ;
        lemma_fundamental_div_mod_converse(kk - 1 - p, ni, q - 1, ni + c - 1 - p);
        assert((kk - 1 - p) / ni == q - 1);
        assert(slot_seq_id(kk, n, p) == p + ni * (q - 1));
        assert(ni * (q - 1) == ni * q - ni) by (nonlinear_arith);
    }
}

/// Under the image of `kk` appends, a ring slot belongs to the instance
/// exactly when the history reaches it.
proof fn lemma_slot_belongs<S: Storage>(st: &S, id: FsId, bb: nat, kk: nat, p: int)
    requires
        region_image(st, id, bb, kk),
        0 <= p < ring_of(st),
    ensures
        frame_belongs(slot_block(st, p), id) <==> p < kk,
        p < kk ==> frame_seq_id(slot_block(st, p)) == bb + slot_seq_id(kk, ring_of(st), p as nat)
            && slot_block(st, p).len() == st.bs(),
{
    if p < kk {
        assert(image_slot_ok(st, id, bb, kk, p));
    }
}

/// Being an image is a property of the region's dimensions and block
/// contents alone, not of the rest of the port's state.
proof fn lemma_image_same_region<S: Storage>(a: &S, b: &S, id: FsId, bb: nat, k: nat)
    requires
        a.blocks() == b.blocks(),
        a.bs() == b.bs(),
        a.min_idx() == b.min_idx(),
        a.max_idx() == b.max_idx(),
        region_image(a, id, bb, k),
    ensures
        region_image(b, id, bb, k),
{
    assert forall|p: int| 0 <= p < ring_of(b) && p < k implies #[trigger] image_slot_ok(
        b,
        id,
        bb,
        k,
        p,
    ) by {
        assert(image_slot_ok(a, id, bb, k, p));
        assert(slot_block(b, p) == slot_block(a, p));
    }
    assert forall|p: int| k <= p < ring_of(b) implies !frame_belongs(
        #[trigger] slot_block(b, p),
        id,
    ) by {
        assert(slot_block(b, p) == slot_block(a, p));
        assert(!frame_belongs(slot_block(a, p), id));
    }
}

/// A stored slot id never reaches the append count.
proof fn lemma_slot_seq_le(k: nat, n: nat, p: nat)
    requires
        n >= 1,
        p < n,
        p < k,
    ensures
        slot_seq_id(k, n, p) <= k - 1,
{
    let ni = n as int;
    lemma_fundamental_div_mod(k - 1 - p, ni);
    vstd::arithmetic::div_mod::lemma_div_pos_is_pos(k - 1 - p, ni);
    lemma_mod_division_less_than_divisor(k - 1 - p, ni);
}

/// No two different append counts leave the same image on a region: what
/// a mount recovers is determined by the region alone.
pub proof fn lemma_image_unique<S: Storage>(st: &S, id: FsId, bb: nat, k1: nat, k2: nat)
    ensures
        ring_of(st) >= 1 && region_image(st, id, bb, k1) && region_image(st, id, bb, k2) ==> k1
            == k2,
{
    if ring_of(st) >= 1 && region_image(st, id, bb, k1) && region_image(st, id, bb, k2) && k1
        != k2 {
        let ka = if k1 < k2 { k1 } else { k2 };
        let kb = if k1 < k2 { k2 } else { k1 };
        let n = ring_of(st);
        // the slot of the newest frame of the longer history carries a
        // sequence id the shorter history cannot reach
        let j = kb - 1;
        lemma_slot_of_seq(kb, n, j);
        let p = j % (n as int);
        assert(image_slot_ok(st, id, bb, kb, p));
        lemma_slot_belongs(st, id, bb, ka, p);
        assert(p < ka);
        assert(image_slot_ok(st, id, bb, ka, p));
        lemma_slot_seq_le(ka, n, p as nat);
    }
}

/// The same, for every history length at once.
proof fn lemma_image_same_region_all<S: Storage>(a: &S, b: &S, id: FsId)
    requires
        a.blocks() == b.blocks(),
        a.bs() == b.bs(),
        a.min_idx() == b.min_idx(),
        a.max_idx() == b.max_idx(),
    ensures
        forall|bb: nat, kk: nat| #[trigger] region_image(a, id, bb, kk) <==> region_image(
            b,
            id,
            bb,
            kk,
        ),
{
    assert forall|bb: nat, kk: nat| #[trigger] region_image(a, id, bb, kk) implies region_image(
        b,
        id,
        bb,
        kk,
    ) by {
        lemma_image_same_region(a, b, id, bb, kk);
    }
    assert forall|bb: nat, kk: nat| #[trigger] region_image(b, id, bb, kk) implies region_image(
        a,
        id,
        bb,
        kk,
    ) by {
        lemma_image_same_region(b, a, id, bb, kk);
    }
}

/// A log whose port changed nothing observable on the region keeps its
/// sync with it.
proof fn lemma_synced_same_region<S: Storage>(pre: &Filesystem<S>, post: &Filesystem<S>)
    requires
        pre.synced(),
        post.wf(),
        post.spec_storage().blocks() == pre.spec_storage().blocks(),
        post.bs() == pre.bs(),
        post.lo() == pre.lo(),
        post.hi() == pre.hi(),
        post.spec_id() == pre.spec_id(),
        post.spec_offset() == pre.spec_offset(),
        post.appended() == pre.appended(),
        post.spec_is_full() == pre.spec_is_full(),
    ensures
        post.synced(),
        post.window() == pre.window(),
{
    lemma_image_same_region(&pre.storage, &post.storage, pre.id, 0, pre.appended());
    assert(post.window() =~= pre.window());
}

/// An append-only circular log of fixed-size frames over a block-device
/// port.
pub struct Filesystem<S: Storage> {
    storage: S,
    id: FsId,
    offset: usize,
    blk_factory: BlockFactory,
    is_empty: bool,
    is_full: bool,
    buffer: Vec<u8>,
}

/// The cursor and next sequence id that recovery computes.
#[derive(Debug)]
pub struct FsInitAttrs {
    pub next_offset: usize,
    pub next_id: BlockId,
}

impl<S: Storage> Filesystem<S> {
    /// The block size of the mounted region.
    pub open spec fn bs(&self) -> nat {
        self.spec_storage().bs()
    }

    /// First block index of the region: the config block.
    pub open spec fn lo(&self) -> nat {
        self.spec_storage().min_idx()
    }

    /// One past the last block index of the region.
    pub open spec fn hi(&self) -> nat {
        self.spec_storage().max_idx()
    }

    /// First data block index.
    pub open spec fn data_min(&self) -> nat {
        self.lo() + 1
    }

    /// Number of data blocks in the ring.
    pub open spec fn ring(&self) -> nat {
        (self.hi() - self.data_min()) as nat
    }

    /// How many appends this log has performed (the next sequence id).
    pub closed spec fn appended(&self) -> nat {
        self.blk_factory.id as nat
    }

    /// How many records are retrievable: everything appended, capped by
    /// the ring size.
    pub open spec fn log_len(&self) -> nat {
        if self.appended() < self.ring() {
            self.appended()
        } else {
            self.ring()
        }
    }

    pub closed spec fn spec_id(&self) -> FsId {
        self.id
    }

    pub closed spec fn spec_offset(&self) -> usize {
        self.offset
    }

    pub closed spec fn spec_is_empty(&self) -> bool {
        self.is_empty
    }

    pub closed spec fn spec_is_full(&self) -> bool {
        self.is_full
    }

    pub closed spec fn spec_storage(&self) -> S {
        self.storage
    }

    /// The scratch block buffer spans one block.
    pub closed spec fn scratch_ok(&self) -> bool {
        self.buffer@.len() == self.bs()
    }

    /// Structural well-formedness of a mounted log: a coherent port under
    /// it, a ring of at least two blocks, the cursor inside the ring, and
    /// the emptiness flag tracking the append count.
    pub open spec fn wf(&self) -> bool {
        &&& self.spec_storage().wf()
        &&& self.lo() + 3 <= self.hi()
        &&& self.scratch_ok()
        &&& self.data_min() <= self.spec_offset() < self.hi()
        &&& (self.spec_is_empty() <==> self.appended() == 0)
    }

    /// The in-memory state agrees with the on-disk image: the region is
    /// the image of `appended()` appends, the cursor points at the slot
    /// the next append will take, and the fullness flag says whether the
    /// ring has wrapped.
    pub open spec fn synced(&self) -> bool {
        &&& self.wf()
        &&& region_image(&self.spec_storage(), self.spec_id(), 0, self.appended())
        &&& self.spec_offset() == self.data_min() + self.appended() % self.ring()
        &&& (self.spec_is_full() <==> self.appended() >= self.ring())
    }

    /// The retained payloads, oldest first.
    pub open spec fn window(&self) -> Seq<Seq<u8>> {
        Seq::new(
            self.log_len(),
            |i: int|
                frame_payload(
                    self.spec_storage().blocks()[self.data_min() + (self.appended()
                        - self.log_len() + i) % self.ring() as int],
                ),
        )
    }

    /// What mounting a region that is the image of `kk` appends from the
    /// sequence-id base `bb` recovers: the next id past the history, the
    /// cursor one slot behind the newest frame, and the flags; a base-0
    /// image (this crate's own) leaves the log fully in sync with it.
    pub open spec fn recovers(&self, st: S, bb: nat, kk: nat) -> bool {
        &&& self.appended() == bb + kk
        &&& self.spec_offset() == st.min_idx() + 1 + kk % ring_of(&st)
        &&& (self.spec_is_full() <==> kk >= ring_of(&st))
        &&& (self.spec_is_empty() <==> kk == 0)
        &&& (bb == 0 ==> self.synced())
    }

    /// The physical block index a logical read offset addresses.
    pub open spec fn read_phys(&self, off: int) -> int {
        let base = if self.spec_is_full() {
            self.spec_offset() + off
        } else {
            self.data_min() + off
        };
        if base < self.hi() {
            base
        } else {
            self.data_min() + (base - self.data_min()) % self.ring() as int
        }
    }

    /// Mount the region for the instance `fs_id`, recovering the cursor
    /// and next sequence id from what is on it; when the region's config
    /// block does not belong to `fs_id`, format the region and start with
    /// an empty log.  On a region that is the image of `kk` appends of
    /// this instance — whatever sequence-id base the ids run from — the
    /// mounted state is exactly the state those appends left behind.
    pub fn new(storage: S, fs_id: FsId) -> (r: Result<Filesystem<S>, Error>)
        requires
            storage.wf(),
        ensures
            r == Err::<Filesystem<S>, Error>(Error::TooSmallFilesystem) <==> storage.min_idx() + 3
                > storage.max_idx(),
            match r {
                Ok(fs) => {
                    &&& fs.wf()
                    &&& fs.spec_id() == fs_id
                    &&& fs.spec_storage().wf()
                    &&& fs.bs() == storage.bs()
                    &&& fs.lo() == storage.min_idx()
                    &&& fs.hi() == storage.max_idx()
                    &&& storage.min_idx() + 3 <= storage.max_idx()
                    &&& (frame_belongs(storage.blocks()[storage.min_idx() as int], fs_id) ==> {
                        &&& fs.spec_storage().blocks() == storage.blocks()
                        &&& (!frame_belongs(slot_block(&storage, 0), fs_id) ==> fs.appended()
                            == 0 && fs.spec_offset() == storage.min_idx() + 1
                            && fs.spec_is_empty() && !fs.spec_is_full())
                        &&& forall|bb: nat, kk: nat|
                            bb + kk <= u64::MAX && (kk >= 1 || bb == 0) && #[trigger] region_image(
                                &storage,
                                fs_id,
                                bb,
                                kk,
                            ) ==> fs.recovers(storage, bb, kk)
                    })
                    &&& (!frame_belongs(storage.blocks()[storage.min_idx() as int], fs_id) ==> {
                        let cfg = fs.spec_storage().blocks()[storage.min_idx() as int];
                        &&& forall|t: int|
                            0 <= t < storage.blocks().len() && t != storage.min_idx()
                                ==> fs.spec_storage().blocks()[t] == storage.blocks()[t]
                        &&& image_config_ok(&fs.spec_storage(), fs_id)
                        &&& frame_seq_id(cfg) == 0
                        &&& crate::block::be_nat(
                            frame_payload(cfg).subrange(0, CONFIG_BLOCK_LEN as int),
                        ) == FS_VERSION
                        &&& fs.appended() == 0
                        &&& fs.spec_offset() == storage.min_idx() + 1
                        &&& fs.spec_is_empty()
                        &&& !fs.spec_is_full()
                        &&& ((forall|p: int|
                            0 <= p < ring_of(&storage) ==> !frame_belongs(
                                #[trigger] slot_block(&storage, p),
                                fs_id,
                            )) ==> fs.synced())
                    })
                },
                Err(e) => {
                    &&& (e == Error::TooSmallFilesystem || e == Error::CanNotSeekForRead || e
                        == Error::CanNotPerformRead || e == Error::CanNotSeekForWrite || e
                        == Error::CanNotPerformWrite || e == Error::CanNotWriteConfig || e
                        == Error::NotValidBlockForRead)
                    &&& (e == Error::CanNotWriteConfig ==> storage.bs() < DATA_BEGIN
                        + CONFIG_BLOCK_LEN)
                },
            },
    {
        proof {
            storage.lemma_wf();
        }
        let bs = storage.block_size();
        let mut fs = Filesystem {
            storage,
            id: fs_id,
            offset: 0,
            blk_factory: BlockFactory::new(),
            is_empty: true,
            is_full: false,
            buffer: vec![0u8; bs],
        };
        let r = fs.init();
        match r {
            Err(e) => Err(e),
            Ok(()) => Ok(fs),
        }
    }

    /// Mount the region, taking the instance id from its config block;
    /// fails with `InvalidHeaderBlock` when that block's checksum does not
    /// hold.
    pub fn restore(storage: S) -> (r: Result<Filesystem<S>, Error>)
        requires
            storage.wf(),
        ensures
            match r {
                Ok(fs) => {
                    let cfg = storage.blocks()[storage.min_idx() as int];
                    &&& frame_is_valid(cfg)
                    &&& fs.wf()
                    &&& fs.spec_id() == frame_fs_id(cfg)
                    &&& fs.spec_storage().wf()
                    &&& fs.bs() == storage.bs()
                    &&& fs.lo() == storage.min_idx()
                    &&& fs.hi() == storage.max_idx()
                    &&& storage.min_idx() + 3 <= storage.max_idx()
                    &&& fs.spec_storage().blocks() == storage.blocks()
                    &&& (!frame_belongs(slot_block(&storage, 0), fs.spec_id()) ==> fs.appended()
                        == 0 && fs.spec_offset() == storage.min_idx() + 1 && fs.spec_is_empty()
                        && !fs.spec_is_full())
                    &&& forall|bb: nat, kk: nat|
                        bb + kk <= u64::MAX && (kk >= 1 || bb == 0) && #[trigger] region_image(
                            &storage,
                            fs.spec_id(),
                            bb,
                            kk,
                        ) ==> fs.recovers(storage, bb, kk)
                },
                Err(e) => {
                    &&& (e == Error::InvalidHeaderBlock || e == Error::TooSmallFilesystem || e
                        == Error::CanNotSeekForRead || e == Error::CanNotPerformRead || e
                        == Error::CanNotSeekForWrite || e == Error::CanNotPerformWrite || e
                        == Error::CanNotWriteConfig || e == Error::NotValidBlockForRead)
                    &&& (e == Error::InvalidHeaderBlock ==> !frame_is_valid(
                        storage.blocks()[storage.min_idx() as int],
                    ))
                    &&& (e == Error::TooSmallFilesystem ==> storage.min_idx() + 3
                        > storage.max_idx())
                },
            },
    {
        proof {
            storage.lemma_wf();
        }
        let mut storage = storage;
        let ghost st0 = storage;
        let bs = storage.block_size();
        let first_block = storage.min_block_index();
        let mut buf = vec![0u8; bs];
        let r = storage.read(first_block, &mut buf);
        match r {
            Err(e) => {
                return Err(e);
            },
            Ok(_) => {},
        }
        proof {
            assert(buf@ =~= st0.blocks()[st0.min_idx() as int]);
        }
        let info = BlockInfo::from_buffer(&buf);
        if !info.is_valid {
            return Err(Error::InvalidHeaderBlock);
        }
        proof {
            lemma_image_same_region_all(&st0, &storage, info.fs_id);
        }
        Self::new(storage, info.fs_id)
    }

    fn setup_attributes(&mut self, next_offset: usize, next_id: BlockId, is_empty: bool, is_full: bool)
        ensures
            final(self).storage == old(self).storage,
            final(self).id == old(self).id,
            final(self).buffer == old(self).buffer,
            final(self).offset == next_offset,
            final(self).blk_factory.id == next_id,
            final(self).is_empty == is_empty,
            final(self).is_full == is_full,
    {
        self.offset = next_offset;
        self.blk_factory.set_id(next_id);
        self.is_empty = is_empty;
        self.is_full = is_full;
    }

    /// Payload bytes available in every frame of this log.
    pub fn data_block_size(&self) -> (r: usize)
        requires
            self.wf(),
        ensures
            r == self.bs() - DATA_BEGIN,
    {
        proof {
            self.storage.lemma_wf();
        }
        self.storage.block_size() - Block::attributes_size()
    }

    /// Advance the cursor one slot, wrapping at the end of the ring.
    pub fn incr_offset(&mut self)
        requires
            old(self).wf(),
        ensures
            final(self).wf(),
            final(self).spec_storage() == old(self).spec_storage(),
            final(self).spec_id() == old(self).spec_id(),
            final(self).appended() == old(self).appended(),
            final(self).spec_is_empty() == old(self).spec_is_empty(),
            final(self).spec_is_full() == old(self).spec_is_full(),
            final(self).spec_offset() == old(self).data_min() + (old(self).spec_offset() + 1
                - old(self).data_min()) % old(self).ring() as int,
    {
        proof {
            self.storage.lemma_wf();
        }
        let next = self.trim_offset(self.offset + 1);
        self.offset = next;
        proof {
            lemma_mod_division_less_than_divisor(
                (old(self).offset + 1 - old(self).data_min()) as int,
                old(self).ring() as int,
            );
            if old(self).offset + 1 < old(self).hi() {
                lemma_small_mod(
                    (old(self).offset + 1 - old(self).data_min()) as nat,
                    old(self).ring(),
                );
            } else {
                assert(old(self).offset + 1 == old(self).hi());
                assert((old(self).offset + 1 - old(self).data_min()) % old(self).ring() as int
                    == 0) by {
                    vstd::arithmetic::div_mod::lemma_mod_self_0(old(self).ring() as int);
                }
            }
        }
    }

    fn data_blk_offset(&self) -> (r: usize)
        requires
            self.storage.wf(),
            self.lo() + 3 <= self.hi(),
        ensures
            r == self.data_min(),
    {
        proof {
            self.storage.lemma_wf();
        }
        self.storage.min_block_index() + 1
    }

    fn trim_offset(&self, offset: usize) -> (r: usize)
        requires
            self.storage.wf(),
            self.lo() + 3 <= self.hi(),
            offset >= self.data_min(),
        ensures
            self.data_min() <= r < self.hi(),
            offset < self.hi() ==> r == offset,
            offset >= self.hi() ==> r == self.data_min() + (offset - self.data_min())
                % self.ring() as int,
    {
        proof {
            self.storage.lemma_wf();
        }
        trim_block_idx_with_wraparound(
            offset,
            self.data_blk_offset(),
            self.storage.max_block_index(),
        )
    }

    /// The cursor: the physical index the next append writes.
    pub fn offset(&self) -> (r: usize)
        ensures
            r == self.spec_offset(),
    {
        self.offset
    }

    /// The sequence id the next append will stamp.
    pub fn next_blk_id(&self) -> (r: BlockId)
        ensures
            r == self.appended(),
    {
        self.blk_factory.id
    }

    /// The instance id of this log.
    pub fn id(&self) -> (r: FsId)
        ensures
            r == self.spec_id(),
    {
        self.id
    }

    /// True iff no data frame of this instance is on the region.
    pub fn is_empty(&self) -> (r: bool)
        ensures
            r == self.spec_is_empty(),
    {
        self.is_empty
    }

    /// True iff every ring slot holds a frame of this instance.
    pub fn is_full(&self) -> (r: bool)
        ensures
            r == self.spec_is_full(),
    {
        self.is_full
    }

    /// Hand the underlying port back, consuming the log.
    pub fn into_storage(self) -> (r: S)
        ensures
            r == self.spec_storage(),
    {
        self.storage
    }

    /// Append one payload as the next frame at the cursor.  On success the
    /// cursor advances one slot (wrapping at the end of the ring), the next
    /// sequence id is consumed, and — when the in-memory state was in sync
    /// with the region — it stays in sync: the retained window gains the
    /// new payload at its back, dropping the oldest record once the ring
    /// is full.  On failure nothing of the in-memory state moves; the port
    /// may have left arbitrary bytes in the cursor's slot, which a later
    /// mount resolves by treating an invalid block as not belonging.
    pub fn append(&mut self, payload: &Vec<u8>) -> (r: Result<usize, Error>)
        requires
            old(self).wf(),
            payload@.len() + DATA_BEGIN == old(self).bs(),
            old(self).appended() < u64::MAX,
        ensures
            final(self).wf(),
            final(self).spec_id() == old(self).spec_id(),
            final(self).bs() == old(self).bs(),
            final(self).lo() == old(self).lo(),
            final(self).hi() == old(self).hi(),
            final(self).spec_storage().blocks().len() == old(self).spec_storage().blocks().len(),
            forall|t: int|
                0 <= t < old(self).spec_storage().blocks().len() && t != old(self).spec_offset()
                    ==> final(self).spec_storage().blocks()[t] == old(self).spec_storage().blocks()[t],
            match r {
                Ok(n) => {
                    let b = final(self).spec_storage().blocks()[old(self).spec_offset() as int];
                    &&& n == old(self).bs() - DATA_BEGIN
                    &&& b.len() == old(self).bs()
                    &&& frame_belongs(b, old(self).spec_id())
                    &&& frame_seq_id(b) == old(self).appended()
                    &&& frame_payload(b) == payload@
                    &&& final(self).appended() == old(self).appended() + 1
                    &&& !final(self).spec_is_empty()
                    &&& final(self).spec_is_full() == (old(self).spec_is_full() || old(self).spec_offset() == old(self).hi() - 1)
                    &&& final(self).spec_offset() == old(self).data_min() + (old(self).spec_offset() + 1 - old(self).data_min()) % old(self).ring() as int
                    &&& (old(self).synced() ==> final(self).synced() && final(self).window()
                        == window_push(old(self).window(), payload@, old(self).ring()))
                },
                Err(e) => {
                    &&& (e == Error::CanNotSeekForWrite || e == Error::CanNotPerformWrite)
                    &&& final(self).appended() == old(self).appended()
                    &&& final(self).spec_offset() == old(self).spec_offset()
                    &&& final(self).spec_is_empty() == old(self).spec_is_empty()
                    &&& final(self).spec_is_full() == old(self).spec_is_full()
                },
            },
    {
        proof {
            self.storage.lemma_wf();
        }
        let cur = self.blk_factory.id;
        self.blk_factory.create_with_writer(&mut self.buffer, self.id, payload);
        let write = self.storage.write(self.offset, &self.buffer);
        match write {
            Err(e) => {
                self.blk_factory.set_id(cur);
                return Err(e);
            },
            Ok(_) => {},
        }
        self.is_empty = false;
        if self.offset == self.storage.max_block_index() - 1 {
            self.is_full = true;
        }
        self.incr_offset();
        proof {
            if old(self).synced() {
                lemma_append_image(&old(self), &*self, payload@);
            }
        }
        let bs = self.storage.block_size();
        Ok(bs - Block::attributes_size())
    }

    /// Read the record at `blk_offset`, counted from the oldest retained
    /// one, into `out`.  When the state is in sync with the region, every
    /// offset below `log_len` yields that record of the window, and every
    /// offset from `log_len` up to the ring size is refused as
    /// `NotValidBlockForRead` — unless the port itself fails first.
    pub fn read(&mut self, blk_offset: usize, out: &mut Vec<u8>) -> (r: Result<usize, Error>)
        requires
            old(self).wf(),
            blk_offset <= usize::MAX - old(self).hi(),
        ensures
            final(self).wf(),
            final(self).spec_storage().blocks() == old(self).spec_storage().blocks(),
            final(self).bs() == old(self).bs(),
            final(self).lo() == old(self).lo(),
            final(self).hi() == old(self).hi(),
            final(self).spec_id() == old(self).spec_id(),
            final(self).spec_offset() == old(self).spec_offset(),
            final(self).appended() == old(self).appended(),
            final(self).spec_is_empty() == old(self).spec_is_empty(),
            final(self).spec_is_full() == old(self).spec_is_full(),
            old(self).synced() ==> final(self).synced() && final(self).window() == old(self).window(),
            match r {
                Ok(n) => {
                    let b = old(self).spec_storage().blocks()[old(self).read_phys(
                        blk_offset as int,
                    )];
                    &&& n == old(self).bs() - DATA_BEGIN
                    &&& frame_belongs(b, old(self).spec_id())
                    &&& final(out)@ == frame_payload(b)
                },
                Err(e) => {
                    &&& final(out)@ == old(out)@
                    &&& (e == Error::NotValidBlockForRead || e == Error::CanNotSeekForRead || e
                        == Error::CanNotPerformRead)
                    &&& (e == Error::NotValidBlockForRead ==> !frame_belongs(
                        old(self).spec_storage().blocks()[old(self).read_phys(blk_offset as int)],
                        old(self).spec_id(),
                    ))
                },
            },
            old(self).synced() && blk_offset < old(self).log_len() ==> match r {
                Ok(n) => final(out)@ == old(self).window()[blk_offset as int],
                Err(e) => e == Error::CanNotSeekForRead || e == Error::CanNotPerformRead,
            },
            old(self).synced() && old(self).log_len() <= blk_offset < old(self).ring() ==> !(
            r is Ok),
    {
        proof {
            self.storage.lemma_wf();
            if old(self).synced() && blk_offset < old(self).ring() {
                lemma_read_slot(&old(self), blk_offset as int);
            }
        }
        let base = if self.is_full() {
            self.offset + blk_offset
        } else {
            self.data_blk_offset() + blk_offset
        };
        let offset = self.trim_offset(base);
        let blk_len = self.storage.block_size();
        let read = self.storage.read(offset, &mut self.buffer);
        proof {
            if old(self).synced() {
                lemma_synced_same_region(&old(self), &*self);
            }
        }
        match read {
            Err(e) => {
                return Err(e);
            },
            Ok(_) => {},
        }
        proof {
            assert(self.buffer@ =~= old(self).spec_storage().blocks()[offset as int]);
        }
        let info = BlockInfo::from_buffer(&self.buffer);
        if !info.is_valid || info.fs_id != self.id {
            return Err(Error::NotValidBlockForRead);
        }
        out.clear();
        let mut i: usize = 0;
        let count = blk_len - Block::attributes_size();
        while i < count
            invariant
                i <= count,
                count + DATA_BEGIN == blk_len,
                self.buffer@.len() == blk_len,
                out@ =~= self.buffer@.subrange(DATA_BEGIN as int, DATA_BEGIN + i),
            decreases count - i,
        {
            let b = self.buffer[DATA_BEGIN + i];
            out.push(b);
            i = i + 1;
        }
        proof {
            assert(out@ =~= frame_payload(self.buffer@));
        }
        Ok(count)
    }

    /// Write a fresh config frame at `blk_idx`, consuming one sequence id.
    fn write_config(&mut self, blk_idx: usize) -> (r: Result<(), Error>)
        requires
            old(self).storage.wf(),
            old(self).blk_factory.id < u64::MAX,
        ensures
            final(self).storage.wf(),
            final(self).storage.bs() == old(self).storage.bs(),
            final(self).storage.min_idx() == old(self).storage.min_idx(),
            final(self).storage.max_idx() == old(self).storage.max_idx(),
            final(self).storage.blocks().len() == old(self).storage.blocks().len(),
            final(self).id == old(self).id,
            final(self).offset == old(self).offset,
            final(self).is_empty == old(self).is_empty,
            final(self).is_full == old(self).is_full,
            final(self).buffer == old(self).buffer,
            final(self).blk_factory.id == old(self).blk_factory.id + 1,
            forall|t: int|
                0 <= t < old(self).storage.blocks().len() && t != blk_idx ==> final(self).storage.blocks()[t] == old(self).storage.blocks()[t],
            match r {
                Ok(()) => {
                    let b = final(self).storage.blocks()[blk_idx as int];
                    &&& old(self).storage.min_idx() <= blk_idx < old(self).storage.max_idx()
                    &&& old(self).storage.bs() >= DATA_BEGIN + CONFIG_BLOCK_LEN
                    &&& b.len() == old(self).storage.bs()
                    &&& frame_belongs(b, old(self).id)
                    &&& frame_seq_id(b) == old(self).blk_factory.id
                    &&& crate::block::be_nat(
                        frame_payload(b).subrange(0, CONFIG_BLOCK_LEN as int),
                    ) == FS_VERSION
                },
                Err(e) => {
                    &&& (e == Error::CanNotWriteConfig || e == Error::BlockOutOfRange || e
                        == Error::CanNotSeekForWrite || e == Error::CanNotPerformWrite)
                    &&& (e == Error::BlockOutOfRange ==> !(old(self).storage.min_idx() <= blk_idx
                        < old(self).storage.max_idx()))
                    &&& (e == Error::CanNotWriteConfig ==> old(self).storage.bs() < DATA_BEGIN
                        + CONFIG_BLOCK_LEN && frame_belongs(
                        final(self).storage.blocks()[blk_idx as int],
                        old(self).id,
                    ))
                },
            },
    {
        proof {
            self.storage.lemma_wf();
        }
        let bs = self.storage.block_size();
        let mut data_buf = vec![0u8; bs];
        let config = FsConfigBlock::new();
        let config_data = FsConfigBlock::to_be_bytes(&config);
        let payload_len = bs - Block::attributes_size();
        let mut payload = vec![0u8; payload_len];
        let to_copy = if config_data.len() < payload_len {
            config_data.len()
        } else {
            payload_len
        };
        let config_was_not_written = to_copy != config_data.len();
        let mut i: usize = 0;
        while i < to_copy
            invariant
                i <= to_copy,
                to_copy <= config_data@.len(),
                to_copy <= payload@.len(),
                payload@.len() == payload_len,
                forall|t: int| 0 <= t < i ==> payload@[t] == config_data@[t],
                forall|t: int| i <= t < payload_len ==> payload@[t] == 0,
            decreases to_copy - i,
        {
            let b = config_data[i];
            payload.set(i, b);
            i = i + 1;
        }
        self.blk_factory.create_with_writer(&mut data_buf, self.id, &payload);
        let write = self.storage.write(blk_idx, &data_buf);
        match write {
            Err(e) => {
                return Err(e);
            },
            Ok(_) => {},
        }
        proof {
            if !config_was_not_written {
                let b = self.storage.blocks()[blk_idx as int];
                assert(frame_payload(b).subrange(0, CONFIG_BLOCK_LEN as int) =~= config_data@);
            }
        }
        if config_was_not_written {
            return Err(Error::CanNotWriteConfig);
        }
        Ok(())
    }

    /// `left` can still have newer frames at or beyond it: it belongs, and
    /// `right` either does not belong or carries an older id.
    fn can_have_tail(&self, left: &BlockInfo, right: &BlockInfo) -> (r: bool)
        ensures
            r == (left.is_valid && left.fs_id == self.spec_id() && (!(right.is_valid
                && right.fs_id == self.spec_id()) || left.id > right.id)),
    {
        if !left.is_valid || left.fs_id != self.id {
            return false;
        }
        if !right.is_valid || right.fs_id != self.id {
            return true;
        }
        left.id > right.id
    }

    /// Recover the cursor, next sequence id and flags from the region in
    /// logarithmically many block reads; when the config block does not
    /// belong to this instance, format the region instead and start empty.
    /// On a region that is the image of `kk` appends of this instance,
    /// from any sequence-id base, the recovered state is exactly the
    /// state those appends left behind.
    #[verifier::rlimit(100)]
    fn init(&mut self) -> (r: Result<(), Error>)
        requires
            old(self).storage.wf(),
            old(self).blk_factory.id < u64::MAX,
            old(self).buffer@.len() == old(self).storage.bs(),
        ensures
            final(self).storage.wf(),
            final(self).storage.bs() == old(self).storage.bs(),
            final(self).storage.min_idx() == old(self).storage.min_idx(),
            final(self).storage.max_idx() == old(self).storage.max_idx(),
            final(self).id == old(self).id,
            final(self).buffer == old(self).buffer,
            r == Err::<(), Error>(Error::TooSmallFilesystem) <==> old(self).storage.min_idx() + 3
                > old(self).storage.max_idx(),
            match r {
                Ok(()) => {
                    let st0 = old(self).storage;
                    let id = old(self).id;
                    &&& final(self).wf()
                    &&& st0.min_idx() + 3 <= st0.max_idx()
                    &&& (frame_belongs(st0.blocks()[st0.min_idx() as int], id) ==> {
                        &&& final(self).storage.blocks() == st0.blocks()
                        &&& (!frame_belongs(slot_block(&st0, 0), id) ==> final(self).appended()
                            == 0 && final(self).offset == st0.min_idx() + 1 && final(self).is_empty && !final(self).is_full)
                        &&& forall|bb: nat, kk: nat|
                            bb + kk <= u64::MAX && (kk >= 1 || bb == 0) && #[trigger] region_image(
                                &st0,
                                id,
                                bb,
                                kk,
                            ) ==> final(self).recovers(st0, bb, kk)
                    })
                    &&& (!frame_belongs(st0.blocks()[st0.min_idx() as int], id) ==> {
                        let cfg = final(self).storage.blocks()[st0.min_idx() as int];
                        &&& forall|t: int|
                            0 <= t < st0.blocks().len() && t != st0.min_idx() ==> final(self).storage.blocks()[t] == st0.blocks()[t]
                        &&& image_config_ok(&final(self).storage, id)
                        &&& frame_seq_id(cfg) == old(self).blk_factory.id
                        &&& crate::block::be_nat(
                            frame_payload(cfg).subrange(0, CONFIG_BLOCK_LEN as int),
                        ) == FS_VERSION
                        &&& final(self).appended() == 0
                        &&& final(self).offset == st0.min_idx() + 1
                        &&& final(self).is_empty
                        &&& !final(self).is_full
                        &&& ((forall|p: int|
                            0 <= p < ring_of(&st0) ==> !frame_belongs(
                                #[trigger] slot_block(&st0, p),
                                id,
                            )) ==> final(self).synced())
                    })
                },
                Err(e) => {
                    &&& (e == Error::TooSmallFilesystem || e == Error::CanNotSeekForRead || e
                        == Error::CanNotPerformRead || e == Error::CanNotSeekForWrite || e
                        == Error::CanNotPerformWrite || e == Error::CanNotWriteConfig || e
                        == Error::NotValidBlockForRead)
                    &&& (e == Error::CanNotWriteConfig ==> old(self).storage.bs() < DATA_BEGIN
                        + CONFIG_BLOCK_LEN)
                },
            },
    {
        let begin0 = self.storage.min_block_index();
        let end0 = self.storage.max_block_index();
        if begin0 > usize::MAX - 3 || end0 < begin0 + 3 {
            return Err(Error::TooSmallFilesystem);
        }
        proof {
            self.storage.lemma_wf();
        }
        let bs = self.storage.block_size();
        let mut read_buf = vec![0u8; bs];
        let ghost st0 = self.storage;
        let ghost id0 = self.id;
        let ghost n = ring_of(&st0);

        let cfg_read = self.storage.read(begin0, &mut read_buf);
        match cfg_read {
            Err(e) => {
                return Err(e);
            },
            Ok(_) => {},
        }
        proof {
            assert(read_buf@ =~= st0.blocks()[begin0 as int]);
        }
        let cfg_block = BlockInfo::from_buffer(&read_buf);
        if !cfg_block.is_valid || cfg_block.fs_id != self.id {
            // the region was never formatted for this instance: make it an
            // empty log by writing a fresh config block
            let wc = self.write_config(begin0);
            match wc {
                Err(e) => {
                    return Err(e);
                },
                Ok(()) => {},
            }
            self.setup_attributes(begin0 + 1, 0, true, false);
            proof {
                if forall|p: int|
                    0 <= p < ring_of(&st0) ==> !frame_belongs(#[trigger] slot_block(&st0, p), id0) {
                    assert forall|p: int| 0 <= p < ring_of(&self.storage) implies !frame_belongs(
                        #[trigger] slot_block(&self.storage, p),
                        id0,
                    ) by {
                        assert(slot_block(&self.storage, p) == slot_block(&st0, p));
                        assert(!frame_belongs(slot_block(&st0, p), id0));
                    }
                    lemma_small_mod(0, n);
                }
            }
            return Ok(());
        }
        let begin_data = begin0 + 1;
        let dread = self.storage.read(begin_data, &mut read_buf);
        match dread {
            Err(e) => {
                return Err(e);
            },
            Ok(_) => {},
        }
        proof {
            assert(read_buf@ =~= st0.blocks()[begin_data as int]);
            assert(st0.blocks()[begin_data as int] == slot_block(&st0, 0));
        }
        let left_block = BlockInfo::from_buffer(&read_buf);
        if !left_block.is_valid || left_block.fs_id != self.id {
            // formatted but the first data slot holds nothing of ours:
            // treat the region as an empty log
            self.setup_attributes(begin_data, 0, true, false);
            proof {
                assert forall|bb: nat, kk: nat|
                    bb + kk <= u64::MAX && (kk >= 1 || bb == 0) && #[trigger] region_image(
                        &st0,
                        id0,
                        bb,
                        kk,
                    ) implies self.recovers(st0, bb, kk) by {
                    lemma_slot_belongs(&st0, id0, bb, kk, 0);
                    assert(kk == 0);
                    lemma_image_same_region(&st0, &self.storage, id0, 0, 0);
                    lemma_small_mod(0, n);
                }
            }
            return Ok(());
        }
        let eread = self.storage.read(end0 - 1, &mut read_buf);
        match eread {
            Err(e) => {
                return Err(e);
            },
            Ok(_) => {},
        }
        proof {
            assert(read_buf@ =~= st0.blocks()[end0 - 1]);
            assert(st0.blocks()[end0 - 1] == slot_block(&st0, n - 1));
        }
        let mut right_block = BlockInfo::from_buffer(&read_buf);
        if right_block.is_valid && right_block.fs_id == self.id && right_block.id > left_block.id {
            // the newest frame sits in the last slot: the ring is exactly
            // at a lap boundary and the next append goes to the first slot
            if right_block.id == u64::MAX {
                // a frame claiming the last representable sequence id
                // cannot be genuine: the id space would be exhausted
                return Err(Error::NotValidBlockForRead);
            }
            self.setup_attributes(begin_data, right_block.id + 1, false, true);
            proof {
                assert forall|bb: nat, kk: nat|
                    bb + kk <= u64::MAX && (kk >= 1 || bb == 0) && #[trigger] region_image(
                        &st0,
                        id0,
                        bb,
                        kk,
                    ) implies self.recovers(st0, bb, kk) by {
                    lemma_slot_belongs(&st0, id0, bb, kk, 0);
                    lemma_slot_belongs(&st0, id0, bb, kk, n - 1);
                    assert(kk >= n);
                    lemma_slot_seq_value(kk, n, 0);
                    lemma_slot_seq_value(kk, n, (n - 1) as nat);
                    lemma_fundamental_div_mod(kk as int, n as int);
                    let c = kk % n;
                    if c >= 1 {
                        assert(false);
                    }
                    assert(right_block.id == bb + kk - 1);
                    if bb == 0 {
                        lemma_image_same_region(&st0, &self.storage, id0, 0, kk);
                    }
                }
            }
            return Ok(());
        }
        let is_full = right_block.is_valid && right_block.fs_id == self.id;
        let mut last_id = left_block.id;
        let mut begin = begin_data;
        let mut end = end0;
        proof {
            // not the lap-boundary case: the cursor is strictly inside the
            // ring, so the newest frame sits at slot `kk % n - 1`
            assert forall|bb: nat, kk: nat| #[trigger]
                region_image(&st0, id0, bb, kk) implies kk >= 1 && kk % n >= 1 && (kk >= n
                <==> is_full) && begin <= begin0 + kk % n <= end - 2 && begin - begin_data < kk
                && last_id == bb + slot_seq_id(kk, n, (begin - begin_data) as nat) by {
                lemma_slot_belongs(&st0, id0, bb, kk, 0);
                assert(kk >= 1);
                lemma_slot_belongs(&st0, id0, bb, kk, n - 1);
                lemma_fundamental_div_mod(kk as int, n as int);
                lemma_mod_division_less_than_divisor(kk as int, n as int);
                let c = kk % n;
                if kk < n {
                    lemma_small_mod(kk, n);
                    assert(c == kk);
                    assert(c >= 1);
                } else {
                    lemma_slot_seq_value(kk, n, 0);
                    lemma_slot_seq_value(kk, n, (n - 1) as nat);
                    if c == 0 {
                        assert(false);
                    }
                }
                lemma_slot_seq_value(kk, n, 0);
            }
        }
        while end - begin > 2
            invariant
                self.storage.wf(),
                self.storage.bs() == st0.bs(),
                self.storage.min_idx() == st0.min_idx(),
                self.storage.max_idx() == st0.max_idx(),
                self.storage.blocks() == st0.blocks(),
                self.id == id0,
                self.buffer == old(self).buffer,
                self.offset == old(self).offset,
                self.blk_factory == old(self).blk_factory,
                self.is_empty == old(self).is_empty,
                self.is_full == old(self).is_full,
                st0 == old(self).storage,
                id0 == old(self).id,
                st0.wf(),
                n == ring_of(&st0),
                begin0 == st0.min_idx(),
                end0 == st0.max_idx(),
                begin_data == begin0 + 1,
                begin0 + 3 <= end0,
                bs == st0.bs(),
                read_buf@.len() == bs,
                begin_data <= begin,
                begin + 2 <= end,
                end <= end0,
                forall|bb: nat, kk: nat| #[trigger]
                    region_image(&st0, id0, bb, kk) ==> kk >= 1 && kk % n >= 1 && (kk >= n
                        <==> is_full) && begin <= begin0 + kk % n <= end - 2 && begin - begin_data
                        < kk && last_id == bb + slot_seq_id(kk, n, (begin - begin_data) as nat)
                        && ((right_block.is_valid && right_block.fs_id == id0) <==> frame_belongs(
                        slot_block(&st0, end - 1 - begin_data),
                        id0,
                    )) && ((right_block.is_valid && right_block.fs_id == id0)
                        ==> right_block.id == frame_seq_id(slot_block(&st0, end - 1 - begin_data))),
            decreases end - begin,
        {
            let mid = begin + (end - begin) / 2;
            let mread = self.storage.read(mid, &mut read_buf);
            match mread {
                Err(e) => {
                    return Err(e);
                },
                Ok(_) => {},
            }
            proof {
                self.storage.lemma_wf();
                assert(read_buf@ =~= st0.blocks()[mid as int]);
                assert(st0.blocks()[mid as int] == slot_block(&st0, mid - begin_data));
            }
            let mid_block = BlockInfo::from_buffer(&read_buf);
            let tail = self.can_have_tail(&mid_block, &right_block);
            proof {
                assert forall|bb: nat, kk: nat| #[trigger] region_image(&st0, id0, bb, kk) implies
                    (tail <==> (mid <= begin0 + kk % n)) && (tail ==> mid_block.id == bb
                    + slot_seq_id(kk, n, (mid - begin_data) as nat) && mid - begin_data < kk) by {
                    let c = kk % n;
                    let pm = mid - begin_data;
                    let pr = end - 1 - begin_data;
                    lemma_slot_belongs(&st0, id0, bb, kk, pm);
                    lemma_slot_belongs(&st0, id0, bb, kk, pr);
                    if kk < n {
                        lemma_small_mod(kk, n);
                        assert(pr >= kk);
                        assert(tail <==> pm < kk);
                    } else {
                        assert(pm < kk && pr < kk);
                        lemma_slot_seq_value(kk, n, pm as nat);
                        lemma_slot_seq_value(kk, n, pr as nat);
                        assert(pr >= c);
                        if pm < c {
                            assert(tail);
                        } else {
                            assert(!tail);
                        }
                    }
                }
            }
            if tail {
                begin = mid;
                last_id = mid_block.id;
            } else {
                end = mid + 1;
                right_block = mid_block;
            }
        }
        // the search has pinned the newest slot at `begin`; when the ring
        // is not yet full the slot just right of it may still be newer
        if end - begin == 2 {
            let tread = self.storage.read(begin + 1, &mut read_buf);
            match tread {
                Err(e) => {
                    return Err(e);
                },
                Ok(_) => {},
            }
            proof {
                self.storage.lemma_wf();
                assert(read_buf@ =~= st0.blocks()[begin + 1]);
                assert(st0.blocks()[begin + 1] == slot_block(&st0, begin + 1 - begin_data));
            }
            let block_inf = BlockInfo::from_buffer(&read_buf);
            proof {
                assert forall|bb: nat, kk: nat| #[trigger] region_image(&st0, id0, bb, kk) implies
                    !(block_inf.is_valid && block_inf.fs_id == id0 && block_inf.id > last_id) by {
                    let c = kk % n;
                    assert(begin == begin0 + c);
                    lemma_slot_belongs(&st0, id0, bb, kk, c as int);
                    if kk >= n {
                        lemma_slot_seq_value(kk, n, c);
                        lemma_slot_seq_value(kk, n, (c - 1) as nat);
                    } else {
                        lemma_small_mod(kk, n);
                    }
                }
            }
            if block_inf.is_valid && block_inf.fs_id == self.id && block_inf.id > last_id {
                begin = begin + 1;
                last_id = block_inf.id;
            }
        }
        if last_id == u64::MAX {
            // a frame claiming the last representable sequence id cannot
            // be genuine: the id space would be exhausted
            return Err(Error::NotValidBlockForRead);
        }
        let next_offset = self.trim_offset(begin + 1);
        self.setup_attributes(next_offset, last_id + 1, false, is_full);
        proof {
            self.storage.lemma_wf();
            assert forall|bb: nat, kk: nat|
                bb + kk <= u64::MAX && (kk >= 1 || bb == 0) && #[trigger] region_image(
                    &st0,
                    id0,
                    bb,
                    kk,
                ) implies self.recovers(st0, bb, kk) by {
                let c = kk % n;
                assert(begin == begin0 + c);
                lemma_slot_seq_value(kk, n, (c - 1) as nat);
                lemma_fundamental_div_mod(kk as int, n as int);
                assert(last_id == bb + kk - 1);
                assert(next_offset == begin_data + c);
                if bb == 0 {
                    lemma_image_same_region(&st0, &self.storage, id0, 0, kk);
                }
            }
        }
        Ok(())
    }
}

/// One successful append keeps the state in sync with the region: the
/// image grows by one record and the retained window shifts accordingly.
proof fn lemma_append_image<S: Storage>(pre: &Filesystem<S>, post: &Filesystem<S>, payload: Seq<u8>)
    requires
        pre.synced(),
        post.wf(),
        post.spec_id() == pre.spec_id(),
        post.bs() == pre.bs(),
        post.lo() == pre.lo(),
        post.hi() == pre.hi(),
        post.appended() == pre.appended() + 1,
        post.spec_offset() == pre.data_min() + (pre.spec_offset() + 1 - pre.data_min())
            % pre.ring() as int,
        post.spec_is_full() == (pre.spec_is_full() || pre.spec_offset() == pre.hi() - 1),
        post.spec_storage().blocks().len() == pre.spec_storage().blocks().len(),
        forall|t: int|
            0 <= t < pre.spec_storage().blocks().len() && t != pre.spec_offset()
                ==> post.spec_storage().blocks()[t] == pre.spec_storage().blocks()[t],
        ({
            let b = post.spec_storage().blocks()[pre.spec_offset() as int];
            &&& b.len() == pre.bs()
            &&& frame_belongs(b, pre.spec_id())
            &&& frame_seq_id(b) == pre.appended()
            &&& frame_payload(b) == payload
        }),
    ensures
        post.synced(),
        post.window() == window_push(pre.window(), payload, pre.ring()),
{
    let n = pre.ring();
    let ni = n as int;
    let k = pre.appended();
    let c = k % n;
    let dmin = pre.data_min() as int;
    let id = pre.spec_id();
    pre.storage.lemma_wf();
    post.storage.lemma_wf();
    lemma_cursor_slot(k, n);
    assert(pre.offset == dmin + c);
    // the cursor advances to the slot of the next sequence id
    assert((k + 1) % n == (c as int + 1) % ni) by {
        lemma_small_mod(1, n);
        vstd::arithmetic::div_mod::lemma_add_mod_noop(k as int, 1, ni);
    }
    assert(post.offset == dmin + (k + 1) % n);
    // the fullness flag keeps meaning "the ring has wrapped"
    if k < n {
        lemma_small_mod(k, n);
    }
    assert(post.is_full <==> (k + 1 >= n));
    // the region is the image of one more append
    assert(image_config_ok(&post.storage, id));
    assert forall|p: int| 0 <= p < n && p < k + 1 implies #[trigger] image_slot_ok(
        &post.storage,
        id,
        0,
        (k + 1) as nat,
        p,
    ) by {
        if p == c {
            assert(slot_block(&post.storage, p) == post.storage.blocks()[pre.offset as int]);
        } else {
            assert(p < k) by {
                if p >= k {
                    lemma_small_mod(k, n);
                }
            }
            assert(image_slot_ok(&pre.storage, id, 0, k, p));
            lemma_slot_seq_id_step(k, n, p as nat);
            assert(slot_block(&post.storage, p) == slot_block(&pre.storage, p));
        }
    }
    assert forall|p: int| k + 1 <= p < n implies !frame_belongs(
        #[trigger] slot_block(&post.storage, p),
        id,
    ) by {
        lemma_small_mod(k, n);
        assert(slot_block(&post.storage, p) == slot_block(&pre.storage, p));
        assert(!frame_belongs(slot_block(&pre.storage, p), id));
    }
    assert(post.synced());
    // the retained window shifts: every kept record stays, the new one
    // enters at the back
    let w0 = pre.window();
    let w1 = post.window();
    let wp = window_push(w0, payload, n);
    let len0 = pre.log_len() as int;
    let len1 = post.log_len() as int;
    assert(w1.len() == wp.len());
    assert forall|i: int| 0 <= i < len1 implies w1[i] == wp[i] by {
        let j = k + 1 - len1 + i;
        lemma_slot_of_seq((k + 1) as nat, n, j);
        let p = j % ni;
        assert(w1[i] == frame_payload(post.storage.blocks()[dmin + p]));
        if j == k {
            assert(p == c);
            assert(w1[i] == payload);
            assert(i == len1 - 1);
            assert(wp[i] == payload);
        } else {
            assert(j < k);
            assert(p != c) by {
                if p == c {
                    assert(slot_seq_id((k + 1) as nat, n, c) == k);
                }
            }
            assert(post.storage.blocks()[dmin + p] == pre.storage.blocks()[dmin + p]);
            let i0 = j - (k - len0);
            assert(0 <= i0 < len0);
            assert(w0[i0] == frame_payload(pre.storage.blocks()[dmin + (k - len0 + i0) % ni]));
            assert(k - len0 + i0 == j);
            assert(w1[i] == w0[i0]);
            if k < n {
                assert(len0 == k && len1 == k + 1 && i0 == i);
                assert(wp[i] == w0[i]);
            } else {
                assert(len0 == n && len1 == n && i0 == i + 1);
                assert(wp[i] == w0.subrange(1, len0)[i]);
            }
        }
    }
    assert(w1 =~= wp);
}

/// Where a logical read offset lands, and what the slot there holds.
proof fn lemma_read_slot<S: Storage>(fs: &Filesystem<S>, i: int)
    requires
        fs.synced(),
        0 <= i < fs.ring(),
    ensures
        fs.data_min() <= fs.read_phys(i) < fs.hi(),
        i < fs.log_len() ==> ({
            let b = fs.spec_storage().blocks()[fs.read_phys(i)];
            &&& b.len() == fs.bs()
            &&& frame_belongs(b, fs.spec_id())
            &&& frame_payload(b) == fs.window()[i]
        }),
        fs.log_len() <= i ==> !frame_belongs(
            fs.spec_storage().blocks()[fs.read_phys(i)],
            fs.spec_id(),
        ),
{
    let n = fs.ring();
    let ni = n as int;
    let k = fs.appended();
    let c = k % n;
    let dmin = fs.data_min() as int;
    let id = fs.spec_id();
    fs.storage.lemma_wf();
    lemma_mod_division_less_than_divisor(k as int, ni);
    if fs.is_full {
        // the ring has wrapped: the oldest record sits at the cursor slot
        assert(k >= n);
        let j = k - n + i;
        lemma_slot_of_seq(k, n, j);
        let p = j % ni;
        assert((k + i) % ni == p) by {
            vstd::arithmetic::div_mod::lemma_mod_multiples_vanish(-1, k + i, ni);
        }
        assert((c + i) % ni == (k + i) % ni) by {
            lemma_small_mod(i as nat, n);
            vstd::arithmetic::div_mod::lemma_add_mod_noop(k as int, i, ni);
        }
        let base = fs.offset + i;
        assert(base - dmin == c + i);
        if base < fs.hi() {
            lemma_small_mod((c + i) as nat, n);
            assert(fs.read_phys(i) == dmin + p);
        } else {
            assert(fs.read_phys(i) == dmin + (c + i) % ni);
            assert(fs.read_phys(i) == dmin + p);
        }
        assert(image_slot_ok(&fs.storage, id, 0, k, p));
        assert(fs.window()[i] == frame_payload(fs.storage.blocks()[dmin + (k - n + i) % ni]));
    } else {
        // records sit at the bottom of the ring, in append order
        assert(k < n);
        lemma_small_mod(i as nat, n);
        assert(fs.read_phys(i) == dmin + i);
        if i < k {
            lemma_slot_of_seq(k, n, i);
            assert(i % ni == i);
            assert(image_slot_ok(&fs.storage, id, 0, k, i));
            assert(fs.window()[i] == frame_payload(fs.storage.blocks()[dmin + (k - k + i) % ni]));
            assert((k - k + i) % ni == i);
        } else {
            assert(!frame_belongs(slot_block(&fs.storage, i), id));
        }
    }
}

/// The first block's payload: a version stamp.
#[derive(Debug)]
pub struct FsConfigBlock {
    pub version: u32,
}

impl FsConfigBlock {
    pub fn new() -> (r: FsConfigBlock)
        ensures
            r.version == FS_VERSION,
    {
        FsConfigBlock { version: FS_VERSION }
    }

    /// The serialized config payload: the version, big-endian.
    pub fn to_be_bytes(config: &FsConfigBlock) -> (r: Vec<u8>)
        ensures
            r@.len() == CONFIG_BLOCK_LEN,
            crate::block::be_nat(r@) == config.version,
    {
        let mut buf = vec![0u8; CONFIG_BLOCK_LEN];
        config.write_version(&mut buf);
        proof {
            assert(buf@.subrange(VERSION_BEGIN as int, VERSION_END as int) =~= buf@);
        }
        buf
    }

    fn write_version(&self, buf: &mut Vec<u8>)
        requires
            old(buf)@.len() >= VERSION_END,
        ensures
            final(buf)@.len() == old(buf)@.len(),
            crate::block::be_nat(final(buf)@.subrange(VERSION_BEGIN as int, VERSION_END as int))
                == self.version,
            forall|j: int|
                VERSION_END <= j < old(buf)@.len() ==> final(buf)@[j] == old(buf)@[j],
    {
        proof {
            crate::block::lemma_pow256();
        }
        crate::block::write_be(buf, VERSION_BEGIN, VERSION_LEN, self.version as u64);
    }

    /// Decode a serialized config payload.
    pub fn from_be_bytes(block: &Vec<u8>) -> (r: FsConfigBlock)
        requires
            block@.len() >= VERSION_END,
        ensures
            r.version == crate::block::be_nat(
                block@.subrange(VERSION_BEGIN as int, VERSION_END as int),
            ),
    {
        let mut config = FsConfigBlock { version: 0 };
        config.read_version(block);
        config
    }

    fn read_version(&mut self, block: &Vec<u8>)
        requires
            block@.len() >= VERSION_END,
        ensures
            final(self).version == crate::block::be_nat(
                block@.subrange(VERSION_BEGIN as int, VERSION_END as int),
            ),
    {
        proof {
            crate::block::lemma_pow256();
            crate::block::lemma_be_nat_bound(
                block@.subrange(VERSION_BEGIN as int, VERSION_END as int),
            );
        }
        self.version = crate::block::read_be(block, VERSION_BEGIN, VERSION_LEN) as u32;
    }
}

impl Default for FsConfigBlock {
    fn default() -> (r: Self)
        ensures
            r.version == 0,
    {
        FsConfigBlock { version: 0 }
    }
}

/// The records a ring of `n` slots keeps out of a full append history:
/// all of it while it fits, the last `n` records once it does not.
pub open spec fn retained(h: Seq<Seq<u8>>, n: nat) -> Seq<Seq<u8>> {
    if h.len() <= n {
        h
    } else {
        h.subrange(h.len() - n, h.len() as int)
    }
}

/// After any sequence of successful appends the retained window holds the
/// last `min(k, n)` payloads in the order they were written: appending
/// one more payload to a window that tracks a history makes it track the
/// history grown by that payload, which is exactly how `append` moves the
/// window of a log in sync with its region.
pub proof fn lemma_window_tracks_history(w: Seq<Seq<u8>>, p: Seq<u8>, n: nat, h: Seq<Seq<u8>>)
    ensures
        n >= 1 && w == retained(h, n) ==> window_push(w, p, n) == retained(h.push(p), n),
{
    if n >= 1 && w == retained(h, n) {
        if h.len() < n {
            assert(window_push(w, p, n) =~= retained(h.push(p), n));
        } else {
            assert(w.len() == n);
            assert(window_push(w, p, n) =~= retained(h.push(p), n));
        }
    }
}

/// Mount idempotence: two logs of the same instance mounted in sync with
/// the same region contents carry the same cursor, append count, flags and
/// retained records — so repeated mounts of an unchanged region agree.
pub proof fn lemma_mount_state_unique<S: Storage>(a: &Filesystem<S>, b: &Filesystem<S>)
    ensures
        (a.synced() && b.synced() && a.spec_id() == b.spec_id() && a.spec_storage().blocks()
            == b.spec_storage().blocks() && a.bs() == b.bs() && a.lo() == b.lo() && a.hi()
            == b.hi()) ==> (a.spec_offset() == b.spec_offset() && a.appended() == b.appended()
            && a.spec_is_empty() == b.spec_is_empty() && a.spec_is_full() == b.spec_is_full()
            && a.window() == b.window()),
{
    if a.synced() && b.synced() && a.spec_id() == b.spec_id() && a.spec_storage().blocks()
        == b.spec_storage().blocks() && a.bs() == b.bs() && a.lo() == b.lo() && a.hi() == b.hi() {
        lemma_image_same_region(
            &a.spec_storage(),
            &b.spec_storage(),
            a.spec_id(),
            0,
            a.appended(),
        );
        lemma_image_unique(&b.spec_storage(), b.spec_id(), 0, a.appended(), b.appended());
        assert(a.window() =~= b.window());
    }
}

/// A region whose config block belongs to an instance while no ring slot
/// does is the image of zero appends: formatting a region and mounting it
/// yields the empty log.
pub proof fn lemma_formatted_region_is_empty_image<S: Storage>(st: &S, id: FsId)
    ensures
        (image_config_ok(st, id) && (forall|p: int|
            0 <= p < ring_of(st) ==> !frame_belongs(#[trigger] slot_block(st, p), id)))
            ==> region_image(st, id, 0, 0),
{
}

/// Restart equivalence: a log in sync with its region leaves exactly the
/// image of its own append count behind, and of no other count — so a
/// drop and remount recovers the same state the completed appends built.
pub proof fn lemma_restart_equivalence<S: Storage>(fs: &Filesystem<S>)
    ensures
        fs.synced() ==> region_image(&fs.spec_storage(), fs.spec_id(), 0, fs.appended()),
        fs.synced() ==> forall|kk: nat|
            #[trigger] region_image(&fs.spec_storage(), fs.spec_id(), 0, kk) ==> kk
                == fs.appended(),
{
    if fs.synced() {
        assert forall|kk: nat|
            #[trigger] region_image(&fs.spec_storage(), fs.spec_id(), 0, kk) implies kk
            == fs.appended() by {
            lemma_image_unique(&fs.spec_storage(), fs.spec_id(), 0, kk, fs.appended());
        }
    }
}

/// The torn-write half of restart equivalence: when an append fails on a
/// log that has not wrapped yet, whatever bytes the port left in the
/// cursor's slot — as long as they do not decode as a frame of this
/// instance — the log is still in sync with its region and retains the
/// same records, so a remount recovers the state of the completed appends.
pub proof fn lemma_torn_write_keeps_sync<S: Storage>(pre: &Filesystem<S>, post: &Filesystem<S>)
    ensures
        (pre.synced() && !pre.spec_is_full() && post.wf() && post.spec_id() == pre.spec_id()
            && post.bs() == pre.bs() && post.lo() == pre.lo() && post.hi() == pre.hi()
            && post.spec_offset() == pre.spec_offset() && post.appended() == pre.appended()
            && post.spec_is_empty() == pre.spec_is_empty() && post.spec_is_full()
            == pre.spec_is_full() && post.spec_storage().blocks().len()
            == pre.spec_storage().blocks().len() && (forall|t: int|
            0 <= t < pre.spec_storage().blocks().len() && t != pre.spec_offset()
                ==> post.spec_storage().blocks()[t] == pre.spec_storage().blocks()[t])
            && !frame_belongs(
            post.spec_storage().blocks()[pre.spec_offset() as int],
            pre.spec_id(),
        )) ==> (post.synced() && post.window() == pre.window()),
{
    if pre.synced() && !pre.spec_is_full() && post.wf() && post.spec_id() == pre.spec_id()
        && post.bs() == pre.bs() && post.lo() == pre.lo() && post.hi() == pre.hi()
        && post.spec_offset() == pre.spec_offset() && post.appended() == pre.appended()
        && post.spec_is_empty() == pre.spec_is_empty() && post.spec_is_full()
        == pre.spec_is_full() && post.spec_storage().blocks().len()
        == pre.spec_storage().blocks().len() && (forall|t: int|
        0 <= t < pre.spec_storage().blocks().len() && t != pre.spec_offset()
            ==> post.spec_storage().blocks()[t] == pre.spec_storage().blocks()[t])
        && !frame_belongs(
        post.spec_storage().blocks()[pre.spec_offset() as int],
        pre.spec_id(),
    ) {
        let n = pre.ring();
        let k = pre.appended();
        let id = pre.spec_id();
        let dmin = pre.data_min() as int;
        pre.storage.lemma_wf();
        post.storage.lemma_wf();
        // the ring has not wrapped: the cursor's slot is the first one the
        // history has not reached
        assert(k < n);
        lemma_small_mod(k, n);
        assert(pre.spec_offset() == dmin + k);
        assert forall|p: int| 0 <= p < n && p < k implies #[trigger] image_slot_ok(
            &post.storage,
            id,
            0,
            k,
            p,
        ) by {
            assert(image_slot_ok(&pre.storage, id, 0, k, p));
            assert(slot_block(&post.storage, p) == slot_block(&pre.storage, p));
        }
        assert forall|p: int| k <= p < n implies !frame_belongs(
            #[trigger] slot_block(&post.storage, p),
            id,
        ) by {
            if p != k {
                assert(slot_block(&post.storage, p) == slot_block(&pre.storage, p));
                assert(!frame_belongs(slot_block(&pre.storage, p), id));
            }
        }
        assert(post.synced());
        assert forall|i: int| 0 <= i < k implies post.window()[i] == pre.window()[i] by {
            lemma_small_mod(i as nat, n);
            assert(post.storage.blocks()[dmin + i] == pre.storage.blocks()[dmin + i]);
        }
        assert(post.window() =~= pre.window());
    }
}

/// Capacity bound: a log in sync retains its whole history until the ring
/// is full, and exactly the last `ring()` records from then on; the
/// fullness flag says which of the two holds.
pub proof fn lemma_capacity_bound<S: Storage>(fs: &Filesystem<S>)
    ensures
        fs.synced() ==> fs.window().len() == fs.log_len(),
        fs.synced() && fs.appended() >= fs.ring() ==> fs.spec_is_full() && fs.window().len()
            == fs.ring(),
        fs.synced() && fs.appended() < fs.ring() ==> !fs.spec_is_full() && fs.window().len()
            == fs.appended(),
{
}

/// Foreign data isolation: a frame carrying another instance's id never
/// belongs, whatever its checksum — images and reads treat it as absent.
pub proof fn lemma_foreign_frame_not_belongs(b: Seq<u8>, id: FsId)
    ensures
        frame_fs_id(b) != id ==> !frame_belongs(b, id),
{
}

} // verus!
