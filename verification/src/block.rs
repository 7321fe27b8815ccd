use vstd::prelude::*;
use vstd::arithmetic::div_mod::{lemma_breakdown, lemma_fundamental_div_mod, lemma_small_mod};
use vstd::arithmetic::power::{lemma_pow_increases, pow};

verus! {

pub type CRC = u16;
pub type FsId = u32;
pub type BlockId = u64;

pub const CRC_BEGIN: usize = 0;
pub const CRC_LEN: usize = 2;
pub const CRC_END: usize = 2;

pub const FS_ID_BEGIN: usize = 2;
pub const FS_ID_LEN: usize = 4;
pub const FS_ID_END: usize = 6;

pub const BLOCK_ID_BEGIN: usize = 6;
pub const BLOCK_ID_LEN: usize = 8;
pub const BLOCK_ID_END: usize = 14;

pub const DATA_BEGIN: usize = 14;

/// The checksum that the `crc` crate computes with the CRC-16/CDMA2000
/// algorithm over a byte sequence.
pub uninterp spec fn crc16_of(data: Seq<u8>) -> u16;

/// Relies on crc::Crc::<u16>::checksum with crc::CRC_16_CDMA2000:
/// the result is a pure function of the bytes alone.
#[verifier::external_body]
fn crc16_cdma2000(data: &[u8]) -> (r: u16)
    ensures
        r == crc16_of(data@),
{
    crc::Crc::<u16>::new(&crc::CRC_16_CDMA2000).checksum(data)
}

/// The value of a big-endian byte string.
pub open spec fn be_nat(s: Seq<u8>) -> nat
    decreases s.len(),
{
    if s.len() == 0 {
        0
    } else {
        (be_nat(s.drop_last()) * 256 + s.last()) as nat
    }
}

pub proof fn lemma_be_nat_bound(s: Seq<u8>)
    ensures
        be_nat(s) < pow(256, s.len()),
    decreases s.len(),
{
    reveal(pow);
    if s.len() == 0 {
    } else {
        lemma_be_nat_bound(s.drop_last());
        assert(pow(256, s.len()) == 256 * pow(256, (s.len() - 1) as nat));
    }
}

pub proof fn lemma_be_nat_prepend(s: Seq<u8>)
    requires
        s.len() > 0,
    ensures
        be_nat(s) == s[0] * pow(256, (s.len() - 1) as nat) + be_nat(s.skip(1)),
    decreases s.len(),
{
    reveal(pow);
    if s.len() == 1 {
        assert(s.drop_last().len() == 0);
        assert(s.skip(1).len() == 0);
        assert(be_nat(s.drop_last()) == 0);
        assert(be_nat(s.skip(1)) == 0);
        assert(s.last() == s[0]);
        assert(pow(256, 0) == 1);
        assert(be_nat(s) == be_nat(s.drop_last()) * 256 + s.last());
    } else {
        let d = s.drop_last();
        let p1 = pow(256, (s.len() - 1) as nat);
        let p2 = pow(256, (s.len() - 2) as nat);
        lemma_be_nat_prepend(d);
        assert(s.skip(1).drop_last() =~= d.skip(1));
        assert(d[0] == s[0]);
        assert(s.skip(1).last() == s.last());
        assert(be_nat(s) == be_nat(d) * 256 + s.last());
        assert(be_nat(s.skip(1)) == be_nat(d.skip(1)) * 256 + s.last());
        assert(be_nat(d) == s[0] * p2 + be_nat(d.skip(1)));
        assert(p1 == 256 * p2);
        assert((s[0] * p2 + be_nat(d.skip(1))) * 256 == s[0] * (256 * p2) + be_nat(d.skip(1))
            * 256) by (nonlinear_arith);
        assert(be_nat(s) == s[0] * p1 + be_nat(s.skip(1)));
    }
}

/// Numeric values of the powers of 256 used by the fixed-width fields.
pub proof fn lemma_pow256()
    ensures
        pow(256, 0) == 1,
        pow(256, 1) == 0x100,
        pow(256, 2) == 0x10000,
        pow(256, 3) == 0x1000000,
        pow(256, 4) == 0x100000000,
        pow(256, 5) == 0x10000000000,
        pow(256, 6) == 0x1000000000000,
        pow(256, 7) == 0x100000000000000,
        pow(256, 8) == 0x10000000000000000,
{
    reveal_with_fuel(pow, 9);
}

/// Read `len` big-endian bytes at `pos` as an unsigned value.
pub(crate) fn read_be(buf: &Vec<u8>, pos: usize, len: usize) -> (r: u64)
    requires
        len <= 8,
        pos + len <= buf@.len(),
    ensures
        r == be_nat(buf@.subrange(pos as int, pos + len)),
{
    let mut acc: u64 = 0;
    let mut i: usize = 0;
    proof {
        lemma_pow256();
        assert(buf@.subrange(pos as int, pos as int) =~= Seq::<u8>::empty());
    }
    while i < len
        invariant
            i <= len,
            len <= 8,
            pos + len <= buf.len(),
            acc == be_nat(buf@.subrange(pos as int, pos + i)),
            acc < pow(256, i as nat),
        decreases len - i,
    {
        proof {
            lemma_pow256();
            lemma_pow_increases(256, i as nat, 7);
            assert(buf@.subrange(pos as int, pos + i + 1).drop_last() =~= buf@.subrange(
                pos as int,
                pos + i,
            ));
            assert(pow(256, (i + 1) as nat) == 256 * pow(256, i as nat));
        }
        acc = acc * 256 + (buf[pos + i] as u64);
        i = i + 1;
    }
    acc
}

/// Write `v` as `len` big-endian bytes at `pos`, leaving the rest of the
/// buffer unchanged.
pub(crate) fn write_be(buf: &mut Vec<u8>, pos: usize, len: usize, v: u64)
    requires
        len <= 8,
        pos + len <= old(buf)@.len(),
        v < pow(256, len as nat),
    ensures
        final(buf)@.len() == old(buf)@.len(),
        be_nat(final(buf)@.subrange(pos as int, pos + len)) == v,
        forall|j: int|
            0 <= j < old(buf)@.len() && !(pos <= j < pos + len) ==> final(buf)@[j] == old(buf)@[j],
{
    let mut x: u64 = v;
    let mut i: usize = 0;
    proof {
        lemma_pow256();
        assert(buf@.subrange(pos + len, pos + len) =~= Seq::<u8>::empty());
        lemma_small_mod(v as nat, pow(256, len as nat) as nat);
    }
    while i < len
        invariant
            i <= len,
            len <= 8,
            pos + len <= buf.len(),
            buf@.len() == old(buf)@.len(),
            x == v as int / pow(256, i as nat),
            be_nat(buf@.subrange(pos + len - i, pos + len)) == v as int % pow(256, i as nat),
            v < pow(256, len as nat),
            forall|j: int|
                0 <= j < old(buf)@.len() && !(pos + len - i <= j < pos + len) ==> buf@[j] == old(buf)@[j],
        decreases len - i,
    {
        let ghost prev = buf@;
        let ghost p = pow(256, i as nat);
        let d: u8 = (x % 256) as u8;
        buf.set(pos + len - 1 - i, d);
        x = x / 256;
        i = i + 1;
        proof {
            lemma_pow256();
            assert(pow(256, i as nat) == 256 * p);
            // the freshly written digit heads the new subrange
            let sub = buf@.subrange(pos + len - i, pos + len);
            assert(sub[0] == d);
            assert(sub.skip(1) =~= prev.subrange(pos + len - (i - 1), pos + len));
            lemma_be_nat_prepend(sub);
            lemma_pow_positive_256(i as nat);
            // v % (256 * p) == p * ((v / p) % 256) + v % p
            lemma_breakdown(v as int, p, 256);
            assert(be_nat(sub) == d * p + v as int % p);
            assert(d == (v as int / p) % 256);
            assert(be_nat(sub) == v as int % (p * 256));
            // x' == v / (p * 256)
            lemma_div_div_256(v as nat, p as nat);
        }
    }
    proof {
        lemma_small_mod(v as nat, pow(256, len as nat) as nat);
    }
}

proof fn lemma_pow_positive_256(e: nat)
    ensures
        pow(256, e) > 0,
{
    vstd::arithmetic::power::lemma_pow_positive(256, e);
}

proof fn lemma_div_div_256(v: nat, p: nat)
    requires
        p > 0,
    ensures
        (v as int / p as int) / 256 == v as int / (p as int * 256),
{
    vstd::arithmetic::div_mod::lemma_div_denominator(v as int, p as int, 256);
}

/// The stored checksum field of a frame.
pub open spec fn frame_crc(b: Seq<u8>) -> nat {
    be_nat(b.subrange(CRC_BEGIN as int, CRC_END as int))
}

/// The instance-id field of a frame.
pub open spec fn frame_fs_id(b: Seq<u8>) -> nat {
    be_nat(b.subrange(FS_ID_BEGIN as int, FS_ID_END as int))
}

/// The sequence-id field of a frame.
pub open spec fn frame_seq_id(b: Seq<u8>) -> nat {
    be_nat(b.subrange(BLOCK_ID_BEGIN as int, BLOCK_ID_END as int))
}

/// The user bytes of a frame.
pub open spec fn frame_payload(b: Seq<u8>) -> Seq<u8> {
    b.subrange(DATA_BEGIN as int, b.len() as int)
}

/// The bytes a frame's checksum is computed over.
pub open spec fn frame_tail(b: Seq<u8>) -> Seq<u8> {
    b.subrange(CRC_END as int, b.len() as int)
}

/// A frame is valid iff its stored checksum matches the checksum of its tail.
pub open spec fn frame_is_valid(b: Seq<u8>) -> bool {
    b.len() >= DATA_BEGIN && frame_crc(b) == crc16_of(frame_tail(b))
}

/// A frame belongs to a log instance iff it is valid and carries that
/// instance's id.
pub open spec fn frame_belongs(b: Seq<u8>, id: FsId) -> bool {
    frame_is_valid(b) && frame_fs_id(b) == id
}

/// One decoded on-disk frame: the raw bytes plus the checksum recomputed
/// over their tail.
#[derive(Debug)]
pub struct Block<'a> {
    pub data: &'a Vec<u8>,
    pub crc: CRC,
}

impl<'a> Block<'a> {
    /// The recomputed checksum is the one a valid frame stores.
    pub open spec fn wf(&self) -> bool {
        self.data@.len() >= DATA_BEGIN && self.crc == crc16_of(frame_tail(self.data@))
    }

    pub fn from_buffer(buf: &'a Vec<u8>) -> (b: Block<'a>)
        requires
            buf@.len() >= DATA_BEGIN,
        ensures
            b.data@ == buf@,
            b.wf(),
    {
        let crc = Self::calculated_crc(buf);
        Self { data: buf, crc }
    }

    pub fn from_other(other: Block<'a>) -> (b: Block<'a>)
        ensures
            b.data == other.data,
            b.crc == other.crc,
    {
        Self { data: other.data, crc: other.crc }
    }

    pub fn is_valid(&self) -> (r: bool)
        requires
            self.data@.len() >= DATA_BEGIN,
        ensures
            r == (frame_crc(self.data@) == self.crc),
            self.wf() ==> r == frame_is_valid(self.data@),
    {
        self.stored_crc() == self.crc
    }

    pub fn stored_crc(&self) -> (r: CRC)
        requires
            self.data@.len() >= CRC_END,
        ensures
            r == frame_crc(self.data@),
    {
        proof {
            lemma_pow256();
            lemma_be_nat_bound(self.data@.subrange(CRC_BEGIN as int, CRC_END as int));
        }
        read_be(self.data, CRC_BEGIN, CRC_LEN) as u16
    }

    pub fn set_crc(buf: &mut Vec<u8>)
        requires
            old(buf)@.len() >= DATA_BEGIN,
        ensures
            final(buf)@.len() == old(buf)@.len(),
            frame_tail(final(buf)@) == frame_tail(old(buf)@),
            frame_is_valid(final(buf)@),
            frame_fs_id(final(buf)@) == frame_fs_id(old(buf)@),
            frame_seq_id(final(buf)@) == frame_seq_id(old(buf)@),
            frame_payload(final(buf)@) == frame_payload(old(buf)@),
    {
        let ghost before = buf@;
        let crc = Self::calculated_crc(buf);
        proof {
            lemma_pow256();
        }
        write_be(buf, CRC_BEGIN, CRC_LEN, crc as u64);
        proof {
            assert(frame_tail(buf@) =~= frame_tail(before));
            assert(buf@.subrange(CRC_BEGIN as int, CRC_END as int) =~= buf@.subrange(
                CRC_BEGIN as int,
                CRC_END as int,
            ));
            assert(frame_fs_id(buf@) == frame_fs_id(before)) by {
                assert(buf@.subrange(FS_ID_BEGIN as int, FS_ID_END as int) =~= before.subrange(
                    FS_ID_BEGIN as int,
                    FS_ID_END as int,
                ));
            }
            assert(frame_seq_id(buf@) == frame_seq_id(before)) by {
                assert(buf@.subrange(BLOCK_ID_BEGIN as int, BLOCK_ID_END as int)
                    =~= before.subrange(BLOCK_ID_BEGIN as int, BLOCK_ID_END as int));
            }
            assert(frame_payload(buf@) =~= frame_payload(before));
        }
    }

    pub fn id(&self) -> (r: BlockId)
        requires
            self.data@.len() >= BLOCK_ID_END,
        ensures
            r == frame_seq_id(self.data@),
    {
        read_be(self.data, BLOCK_ID_BEGIN, BLOCK_ID_LEN)
    }

    pub fn set_id(buf: &mut Vec<u8>, id: BlockId)
        requires
            old(buf)@.len() >= BLOCK_ID_END,
        ensures
            final(buf)@.len() == old(buf)@.len(),
            frame_seq_id(final(buf)@) == id,
            forall|j: int|
                0 <= j < old(buf)@.len() && !(BLOCK_ID_BEGIN <= j < BLOCK_ID_END) ==> final(buf)@[j] == old(buf)@[j],
    {
        proof {
            lemma_pow256();
        }
        write_be(buf, BLOCK_ID_BEGIN, BLOCK_ID_LEN, id);
    }

    pub fn fs_id(&self) -> (r: FsId)
        requires
            self.data@.len() >= FS_ID_END,
        ensures
            r == frame_fs_id(self.data@),
    {
        proof {
            lemma_pow256();
            lemma_be_nat_bound(self.data@.subrange(FS_ID_BEGIN as int, FS_ID_END as int));
        }
        read_be(self.data, FS_ID_BEGIN, FS_ID_LEN) as u32
    }

    pub fn set_fs_id(buf: &mut Vec<u8>, id: FsId)
        requires
            old(buf)@.len() >= FS_ID_END,
        ensures
            final(buf)@.len() == old(buf)@.len(),
            frame_fs_id(final(buf)@) == id,
            forall|j: int|
                0 <= j < old(buf)@.len() && !(FS_ID_BEGIN <= j < FS_ID_END) ==> final(buf)@[j] == old(buf)@[j],
    {
        proof {
            lemma_pow256();
        }
        write_be(buf, FS_ID_BEGIN, FS_ID_LEN, id as u64);
    }

    /// The checksum of everything past the stored checksum field.
    pub fn calculated_crc(data: &Vec<u8>) -> (r: CRC)
        requires
            data@.len() >= CRC_END,
        ensures
            r == crc16_of(frame_tail(data@)),
    {
        let tail = vstd::slice::slice_subrange(data.as_slice(), CRC_END, data.len());
        crc16_cdma2000(tail)
    }

    /// Bytes of bookkeeping before the payload in every frame.
    pub fn attributes_size() -> (r: usize)
        ensures
            r == DATA_BEGIN,
    {
        DATA_BEGIN
    }
}

/// Stamps consecutive sequence ids onto freshly encoded frames.
#[derive(Debug)]
pub struct BlockFactory {
    pub id: BlockId,
}

impl BlockFactory {
    pub fn new() -> (f: BlockFactory)
        ensures
            f.id == 0,
    {
        BlockFactory { id: 0 }
    }

    pub fn set_id(&mut self, id: BlockId)
        ensures
            final(self).id == id,
    {
        self.id = id;
    }

    /// Encode one frame in place: payload, then sequence id, instance id and
    /// checksum, consuming the next sequence id.
    pub fn create_with_writer(&mut self, buf: &mut Vec<u8>, fs_id: FsId, payload: &Vec<u8>)
        requires
            old(buf)@.len() >= DATA_BEGIN,
            payload@.len() == old(buf)@.len() - DATA_BEGIN,
            old(self).id < u64::MAX,
        ensures
            final(self).id == old(self).id + 1,
            final(buf)@.len() == old(buf)@.len(),
            frame_is_valid(final(buf)@),
            frame_fs_id(final(buf)@) == fs_id,
            frame_seq_id(final(buf)@) == old(self).id,
            frame_payload(final(buf)@) == payload@,
    {
        let mut i: usize = 0;
        while i < payload.len()
            invariant
                i <= payload.len(),
                buf@.len() == old(buf)@.len(),
                payload.len() + DATA_BEGIN == buf.len(),
                forall|j: int| 0 <= j < i ==> buf@[DATA_BEGIN + j] == payload@[j],
            decreases payload@.len() - i,
        {
            buf.set(DATA_BEGIN + i, payload[i]);
            i = i + 1;
        }
        let ghost filled = buf@;
        assert(frame_payload(filled) =~= payload@);
        let id = self.get_next_id();
        Block::set_id(buf, id);
        proof {
            assert(frame_payload(buf@) =~= frame_payload(filled));
        }
        let ghost with_id = buf@;
        Block::set_fs_id(buf, fs_id);
        proof {
            assert(frame_payload(buf@) =~= frame_payload(with_id));
            assert(buf@.subrange(BLOCK_ID_BEGIN as int, BLOCK_ID_END as int) =~= with_id.subrange(
                BLOCK_ID_BEGIN as int,
                BLOCK_ID_END as int,
            ));
        }
        Block::set_crc(buf);
    }

    pub fn get_next_id(&mut self) -> (r: BlockId)
        requires
            old(self).id < u64::MAX,
        ensures
            r == old(self).id,
            final(self).id == old(self).id + 1,
    {
        let id = self.id;
        self.id = self.id + 1;
        id
    }
}

impl Default for BlockFactory {
    fn default() -> (f: Self)
        ensures
            f.id == 0,
    {
        Self::new()
    }
}

/// The decoded header fields of one frame; `id` is reported as 0 when the
/// frame is not valid.
#[derive(Debug)]
pub struct BlockInfo {
    pub id: u64,
    pub fs_id: u32,
    pub is_valid: bool,
}

impl BlockInfo {
    pub fn from_block(block: &Block<'_>) -> (r: BlockInfo)
        requires
            block.data@.len() >= DATA_BEGIN,
        ensures
            r.fs_id == frame_fs_id(block.data@),
            block.wf() ==> r.is_valid == frame_is_valid(block.data@),
            r.is_valid ==> r.id == frame_seq_id(block.data@),
            !r.is_valid ==> r.id == 0,
    {
        let is_valid = block.is_valid();
        let fs_id = block.fs_id();
        let id = if is_valid {
            block.id()
        } else {
            0
        };
        Self { id, fs_id, is_valid }
    }

    pub fn from_buffer(data: &Vec<u8>) -> (r: BlockInfo)
        requires
            data@.len() >= DATA_BEGIN,
        ensures
            r.is_valid == frame_is_valid(data@),
            r.fs_id == frame_fs_id(data@),
            r.is_valid ==> r.id == frame_seq_id(data@),
            !r.is_valid ==> r.id == 0,
    {
        Self::from_block(&Block::from_buffer(data))
    }
}

} // verus!
