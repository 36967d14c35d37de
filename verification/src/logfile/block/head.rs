use vstd::prelude::*;
use vstd::bytes::*;
use vstd::string::StringExecFns;
use crate::bbuff::streambuff::{ByteBuff, ByteReader, ByteWriter, spec_overwrite, lemma_overwrite_at_end};
use super::ids::{BlockId, DataId, FileOffset};
use super::blockopts::{
    BlockOptions, OptionsView, spec_options_ok, spec_encode_options, spec_decode_options,
    lemma_options_round_trip,
};

verus! {

/// The little-endian `u16` at `pos` of `b`.
pub open spec fn spec_le16(b: Seq<u8>, pos: int) -> u16 {
    spec_u16_from_le_bytes(b.subrange(pos, pos + 2))
}

/// The little-endian `u32` at `pos` of `b`.
pub open spec fn spec_le32(b: Seq<u8>, pos: int) -> u32 {
    spec_u32_from_le_bytes(b.subrange(pos, pos + 4))
}

/// The little-endian `u64` at `pos` of `b`.
pub open spec fn spec_le64(b: Seq<u8>, pos: int) -> u64 {
    spec_u64_from_le_bytes(b.subrange(pos, pos + 8))
}

/// What a block head says: the block's number, the kind of its data, its
/// back references (block number and offset) and its options.
pub ghost struct HeadView {
    pub block_id: u32,
    pub data_type: u32,
    pub refs: Seq<(u32, u64)>,
    pub options: OptionsView,
}

/// The smallest size of a head.
pub const HEAD_MIN_SIZE: u32 = 22;

/// How many bytes a head is looked for in.
pub const PREVIEW_SIZE: usize = 262144;

/// The stored form of back references: each as a block number in four
/// bytes and an offset in eight.
pub open spec fn spec_encode_refs(refs: Seq<(u32, u64)>) -> Seq<u8>
    decreases refs.len(),
{
    if refs.len() == 0 {
        Seq::empty()
    } else {
        spec_u32_to_le_bytes(refs[0].0) + spec_u64_to_le_bytes(refs[0].1) + spec_encode_refs(
            refs.drop_first(),
        )
    }
}

/// The head's stored form after its own size.
pub open spec fn spec_head_body(h: HeadView, data_size: u32, tail_size: u16) -> Seq<u8> {
    spec_u32_to_le_bytes(data_size) + spec_u16_to_le_bytes(tail_size) + spec_u32_to_le_bytes(
        h.block_id,
    ) + spec_u32_to_le_bytes(h.data_type) + spec_u32_to_le_bytes(h.refs.len() as u32)
        + spec_encode_refs(h.refs) + spec_encode_options(h.options)
}

/// The stored form of a head: its size in four bytes, then its body.
pub open spec fn spec_encode_head(h: HeadView, data_size: u32, tail_size: u16) -> Seq<u8> {
    spec_u32_to_le_bytes((4 + spec_head_body(h, data_size, tail_size).len()) as u32)
        + spec_head_body(h, data_size, tail_size)
}

/// A head can be stored: its size fits in four bytes.
pub open spec fn spec_head_storable(h: HeadView) -> bool {
    &&& spec_options_ok(h.options)
    &&& h.options.len() <= u64::MAX
    &&& h.refs.len() <= u32::MAX
    &&& 4 + spec_head_body(h, 0, 0).len() <= u32::MAX
}

/// `n` back references stored from `pos` of `b`.
pub open spec fn spec_decode_refs(b: Seq<u8>, pos: int, n: nat) -> Seq<(u32, u64)> {
    Seq::new(n, |i: int| (spec_le32(b, pos + 12 * i), spec_le64(b, pos + 12 * i + 4)))
}

/// The head stored at the start of `b`, with its head, data and tail sizes.
///
/// A head whose declared size is below the smallest head, or whose fields
/// run past the bytes given, does not decode. The options are read where
/// the declared size reaches past the back references.
pub open spec fn spec_decode_head(b: Seq<u8>) -> Option<(HeadView, u32, u32, u16)> {
    if b.len() < 4 || spec_le32(b, 0) < HEAD_MIN_SIZE || b.len() < 22 {
        None
    } else {
        let n = spec_le32(b, 18);
        let end = 22 + 12 * n;
        if end > b.len() {
            None
        } else {
            let opts = if spec_le32(b, 0) > end {
                spec_decode_options(b, end, Seq::empty())
            } else {
                Some((Seq::empty(), end))
            };
            match opts {
                None => None,
                Some((m, _)) => Some(
                    (
                        HeadView {
                            block_id: spec_le32(b, 10),
                            data_type: spec_le32(b, 14),
                            refs: spec_decode_refs(b, 22, n as nat),
                            options: m,
                        },
                        spec_le32(b, 0),
                        spec_le32(b, 4),
                        spec_le16(b, 8),
                    ),
                ),
            }
        }
    }
}

/// The back references of a block: earlier blocks and where they start.
#[derive(Debug)]
pub struct BackRefs {
    pub refs: Vec<(BlockId, FileOffset)>,
}

/// The numbers and offsets of back references.
pub open spec fn spec_refs_view(v: Seq<(BlockId, FileOffset)>) -> Seq<(u32, u64)> {
    v.map_values(|r: (BlockId, FileOffset)| (r.0.0, r.1.0))
}

impl View for BackRefs {
    type V = Seq<(u32, u64)>;

    open spec fn view(&self) -> Seq<(u32, u64)> {
        spec_refs_view(self.refs@)
    }
}

impl BackRefs {
    /// The same references.
    pub fn copy(&self) -> (r: Self)
        ensures
            r@ == self@,
    {
        let mut refs: Vec<(BlockId, FileOffset)> = Vec::new();
        let mut i: usize = 0;
        while i < self.refs.len()
            invariant
                i <= self.refs.len(),
                refs@ == self.refs@.take(i as int),
            decreases self.refs.len() - i,
        {
            refs.push(self.refs[i]);
            proof {
                assert(refs@ =~= self.refs@.take(i + 1));
            }
            i = i + 1;
        }
        proof {
            assert(self.refs@.take(i as int) =~= self.refs@);
        }
        BackRefs { refs }
    }
}

impl Clone for BackRefs {
    fn clone(&self) -> (r: Self)
        ensures
            r@ == self@,
    {
        self.copy()
    }
}

impl Default for BackRefs {
    fn default() -> (r: Self)
        ensures
            r@ == Seq::<(u32, u64)>::empty(),
    {
        let r = BackRefs { refs: Vec::new() };
        proof {
            assert(r@ =~= Seq::<(u32, u64)>::empty());
        }
        r
    }
}

/// The head of a block.
#[derive(Debug)]
pub struct BlockHead {
    /// The block's number.
    pub block_id: BlockId,
    /// The kind of its data.
    pub data_type_id: DataId,
    /// Earlier blocks it points back to.
    pub back_refs: BackRefs,
    /// Its options.
    pub block_options: BlockOptions,
}

impl View for BlockHead {
    type V = HeadView;

    open spec fn view(&self) -> HeadView {
        HeadView {
            block_id: self.block_id.0,
            data_type: self.data_type_id.0,
            refs: self.back_refs@,
            options: self.block_options@,
        }
    }
}

impl BlockHead {
    /// The same head.
    pub fn copy(&self) -> (r: Self)
        ensures
            r@ == self@,
    {
        BlockHead {
            block_id: self.block_id,
            data_type_id: self.data_type_id,
            back_refs: self.back_refs.copy(),
            block_options: self.block_options.copy(),
        }
    }
}

impl Clone for BlockHead {
    fn clone(&self) -> (r: Self)
        ensures
            r@ == self@,
    {
        self.copy()
    }
}

impl Default for BlockHead {
    fn default() -> (r: Self)
        ensures
            r@ == (HeadView {
                block_id: 0,
                data_type: 0,
                refs: Seq::empty(),
                options: Seq::empty(),
            }),
    {
        BlockHead {
            block_id: BlockId::new(0),
            data_type_id: DataId::new(0),
            back_refs: BackRefs::default(),
            block_options: BlockOptions::default(),
        }
    }
}

/// The size of a head in bytes.
#[derive(Debug, Clone, Copy)]
pub struct BlockHeadSize(pub u32);

impl BlockHeadSize {
    pub fn value(self) -> (r: u32)
        ensures
            r == self.0,
    {
        self.0
    }
}

/// The size of a block's data in bytes.
#[derive(Debug, Clone, Copy)]
pub struct BlockDataSize(pub u32);

impl BlockDataSize {
    pub fn value(self) -> (r: u32)
        ensures
            r == self.0,
    {
        self.0
    }
}

/// The size of a block's tail in bytes.
#[derive(Debug, Clone, Copy)]
pub struct BlockTailSize(pub u16);

impl BlockTailSize {
    pub fn value(self) -> (r: u16)
        ensures
            r == self.0,
    {
        self.0
    }
}

/// A head as read from a file: where the block starts, the head, and the
/// sizes of the block's parts.
#[derive(Debug)]
pub struct BlockHeadRead {
    pub position: FileOffset,
    pub head: BlockHead,
    pub head_size: BlockHeadSize,
    pub data_size: BlockDataSize,
    pub tail_size: BlockTailSize,
}

/// What a head read says: where the block starts, its head, and the sizes
/// of its parts.
pub ghost struct HeadReadView {
    pub position: u64,
    pub head: HeadView,
    pub head_size: u32,
    pub data_size: u32,
    pub tail_size: u16,
}

impl View for BlockHeadRead {
    type V = HeadReadView;

    open spec fn view(&self) -> HeadReadView {
        HeadReadView {
            position: self.position.0,
            head: self.head@,
            head_size: self.head_size.0,
            data_size: self.data_size.0,
            tail_size: self.tail_size.0,
        }
    }
}

impl BlockHeadRead {
    /// The size of the whole block.
    pub open spec fn spec_block_size(&self) -> int {
        self.head_size.0 + self.data_size.0 + self.tail_size.0
    }

    /// The size of the whole block.
    pub fn block_size(&self) -> (r: u64)
        ensures
            r == self.spec_block_size(),
    {
        (self.head_size.0 as u64) + (self.data_size.0 as u64) + (self.tail_size.0 as u64)
    }

    /// The same head read.
    pub fn copy(&self) -> (r: Self)
        ensures
            r@ == self@,
    {
        BlockHeadRead {
            position: self.position,
            head: self.head.copy(),
            head_size: self.head_size,
            data_size: self.data_size,
            tail_size: self.tail_size,
        }
    }
}

impl Clone for BlockHeadRead {
    fn clone(&self) -> (r: Self)
        ensures
            r@ == self@,
    {
        self.copy()
    }
}

/// The stored form of back references grows reference by reference.
pub proof fn lemma_encode_refs_push(refs: Seq<(u32, u64)>, x: (u32, u64))
    ensures
        spec_encode_refs(refs.push(x)) == spec_encode_refs(refs) + spec_u32_to_le_bytes(x.0)
            + spec_u64_to_le_bytes(x.1),
    decreases refs.len(),
{
    if refs.len() == 0 {
        reveal_with_fuel(spec_encode_refs, 2);
        assert(refs.push(x).drop_first() =~= Seq::<(u32, u64)>::empty());
        assert(spec_encode_refs(refs.push(x)) =~= spec_u32_to_le_bytes(x.0) + spec_u64_to_le_bytes(
            x.1,
        ));
    } else {
        assert(refs.push(x).drop_first() =~= refs.drop_first().push(x));
        lemma_encode_refs_push(refs.drop_first(), x);
        assert(spec_encode_refs(refs.push(x)) =~= spec_encode_refs(refs) + spec_u32_to_le_bytes(
            x.0,
        ) + spec_u64_to_le_bytes(x.1));
    }
}

/// Stored back references take twelve bytes each and read back.
pub proof fn lemma_refs_round_trip(refs: Seq<(u32, u64)>, b: Seq<u8>, pos: int)
    requires
        0 <= pos,
        pos + spec_encode_refs(refs).len() <= b.len(),
        b.subrange(pos, pos + spec_encode_refs(refs).len()) == spec_encode_refs(refs),
    ensures
        spec_encode_refs(refs).len() == 12 * refs.len(),
        spec_decode_refs(b, pos, refs.len()) == refs,
    decreases refs.len(),
{
    lemma_auto_spec_u32_to_from_le_bytes();
    lemma_auto_spec_u64_to_from_le_bytes();
    if refs.len() == 0 {
        assert(spec_decode_refs(b, pos, 0) =~= refs);
    } else {
        let e = spec_encode_refs(refs);
        let rest = spec_encode_refs(refs.drop_first());
        assert(e == spec_u32_to_le_bytes(refs[0].0) + spec_u64_to_le_bytes(refs[0].1) + rest);
        assert(b.subrange(pos + 12, pos + 12 + rest.len()) =~= e.subrange(12, e.len() as int));
        assert(e.subrange(12, e.len() as int) =~= rest);
        lemma_refs_round_trip(refs.drop_first(), b, pos + 12);
        assert(b.subrange(pos, pos + 4) =~= e.subrange(0, 4));
        assert(e.subrange(0, 4) =~= spec_u32_to_le_bytes(refs[0].0));
        assert(b.subrange(pos + 4, pos + 12) =~= e.subrange(4, 12));
        assert(e.subrange(4, 12) =~= spec_u64_to_le_bytes(refs[0].1));
        let d = spec_decode_refs(b, pos, refs.len());
        let d1 = spec_decode_refs(b, pos + 12, refs.drop_first().len());
        assert forall|i: int| 0 <= i < refs.len() implies d[i] == refs[i] by {
            if i > 0 {
                assert(d[i] == d1[i - 1]);
            }
        }
        assert(d =~= refs);
    }
}

/// Stored back references take twelve bytes each.
pub proof fn lemma_encode_refs_len(refs: Seq<(u32, u64)>)
    ensures
        spec_encode_refs(refs).len() == 12 * refs.len(),
    decreases refs.len(),
{
    lemma_auto_spec_u32_to_from_le_bytes();
    lemma_auto_spec_u64_to_from_le_bytes();
    if refs.len() > 0 {
        lemma_encode_refs_len(refs.drop_first());
    }
}

/// The body of a head has the same size whatever the data and tail sizes.
pub proof fn lemma_head_body_len(h: HeadView, data_size: u32, tail_size: u16)
    ensures
        spec_head_body(h, data_size, tail_size).len() == spec_head_body(h, 0, 0).len(),
        spec_head_body(h, data_size, tail_size).len() == 18 + 12 * h.refs.len()
            + spec_encode_options(h.options).len(),
{
    lemma_auto_spec_u16_to_from_le_bytes();
    lemma_auto_spec_u32_to_from_le_bytes();
    lemma_encode_refs_len(h.refs);
}

/// A stored head reads back: the head and the sizes it was stored with.
pub proof fn lemma_head_round_trip(h: HeadView, data_size: u32, tail_size: u16, b: Seq<u8>)
    requires
        spec_head_storable(h),
        spec_encode_head(h, data_size, tail_size).len() <= b.len(),
        b.take(spec_encode_head(h, data_size, tail_size).len() as int) == spec_encode_head(
            h,
            data_size,
            tail_size,
        ),
    ensures
        spec_decode_head(b) == Some(
            (
                h,
                spec_encode_head(h, data_size, tail_size).len() as u32,
                data_size,
                tail_size,
            ),
        ),
{
    lemma_auto_spec_u16_to_from_le_bytes();
    lemma_auto_spec_u32_to_from_le_bytes();
    lemma_auto_spec_u64_to_from_le_bytes();
    lemma_head_body_len(h, data_size, tail_size);
    let e = spec_encode_head(h, data_size, tail_size);
    let body = spec_head_body(h, data_size, tail_size);
    let n = h.refs.len();
    let er = spec_encode_refs(h.refs);
    let eo = spec_encode_options(h.options);
    let size = (4 + body.len()) as u32;
    let p1 = spec_u32_to_le_bytes(size);
    let p2 = spec_u32_to_le_bytes(data_size);
    let p3 = spec_u16_to_le_bytes(tail_size);
    let p4 = spec_u32_to_le_bytes(h.block_id);
    let p5 = spec_u32_to_le_bytes(h.data_type);
    let p6 = spec_u32_to_le_bytes(n as u32);
    assert(e =~= p1 + p2 + p3 + p4 + p5 + p6 + er + eo);
    assert(e.len() == 4 + body.len());
    assert(b.take(e.len() as int) == e);
    assert forall|i: int, j: int| 0 <= i <= j <= e.len() implies #[trigger] b.subrange(i, j)
        == e.subrange(i, j) by {
        assert(b.subrange(i, j) =~= b.take(e.len() as int).subrange(i, j));
    }
    assert(e.subrange(0, 4) =~= p1);
    assert(e.subrange(4, 8) =~= p2);
    assert(e.subrange(8, 10) =~= p3);
    assert(e.subrange(10, 14) =~= p4);
    assert(e.subrange(14, 18) =~= p5);
    assert(e.subrange(18, 22) =~= p6);
    assert(e.subrange(22, 22 + er.len() as int) =~= er);
    assert(e.subrange(22 + er.len() as int, e.len() as int) =~= eo);
    assert(b.subrange(22, 22 + er.len() as int) =~= er);
    lemma_refs_round_trip(h.refs, b, 22);
    let end: int = 22 + 12 * n as int;
    assert(eo.len() >= 8) by {
        assert(eo == spec_u64_to_le_bytes(h.options.len() as u64) + super::blockopts::spec_encode_pairs(h.options));
    }
    assert(b.subrange(end, end + eo.len() as int) == e.subrange(end, end + eo.len() as int));
    lemma_options_round_trip(h.options, b, end);
}

impl BlockHead {
    /// The stored form of the head for a block of `data_size` bytes of data
    /// and a tail of `tail_size` bytes.
    pub fn write_block_head(&self, data_size: u32, tail_size: u16) -> (r: Vec<u8>)
        requires
            self@.refs.len() <= u32::MAX,
            4 + spec_head_body(self@, 0, 0).len() <= u32::MAX,
        ensures
            spec_head_storable(self@),
            r@ == spec_encode_head(self@, data_size, tail_size),
    {
        let _ = self.block_options.check_ok();
        let _ = self.block_options.len();
        proof {
            lemma_auto_spec_u16_to_from_le_bytes();
            lemma_auto_spec_u32_to_from_le_bytes();
            lemma_auto_spec_u64_to_from_le_bytes();
            lemma_head_body_len(self@, data_size, tail_size);
        }
        let ghost h = self@;
        let ghost total = spec_u32_to_le_bytes(0) + spec_head_body(h, data_size, tail_size);
        let mut bb = ByteBuff::new();
        proof {
            lemma_overwrite_at_end(bb.buff@, spec_u32_to_le_bytes(0));
        }
        bb.write(0u32);
        proof {
            lemma_overwrite_at_end(bb.buff@, spec_u32_to_le_bytes(data_size));
        }
        bb.write(data_size);
        proof {
            lemma_overwrite_at_end(bb.buff@, spec_u16_to_le_bytes(tail_size));
        }
        bb.write(tail_size);
        proof {
            lemma_overwrite_at_end(bb.buff@, spec_u32_to_le_bytes(h.block_id));
        }
        bb.write(self.block_id);
        proof {
            lemma_overwrite_at_end(bb.buff@, spec_u32_to_le_bytes(h.data_type));
        }
        bb.write(self.data_type_id);
        let n = self.back_refs.refs.len();
        proof {
            lemma_overwrite_at_end(bb.buff@, spec_u32_to_le_bytes(n as u32));
        }
        bb.write(n as u32);
        let ghost fixed = bb.buff@;
        proof {
            assert(fixed =~= spec_u32_to_le_bytes(0) + spec_u32_to_le_bytes(data_size)
                + spec_u16_to_le_bytes(tail_size) + spec_u32_to_le_bytes(h.block_id)
                + spec_u32_to_le_bytes(h.data_type) + spec_u32_to_le_bytes(n as u32));
            assert(fixed.len() == 22);
            assert(h.refs.take(0) =~= Seq::<(u32, u64)>::empty());
        }
        let mut i: usize = 0;
        while i < n
            invariant
                n == self.back_refs.refs.len(),
                h == self@,
                h.refs.len() == n,
                n <= u32::MAX,
                22 + 12 * n + spec_encode_options(h.options).len() <= u32::MAX,
                i <= n,
                fixed.len() == 22,
                bb.position == bb.buff.len(),
                bb.buff@ == fixed + spec_encode_refs(h.refs.take(i as int)),
            decreases n - i,
        {
            let (b_id, b_off) = self.back_refs.refs[i];
            proof {
                lemma_auto_spec_u32_to_from_le_bytes();
                lemma_auto_spec_u64_to_from_le_bytes();
                lemma_encode_refs_len(h.refs.take(i as int));
                lemma_encode_refs_push(h.refs.take(i as int), h.refs[i as int]);
                assert(h.refs.take(i + 1) =~= h.refs.take(i as int).push(h.refs[i as int]));
                assert(h.refs[i as int] == (b_id.0, b_off.0));
                lemma_overwrite_at_end(bb.buff@, spec_u32_to_le_bytes(b_id.0));
            }
            bb.write(b_id);
            proof {
                assert(h.refs.take(i as int).len() == i);
                assert(bb.position == 22 + 12 * i + 4);
                assert(22 + 12 * i + 12 <= 22 + 12 * n);
                lemma_overwrite_at_end(bb.buff@, spec_u64_to_le_bytes(b_off.0));
            }
            bb.write(b_off);
            proof {
                assert(bb.buff@ =~= fixed + spec_encode_refs(h.refs.take(i + 1)));
            }
            i = i + 1;
        }
        proof {
            assert(h.refs.take(n as int) =~= h.refs);
            lemma_encode_refs_len(h.refs);
            lemma_overwrite_at_end(bb.buff@, spec_encode_options(h.options));
        }
        bb.write(&self.block_options);
        proof {
            assert(bb.buff@ =~= total);
        }
        let size = bb.position;
        bb.position = 0;
        bb.write(size as u32);
        proof {
            assert(bb.buff@ =~= spec_encode_head(h, data_size, tail_size));
        }
        bb.buff
    }
}

/// Reads the head stored at the start of `data`.
fn read_block_head(data: Vec<u8>) -> (r: Result<(BlockHead, BlockHeadSize, BlockDataSize, BlockTailSize), String>)
    ensures
        match spec_decode_head(data@) {
            Some((hv, hs, ds, ts)) => r matches Ok((h, a, b, c)) && h@ == hv && a.0 == hs && b.0
                == ds && c.0 == ts,
            None => r is Err,
        },
{
    let ghost d = data@;
    let mut bbuf = ByteBuff::from(data);
    let mut head_size: u32 = 0;
    let mut data_size: u32 = 0;
    let mut tail_size: u16 = 0;
    let mut block_id = BlockId::new(0);
    let mut data_type_id = DataId::new(0);
    let mut back_refs_count: u32 = 0;
    match bbuf.read(&mut head_size) {
        Ok(()) => {},
        Err(e) => return Err(e),
    }
    if head_size < HEAD_MIN_SIZE {
        return Err(String::from_str("head to small"));
    }
    match bbuf.read(&mut data_size) {
        Ok(()) => {},
        Err(e) => return Err(e),
    }
    match bbuf.read(&mut tail_size) {
        Ok(()) => {},
        Err(e) => return Err(e),
    }
    match bbuf.read(&mut block_id) {
        Ok(()) => {},
        Err(e) => return Err(e),
    }
    match bbuf.read(&mut data_type_id) {
        Ok(()) => {},
        Err(e) => return Err(e),
    }
    match bbuf.read(&mut back_refs_count) {
        Ok(()) => {},
        Err(e) => return Err(e),
    }
    assert(bbuf.position == 22);
    let mut refs: Vec<(BlockId, FileOffset)> = Vec::new();
    let mut i: u32 = 0;
    while i < back_refs_count
        invariant
            bbuf.buff@ == d,
            d.len() >= 22,
            head_size == spec_le32(d, 0),
            head_size >= HEAD_MIN_SIZE,
            i <= back_refs_count,
            back_refs_count == spec_le32(d, 18),
            bbuf.position == 22 + 12 * i,
            bbuf.position <= d.len(),
            d == data@,
            spec_refs_view(refs@) == spec_decode_refs(d, 22, i as nat),
        decreases back_refs_count - i,
    {
        let mut b_id = BlockId::new(0);
        let mut b_off = FileOffset::new(0);
        match bbuf.read(&mut b_id) {
            Ok(()) => {},
            Err(e) => return Err(e),
        }
        match bbuf.read(&mut b_off) {
            Ok(()) => {},
            Err(e) => return Err(e),
        }
        let ghost r0 = refs@;
        refs.push((b_id, b_off));
        proof {
            let dec = spec_decode_refs(d, 22, (i + 1) as nat);
            let old_dec = spec_decode_refs(d, 22, i as nat);
            assert(b_id.0 == spec_le32(d, 22 + 12 * i));
            assert(b_off.0 == spec_le64(d, 22 + 12 * i + 4));
            assert(spec_refs_view(r0).len() == r0.len());
            assert forall|k: int| 0 <= k < i + 1 implies #[trigger] spec_refs_view(refs@)[k] == dec[k] by {
                if k < i {
                    assert(refs@[k] == r0[k]);
                    assert(spec_refs_view(r0)[k] == old_dec[k]);
                }
            }
            assert(spec_refs_view(refs@) =~= dec);
        }
        i = i + 1;
    }
    let mut block_options = BlockOptions::default();
    if (head_size as u64) > (bbuf.position as u64) {
        match bbuf.read(&mut block_options) {
            Ok(()) => {},
            Err(e) => return Err(e),
        }
    }
    proof {
        assert(Seq::<(Seq<char>, Seq<char>)>::empty() =~= block_options@ || (head_size as u64)
            > 22 + 12 * back_refs_count);
    }
    let head = BlockHead {
        block_id,
        data_type_id,
        back_refs: BackRefs { refs },
        block_options,
    };
    Ok((head, BlockHeadSize(head_size), BlockDataSize(data_size), BlockTailSize(tail_size)))
}

impl BlockHead {
    /// Reads the head stored at the start of `bytes`, with the sizes of its
    /// block's parts.
    pub fn from_bytes(bytes: Vec<u8>) -> (r: Result<(BlockHead, BlockHeadSize, BlockDataSize, BlockTailSize), String>)
        ensures
            match spec_decode_head(bytes@) {
                Some((hv, hs, ds, ts)) => r matches Ok((h, a, b, c)) && h@ == hv && a.0 == hs && b.0
                    == ds && c.0 == ts,
                None => r is Err,
            },
    {
        read_block_head(bytes)
    }
}

} // verus!
