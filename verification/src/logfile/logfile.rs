//! A log file: blocks one after another in a flat buffer.
//!
//! Each new block points back to some earlier blocks, so that a reader can
//! go back from the last block in few steps. The log keeps the heads of the
//! blocks the next block will point to: the first is always the last block
//! written; when a block's number is divisible by `2^L`, reference `L` takes
//! the place of reference `L - 1`, for every such `L` up to 31.

use vstd::prelude::*;
use vstd::string::StringExecFns;
use crate::text::{spec_decimal, u128_to_decimal};
use crate::bbuff::streambuff;
use crate::bbuff::absbuff::{
    ABuffError, BytesCount, ReadBytesFrom, WriteBytesTo, ResizeBytes, spec_write_at,
    lemma_write_at_reads_back,
};
use super::block::{
    BlockId, DataId, FileOffset, BlockErr, BlockOptions, BackRefs, BlockHead, BlockHeadRead, Block,
};
use super::block::head::{HeadView, HeadReadView, spec_encode_head, spec_head_body, lemma_head_body_len, PREVIEW_SIZE};
use super::block::blockopts::OptionsView;
use super::stored::{
    spec_chained, spec_is_stored, spec_stored_head, spec_block_pos, lemma_chain_push, lemma_chained_reads,
    lemma_bytes_len,
};
use super::block::block::{
    spec_block_at, spec_encode_block, spec_block_storable, spec_head_at, spec_tail_lookup,
    lemma_block_round_trip, TailLookup, Tail, TAIL_SIZE,
};

verus! {

/// A flat buffer a log file can live in.
pub trait FlatBuff: ReadBytesFrom + WriteBytesTo + BytesCount + ResizeBytes + Clone {}

impl FlatBuff for crate::bbuff::absbuff::ByteBuff {}

/// What goes wrong in a log file.
#[derive(Clone, Debug)]
pub enum LogErr {
    /// There is no block before this one.
    PreviousBlockNotExists(BlockId),
    /// There is no block after this one.
    NextBlockNotExists(BlockId),
    /// A jump backwards was asked for a later block.
    JumpForwardNotAllowed { from: BlockId, to: BlockId },
    /// A jump was asked for a block after the last one.
    JumpOutsideLast { last: BlockId, to: BlockId },
    /// A lock could not be taken.
    CantLock(String),
    /// The flat buffer failed.
    FlatBuff(ABuffError),
    /// A block could not be read or written.
    Block(BlockErr),
    /// The log holds no block.
    LogIsEmpty,
}

/// The number of trailing zero bits of `x`, counting at most `cap`.
pub open spec fn spec_trailing_zeros(x: u32, cap: nat) -> nat
    decreases cap,
{
    if cap == 0 || x % 2 != 0 {
        0
    } else {
        1 + spec_trailing_zeros(x / 2, (cap - 1) as nat)
    }
}

/// The heads kept after block `id` is added, where `last` were kept: the
/// first stays; references `1..=t` take the place of the ones before them,
/// `t` being the trailing zero bits of `id` (at most 31), the list growing
/// with copies of its last head where `t` reaches past its end; the others
/// stay.
pub open spec fn spec_refreshed(last: Seq<HeadReadView>, id: u32) -> Seq<HeadReadView> {
    let t = spec_trailing_zeros(id, 31) as int;
    let m = last.len() as int;
    let n = if t + 1 > m { t + 1 } else { m };
    Seq::new(
        n as nat,
        |l: int|
            if l == 0 {
                last[0]
            } else if l <= t {
                last[if l - 1 < m - 1 { l - 1 } else { m - 1 }]
            } else {
                last[l]
            },
    )
}

/// The back references a block gets from the heads kept.
pub open spec fn spec_refs_from(last: Seq<HeadReadView>) -> Seq<(u32, u64)> {
    last.map_values(|h: HeadReadView| (h.head.block_id, h.position))
}

/// A count of trailing zero bits is at most its cap.
pub proof fn lemma_trailing_zeros_cap(x: u32, cap: nat)
    ensures
        spec_trailing_zeros(x, cap) <= cap,
    decreases cap,
{
    if cap > 0 && x % 2 == 0 {
        lemma_trailing_zeros_cap(x / 2, (cap - 1) as nat);
    }
}

/// The head of the block written after the heads kept `last`: the number
/// after the last block's (0 in an empty log), and back references to the
/// heads kept once refreshed for that number.
pub open spec fn spec_next_head(last: Seq<HeadReadView>, data_type: u32, options: OptionsView) -> HeadView {
    if last.len() == 0 {
        HeadView { block_id: 0, data_type, refs: Seq::empty(), options }
    } else {
        let id: u32 = if last[0].head.block_id < u32::MAX {
            (last[0].head.block_id + 1) as u32
        } else {
            0
        };
        HeadView { block_id: id, data_type, refs: spec_refs_from(spec_refreshed(last, id)), options }
    }
}

/// The heads kept once block head `h`, with `data_len` bytes of data, is
/// written after the heads kept `last`: the new head first.
pub open spec fn spec_kept_after(last: Seq<HeadReadView>, h: HeadView, data_len: nat) -> Seq<HeadReadView> {
    if last.len() == 0 {
        seq![spec_written_head(h, data_len, 0)]
    } else {
        spec_refreshed(last, h.block_id).update(0, spec_written_head(h, data_len, spec_append_position(last)))
    }
}

/// The result failed because the buffer did.
pub open spec fn spec_buffer_failed<T>(r: Result<T, LogErr>) -> bool {
    r matches Err(LogErr::FlatBuff(_)) || r matches Err(LogErr::Block(BlockErr::AbsBuff(_)))
}

/// The heads kept `last` are heads of `blocks` as read back, the first of
/// them the last block's; none where there is no block.
pub open spec fn spec_kept_stored(last: Seq<HeadReadView>, blocks: Seq<(HeadView, Seq<u8>)>) -> bool {
    &&& (last.len() == 0 <==> blocks.len() == 0)
    &&& blocks.len() > 0 ==> last[0] == spec_stored_head(blocks, blocks.len() - 1)
    &&& forall|k: int| 0 <= k < last.len() ==> #[trigger] spec_is_stored(blocks, last[k])
}

/// Each head kept after a refresh is one of the heads kept before.
pub proof fn lemma_refreshed_from(last: Seq<HeadReadView>, id: u32, l: int)
    requires
        last.len() > 0,
        0 <= l < spec_refreshed(last, id).len(),
    ensures
        exists|x: int| 0 <= x < last.len() && spec_refreshed(last, id)[l] == last[x],
{
    lemma_trailing_zeros_cap(id, 31);
    let t = spec_trailing_zeros(id, 31) as int;
    let m = last.len() as int;
    if l == 0 {
        assert(spec_refreshed(last, id)[l] == last[0]);
    } else if l <= t {
        let x = if l - 1 < m - 1 { l - 1 } else { m - 1 };
        assert(spec_refreshed(last, id)[l] == last[x]);
    } else {
        assert(spec_refreshed(last, id)[l] == last[l]);
    }
}

/// The next head is numbered after the blocks held, and points back to
/// heads of them, where they are stored.
proof fn lemma_next_refs(flat: Seq<u8>, last: Seq<HeadReadView>, blocks: Seq<(HeadView, Seq<u8>)>, h: HeadView)
    requires
        spec_chained(flat, blocks),
        spec_kept_stored(last, blocks),
        last.len() > 0 ==> last[0].head.block_id < u32::MAX,
        h == spec_next_head(last, h.data_type, h.options),
    ensures
        h.block_id == blocks.len(),
        forall|k: int|
            0 <= k < h.refs.len() ==> #[trigger] h.refs[k].0 < blocks.len() && h.refs[k].1 == spec_block_pos(
                blocks,
                h.refs[k].0 as int,
            ),
{
    let n = blocks.len() as int;
    if n > 0 {
        assert(spec_is_stored(blocks, last[0]));
        assert(crate::logfile::stored::spec_block_ok(blocks, n - 1));
        assert(last[0].head.block_id == n - 1);
        assert forall|k: int| 0 <= k < h.refs.len() implies #[trigger] h.refs[k].0 < blocks.len() && h.refs[k].1
            == spec_block_pos(blocks, h.refs[k].0 as int) by {
            lemma_refreshed_from(last, h.block_id, k);
            let x = choose|x: int| 0 <= x < last.len() && spec_refreshed(last, h.block_id)[k] == last[x];
            assert(spec_is_stored(blocks, last[x]));
            lemma_chained_reads(flat, blocks, last[x].head.block_id as int);
        }
    }
}

/// After the next block is written, the heads kept are heads of the blocks
/// with the new one.
proof fn lemma_kept_after_stored(
    flat: Seq<u8>,
    last: Seq<HeadReadView>,
    blocks: Seq<(HeadView, Seq<u8>)>,
    h: HeadView,
    d: Seq<u8>,
)
    requires
        spec_chained(flat, blocks),
        spec_kept_stored(last, blocks),
        h.block_id == blocks.len(),
        spec_append_position(last) == flat.len(),
        spec_block_pos(blocks.push((h, d)), blocks.len() as int) == flat.len(),
        forall|j: int| 0 <= j <= blocks.len() ==> #[trigger] spec_block_pos(blocks.push((h, d)), j) == spec_block_pos(blocks, j),
    ensures
        spec_kept_stored(spec_kept_after(last, h, d.len()), blocks.push((h, d))),
{
    let n = blocks.len() as int;
    let nb = blocks.push((h, d));
    let nl = spec_kept_after(last, h, d.len());
    assert(nl[0] == spec_stored_head(nb, n));
    assert forall|k: int| 0 <= k < nl.len() implies #[trigger] spec_is_stored(nb, nl[k]) by {
        if k > 0 {
            lemma_refreshed_from(last, h.block_id, k);
            let x = choose|x: int| 0 <= x < last.len() && spec_refreshed(last, h.block_id)[k] == last[x];
            assert(spec_is_stored(blocks, last[x]));
            let j = last[x].head.block_id as int;
            assert(nb[j] == blocks[j]);
            assert(spec_block_pos(nb, j) == spec_block_pos(blocks, j));
        }
    }
}

/// Writing the next block after blocks held keeps them held, with the new
/// block after them.
pub proof fn lemma_write_keeps_held(
    flat: Seq<u8>,
    last: Seq<HeadReadView>,
    blocks: Seq<(HeadView, Seq<u8>)>,
    h: HeadView,
    d: Seq<u8>,
)
    requires
        spec_chained(flat, blocks),
        spec_kept_stored(last, blocks),
        last.len() > 0 ==> last[0].head.block_id < u32::MAX,
        h == spec_next_head(last, h.data_type, h.options),
        spec_block_storable(h, d.len()),
        spec_encode_head(h, d.len() as u32, TAIL_SIZE).len() <= PREVIEW_SIZE,
        spec_append_position(last) + spec_encode_block(h, d).len() <= u64::MAX,
    ensures
        h.block_id == blocks.len(),
        spec_append_position(last) == flat.len(),
        spec_chained(spec_write_at(flat, spec_append_position(last), spec_encode_block(h, d)), blocks.push((h, d))),
        spec_kept_stored(spec_kept_after(last, h, d.len()), blocks.push((h, d))),
{
    let n = blocks.len() as int;
    lemma_bytes_len(blocks);
    if n > 0 {
        lemma_chained_reads(flat, blocks, n - 1);
        assert(spec_is_stored(blocks, last[0]));
    } else {
        assert(flat =~= Seq::<u8>::empty());
    }
    let e = spec_encode_block(h, d);
    assert(spec_write_at(flat, spec_append_position(last), e) =~= flat + e);
    lemma_next_refs(flat, last, blocks, h);
    lemma_chain_push(flat, blocks, h, d);
    lemma_kept_after_stored(flat, last, blocks, h, d);
}

/// The offset of a pair of back references, from `i` on, whose numbers
/// enclose `target` (the lower one below it): the later of the two.
pub open spec fn spec_pair_step(refs: Seq<(u32, u64)>, target: u32, i: int) -> Option<u64>
    decreases refs.len() - i,
{
    if i < 0 || i + 1 >= refs.len() {
        None
    } else {
        let (a_id, a_off) = refs[i];
        let (b_id, b_off) = refs[i + 1];
        let lo = if b_id < a_id { b_id } else { a_id };
        let hi = if b_id < a_id { a_id } else { b_id };
        if lo < target && target <= hi {
            Some(if a_off > b_off { a_off } else { b_off })
        } else {
            spec_pair_step(refs, target, i + 1)
        }
    }
}

/// Where going back from a head with back references `refs` towards block
/// `target` reads next: the offset that a pair of references enclosing it
/// gives, else the first reference's where `target` is not after it; `None`
/// where the block before is to be read instead.
pub open spec fn spec_back_step(refs: Seq<(u32, u64)>, target: u32) -> Option<u64> {
    if refs.len() == 0 {
        None
    } else {
        match spec_pair_step(refs, target, 0) {
            Some(o) => Some(o),
            None => if target <= refs[0].0 {
                Some(refs[0].1)
            } else {
                None
            },
        }
    }
}

/// The offset that a pair step picks is that of a block from `target` on,
/// where the references point to earlier blocks where they are stored.
proof fn lemma_pair_step_chained(blocks: Seq<(HeadView, Seq<u8>)>, c: int, target: u32, i: int)
    requires
        0 <= c < blocks.len(),
        forall|k: int|
            0 <= k < blocks[c].0.refs.len() ==> #[trigger] blocks[c].0.refs[k].0 < c && blocks[c].0.refs[k].1
                == spec_block_pos(blocks, blocks[c].0.refs[k].0 as int),
    ensures
        spec_pair_step(blocks[c].0.refs, target, i) matches Some(off) ==> exists|j: int|
            target <= j < c && #[trigger] spec_block_pos(blocks, j) == off,
    decreases blocks[c].0.refs.len() - i,
{
    let refs = blocks[c].0.refs;
    if i >= 0 && i + 1 < refs.len() {
        let (a_id, a_off) = refs[i];
        let (b_id, b_off) = refs[i + 1];
        assert(a_id < c && a_off == spec_block_pos(blocks, a_id as int));
        assert(b_id < c && b_off == spec_block_pos(blocks, b_id as int));
        let lo = if b_id < a_id { b_id } else { a_id };
        let hi = if b_id < a_id { a_id } else { b_id };
        if lo < target && target <= hi {
            if a_id < b_id {
                crate::logfile::stored::lemma_pos_increasing(blocks, a_id as int, b_id as int);
                assert(spec_block_pos(blocks, b_id as int) == b_off);
            } else if b_id < a_id {
                crate::logfile::stored::lemma_pos_increasing(blocks, b_id as int, a_id as int);
                assert(spec_block_pos(blocks, a_id as int) == a_off);
            } else {
                assert(spec_block_pos(blocks, b_id as int) == b_off);
            }
        } else {
            lemma_pair_step_chained(blocks, c, target, i + 1);
        }
    }
}

/// The offset that a back step picks is that of a block from `target` on,
/// before the block stepped from, where its references point to earlier
/// blocks where they are stored.
proof fn lemma_back_step_chained(blocks: Seq<(HeadView, Seq<u8>)>, c: int, target: u32)
    requires
        0 <= c < blocks.len(),
        forall|k: int|
            0 <= k < blocks[c].0.refs.len() ==> #[trigger] blocks[c].0.refs[k].0 < c && blocks[c].0.refs[k].1
                == spec_block_pos(blocks, blocks[c].0.refs[k].0 as int),
    ensures
        spec_back_step(blocks[c].0.refs, target) matches Some(off) ==> exists|j: int|
            target <= j < c && #[trigger] spec_block_pos(blocks, j) == off,
{
    lemma_pair_step_chained(blocks, c, target, 0);
    let refs = blocks[c].0.refs;
    if refs.len() > 0 {
        assert(refs[0].0 < c && refs[0].1 == spec_block_pos(blocks, refs[0].0 as int));
    }
}

/// Where going back from a head with back references `refs` towards block
/// `target` reads next; see [spec_back_step].
fn back_step(refs: &Vec<(BlockId, FileOffset)>, target: u32) -> (r: Option<u64>)
    ensures
        r == spec_back_step(super::block::head::spec_refs_view(refs@), target),
{
    let ghost v = super::block::head::spec_refs_view(refs@);
    if refs.len() == 0 {
        return None;
    }
    let mut i: usize = 0;
    while i + 1 < refs.len()
        invariant
            0 < refs.len(),
            i < refs.len(),
            v == super::block::head::spec_refs_view(refs@),
            spec_pair_step(v, target, 0) == spec_pair_step(v, target, i as int),
        decreases refs.len() - i,
    {
        let (a_id, a_off) = refs[i];
        let (b_id, b_off) = refs[i + 1];
        assert(v[i as int] == (a_id.0, a_off.0));
        assert(v[i + 1] == (b_id.0, b_off.0));
        let (lo, hi) = if b_id.0 < a_id.0 { (b_id.0, a_id.0) } else { (a_id.0, b_id.0) };
        if lo < target && target <= hi {
            return Some(if a_off.0 > b_off.0 { a_off.0 } else { b_off.0 });
        }
        i = i + 1;
    }
    let (b_id, b_off) = refs[0];
    assert(v[0] == (b_id.0, b_off.0));
    if target <= b_id.0 {
        Some(b_off.0)
    } else {
        None
    }
}

/// Where the block after the heads kept is written.
pub open spec fn spec_append_position(last: Seq<HeadReadView>) -> int {
    if last.len() == 0 {
        0
    } else {
        last[0].position + last[0].head_size + last[0].data_size + last[0].tail_size
    }
}

/// The head that reading a block written at `pos` gives.
pub open spec fn spec_written_head(h: HeadView, data_len: nat, pos: int) -> HeadReadView {
    HeadReadView {
        position: pos as u64,
        head: h,
        head_size: spec_encode_head(h, data_len as u32, TAIL_SIZE).len() as u32,
        data_size: data_len as u32,
        tail_size: TAIL_SIZE,
    }
}

/// What head reads say.
pub open spec fn spec_reads_view(v: Seq<BlockHeadRead>) -> Seq<HeadReadView> {
    v.map_values(|h: BlockHeadRead| h@)
}

/// A log file in a flat buffer.
pub struct LogFile<B: FlatBuff> {
    buff: B,
    last_blocks: Vec<BlockHeadRead>,
    block_buff: streambuff::ByteBuff,
}

impl<B: FlatBuff> LogFile<B> {
    /// The log keeps at most 32 heads.
    pub closed spec fn well_formed(&self) -> bool {
        self.last_blocks.len() <= 32
    }

    /// The scratch buffer blocks are built in, and its position.
    pub closed spec fn scratch(&self) -> (Seq<u8>, usize) {
        (self.block_buff.buff@, self.block_buff.position)
    }

    /// `b` is what reading block `id` of this log may give: a block of that
    /// number stored in the log, head and data, where the head kept for the
    /// last block may stand for the stored one; for the last block, the
    /// head kept and the data stored where it starts.
    pub open spec fn read_gives(&self, id: u32, b: Block) -> bool {
        &&& b.head@.block_id == id
        &&& exists|p: int| #[trigger]
            spec_block_at(self.flat(), p) matches Some((h, d, _)) && d == b.data@ && (h == b.head@ || (
            self.last().len() > 0 && p == self.last()[0].position && b.head@ == self.last()[0].head))
        &&& self.last().len() > 0 && id == self.last()[0].head.block_id ==> (spec_block_at(
            self.flat(),
            self.last()[0].position as int,
        ) matches Some((_, d, _)) && d == b.data@ && b.head@ == self.last()[0].head)
    }

    /// `h` is what reading the head of block `id` of this log may give: a
    /// head of that number stored in the log where `h` says, or the head
    /// kept for the last block; for the last block, that head kept.
    pub open spec fn header_gives(&self, id: u32, h: HeadReadView) -> bool {
        &&& h.head.block_id == id
        &&& spec_head_at(self.flat(), h.position as int) == Some((h.head, h.head_size, h.data_size, h.tail_size)) || (
        self.last().len() > 0 && h == self.last()[0])
        &&& self.last().len() > 0 && id == self.last()[0].head.block_id ==> h == self.last()[0]
    }

    /// The log's bytes hold exactly `blocks`, one after another, and the
    /// heads it keeps are heads of those blocks, the first the last one's.
    pub open spec fn holds(&self, blocks: Seq<(HeadView, Seq<u8>)>) -> bool {
        spec_chained(self.flat(), blocks) && spec_kept_stored(self.last(), blocks)
    }

    /// A log that holds blocks counts as many: after `n` blocks written to
    /// an empty log, its count ([LogFile::count]) is `n`, and the next block
    /// written gets the number `n`.
    pub proof fn lemma_count_is_blocks_held(&self, blocks: Seq<(HeadView, Seq<u8>)>)
        requires
            self.holds(blocks),
        ensures
            self.spec_next_id() == blocks.len(),
    {
        if blocks.len() > 0 {
            assert(crate::logfile::stored::spec_block_ok(blocks, blocks.len() - 1));
        }
    }

    /// The log's buffer does not fail on its own (see
    /// [BytesCount::reliable](crate::bbuff::absbuff::BytesCount::reliable)).
    pub closed spec fn reliable(&self) -> bool {
        self.buff.reliable()
    }

    /// Whether the log keeps no more heads than it may.
    pub fn is_well_formed(&self) -> (r: bool)
        ensures
            r == self.well_formed(),
    {
        self.last_blocks.len() <= 32
    }

    /// The bytes of the log.
    pub closed spec fn flat(&self) -> Seq<u8> {
        self.buff.flat()
    }

    /// The heads the next block will point back to; the first is the last
    /// block written.
    pub closed spec fn last(&self) -> Seq<HeadReadView> {
        spec_reads_view(self.last_blocks@)
    }

    /// Opens a log in `buff`: an empty buffer is an empty log; otherwise the
    /// tail at its end leads to the last block.
    pub fn new(buff: B) -> (r: Result<Self, LogErr>)
        ensures
            r matches Ok(log) ==> log.well_formed() && log.flat() == buff.flat(),
            r matches Ok(log) ==> (buff.flat().len() == 0 ==> log.last().len() == 0),
            r matches Ok(log) ==> (buff.flat().len() > 0 ==> log.last().len() == 1 && spec_tail_lookup(
                buff.flat(),
                buff.flat().len() as int,
            ) == TailLookup::At(log.last()[0].position as int) && spec_head_at(
                buff.flat(),
                log.last()[0].position as int,
            ) == Some(
                (
                    log.last()[0].head,
                    log.last()[0].head_size,
                    log.last()[0].data_size,
                    log.last()[0].tail_size,
                ),
            )),
            buff.flat().len() > 0 && !(spec_tail_lookup(buff.flat(), buff.flat().len() as int) is At)
                ==> r is Err,
            buff.flat().len() > 0 ==> (spec_tail_lookup(buff.flat(), buff.flat().len() as int) matches TailLookup::At(
                p,
            ) && spec_head_at(buff.flat(), p) is None ==> r is Err),
            buff.flat().len() == 0 ==> r is Ok || r matches Err(LogErr::FlatBuff(_)),
            buff.flat().len() == 0 ==> (r matches Ok(log) ==> log.holds(Seq::empty())),
            forall|blocks: Seq<(HeadView, Seq<u8>)>|
                #[trigger] spec_chained(buff.flat(), blocks) && blocks.len() > 0 ==> (r is Ok || r matches Err(
                    LogErr::FlatBuff(_),
                ) || r matches Err(LogErr::Block(BlockErr::AbsBuff(_)))) && (r matches Ok(log) ==> log.holds(blocks)),
            r is Err ==> r matches Err(LogErr::FlatBuff(_)) || (buff.flat().len() > 0 && (!(spec_tail_lookup(
                buff.flat(),
                buff.flat().len() as int,
            ) is At) || (spec_tail_lookup(buff.flat(), buff.flat().len() as int) matches TailLookup::At(p)
                && spec_head_at(buff.flat(), p) is None) || r matches Err(LogErr::Block(BlockErr::AbsBuff(_))))),
            r matches Ok(log) ==> log.reliable() == buff.reliable(),
            buff.reliable() ==> !spec_buffer_failed(r),
    {
        let buff_size = match buff.bytes_count() {
            Ok(n) => n,
            Err(e) => return Err(LogErr::FlatBuff(e)),
        };
        if buff_size == 0 {
            let log = LogFile { buff, last_blocks: Vec::new(), block_buff: streambuff::ByteBuff::new() };
            proof {
                assert(log.last() =~= Seq::<HeadReadView>::empty());
                assert(log.flat() =~= crate::logfile::stored::spec_blocks_bytes(Seq::empty()));
            }
            return Ok(log);
        }
        let head = match Tail::try_read_head_at(buff_size, &buff) {
            Ok(h) => h,
            Err(e) => {
                proof {
                    assert forall|blocks: Seq<(HeadView, Seq<u8>)>|
                        #[trigger] spec_chained(buff.flat(), blocks) && blocks.len() > 0 implies e is AbsBuff by {
                        lemma_bytes_len(blocks);
                        lemma_chained_reads(buff.flat(), blocks, blocks.len() - 1);
                    }
                }
                return Err(LogErr::Block(e));
            },
        };
        let mut last_blocks: Vec<BlockHeadRead> = Vec::new();
        last_blocks.push(head);
        let log = LogFile { buff, last_blocks, block_buff: streambuff::ByteBuff::new() };
        proof {
            assert(log.last() =~= seq![head@]);
            assert forall|blocks: Seq<(HeadView, Seq<u8>)>|
                #[trigger] spec_chained(log.flat(), blocks) && blocks.len() > 0 implies log.holds(blocks) by {
                let n = blocks.len() as int;
                lemma_bytes_len(blocks);
                lemma_chained_reads(log.flat(), blocks, n - 1);
                assert(head@ == spec_stored_head(blocks, n - 1));
                assert(crate::logfile::stored::spec_block_ok(blocks, n - 1));
            }
        }
        Ok(log)
    }

    /// Resizes the scratch buffer blocks are built in, and empties it.
    pub fn resize_block_buffer(&mut self, new_size: usize)
        ensures
            final(self).scratch() == (Seq::<u8>::empty(), 0usize),
            final(self).flat() == old(self).flat(),
            final(self).last() == old(self).last(),
            final(self).well_formed() == old(self).well_formed(),
            final(self).reliable() == old(self).reliable(),
    {
        self.block_buff.buff.resize(new_size, 0u8);
        self.block_buff.reset();
    }

    /// The size of the log in bytes.
    pub fn bytes_count(&self) -> (r: Result<u64, LogErr>)
        ensures
            r matches Ok(n) ==> n == self.flat().len(),
            r matches Err(e) ==> e is FlatBuff,
            self.reliable() ==> r is Ok,
    {
        match self.buff.bytes_count() {
            Ok(n) => Ok(n),
            Err(e) => Err(LogErr::FlatBuff(e)),
        }
    }

    /// Reads bytes of the log from `pos` into `data_consumer`, and returns
    /// how many were read.
    pub fn read_raw_bytes(&self, pos: u64, data_consumer: &mut [u8]) -> (r: Result<u64, LogErr>)
        ensures
            final(data_consumer)@.len() == old(data_consumer)@.len(),
            r matches Ok(n) ==> n == crate::bbuff::absbuff::spec_read_count(
                self.flat().len(),
                pos as int,
                old(data_consumer)@.len(),
            ),
            r matches Ok(n) ==> forall|k: int| 0 <= k < n ==> #[trigger] final(data_consumer)@[k]
                == self.flat()[pos + k],
            r matches Ok(n) ==> forall|k: int|
                n <= k < old(data_consumer)@.len() ==> #[trigger] final(data_consumer)@[k] == old(
                    data_consumer,
                )@[k],
            self.reliable() ==> r is Ok,
    {
        match self.buff.read_from(pos, data_consumer) {
            Ok(n) => Ok(n),
            Err(e) => Err(LogErr::FlatBuff(e)),
        }
    }

    /// Where the next block goes.
    fn append_position(&self) -> (r: Result<u64, LogErr>)
        ensures
            r matches Ok(p) ==> p == spec_append_position(self.last()),
            r is Err <==> spec_append_position(self.last()) > u64::MAX,
    {
        if self.last_blocks.len() == 0 {
            return Ok(0);
        }
        let last = &self.last_blocks[0];
        let size = last.block_size();
        if last.position.0 > u64::MAX - size {
            return Err(LogErr::Block(BlockErr::limit("append_block", super::block::Limit(u64::MAX), u64::MAX)));
        }
        Ok(last.position.0 + size)
    }

    /// Appends `block` after the last block, and keeps its head as the first
    /// of the heads kept.
    pub fn append_block(&mut self, block: &Block) -> (r: Result<(), LogErr>)
        requires
            old(self).well_formed(),
            spec_block_storable(block.head@, block.data@.len()),
        ensures
            final(self).well_formed(),
            r is Ok ==> final(self).flat() == spec_write_at(
                old(self).flat(),
                spec_append_position(old(self).last()),
                spec_encode_block(block.head@, block.data@),
            ),
            r is Ok ==> final(self).last() == if old(self).last().len() == 0 {
                seq![spec_written_head(block.head@, block.data@.len(), 0)]
            } else {
                old(self).last().update(
                    0,
                    spec_written_head(
                        block.head@,
                        block.data@.len(),
                        spec_append_position(old(self).last()),
                    ),
                )
            },
            r is Ok ==> (spec_encode_head(block.head@, block.data@.len() as u32, TAIL_SIZE).len()
                <= PREVIEW_SIZE && spec_append_position(old(self).last()) + spec_encode_block(
                block.head@,
                block.data@,
            ).len() <= u64::MAX ==> spec_block_at(
                final(self).flat(),
                spec_append_position(old(self).last()),
            ) == Some(
                (
                    block.head@,
                    block.data@,
                    spec_append_position(old(self).last()) + spec_encode_block(
                        block.head@,
                        block.data@,
                    ).len(),
                ),
            )),
            r is Err ==> final(self).flat() == old(self).flat() && final(self).last() == old(
                self,
            ).last(),
            spec_append_position(old(self).last()) > u64::MAX ==> r is Err,
            r is Err ==> spec_append_position(old(self).last()) > u64::MAX || r matches Err(
                LogErr::Block(BlockErr::AbsBuff(_)),
            ),
            final(self).reliable() == old(self).reliable(),
            old(self).reliable() && old(self).flat().len() <= usize::MAX && spec_append_position(old(self).last())
                + spec_encode_block(block.head@, block.data@).len() <= usize::MAX ==> !spec_buffer_failed(r),
    {
        let pos = match self.append_position() {
            Ok(p) => p,
            Err(e) => return Err(e),
        };
        let ghost f0 = self.buff.flat();
        let written = match block.write_to(pos, &mut self.buff) {
            Ok(w) => w,
            Err(e) => return Err(LogErr::Block(e)),
        };
        proof {
            let e = spec_encode_block(block.head@, block.data@);
            lemma_write_at_reads_back(f0, pos as int, e);
            if spec_encode_head(block.head@, block.data@.len() as u32, TAIL_SIZE).len() <= PREVIEW_SIZE
                && pos + e.len() <= u64::MAX {
                lemma_block_round_trip(block.head@, block.data@, self.buff.flat(), pos as int);
            }
        }
        let ghost l0 = self.last_blocks@;
        if self.last_blocks.len() == 0 {
            self.last_blocks.push(written);
            proof {
                assert(self.last() =~= seq![spec_written_head(block.head@, block.data@.len(), 0)]);
            }
        } else {
            self.last_blocks.set(0, written);
            proof {
                assert(self.last() =~= spec_reads_view(l0).update(
                    0,
                    spec_written_head(block.head@, block.data@.len(), pos as int),
                ));
            }
        }
        Ok(())
    }

    /// Reads the head of the block that starts at `position`.
    pub fn read_head_at(&self, position: u64) -> (r: Result<BlockHeadRead, LogErr>)
        ensures
            r matches Ok(h) ==> h.position.0 == position && spec_head_at(self.flat(), position as int)
                == Some((h.head@, h.head_size.0, h.data_size.0, h.tail_size.0)),
            spec_head_at(self.flat(), position as int) is None ==> r is Err,
            r is Err ==> r matches Err(LogErr::Block(_)),
            spec_head_at(self.flat(), position as int) is Some ==> r is Ok || r matches Err(
                LogErr::Block(BlockErr::AbsBuff(_)),
            ),
            self.reliable() ==> !spec_buffer_failed(r),
    {
        match BlockHead::read_form(position, &self.buff) {
            Ok(h) => Ok(h),
            Err(e) => Err(LogErr::Block(e)),
        }
    }

    /// Reads the block that starts at `position`, with where the next one
    /// starts.
    pub fn read_block_at(&self, position: u64) -> (r: Result<(Block, u64), LogErr>)
        ensures
            r matches Ok((b, next)) ==> spec_block_at(self.flat(), position as int) == Some(
                (b.head@, b.data@, next as int),
            ),
            spec_block_at(self.flat(), position as int) is None ==> r is Err,
            r is Err ==> r matches Err(LogErr::Block(_)),
            spec_block_at(self.flat(), position as int) is Some ==> r is Ok || r matches Err(
                LogErr::Block(BlockErr::AbsBuff(_)),
            ),
            self.reliable() ==> !spec_buffer_failed(r),
    {
        match Block::read_from(position, &self.buff) {
            Ok(x) => Ok(x),
            Err(e) => Err(LogErr::Block(e)),
        }
    }

    /// The head of the block before `current_block`: found by the tail that
    /// ends where `current_block` starts; `None` where no tail can end there
    /// or the tail points before the start.
    pub fn read_previous_head(&self, current_block: &BlockHeadRead) -> (r: Result<Option<BlockHeadRead>, LogErr>)
        ensures
            r matches Ok(Some(h)) ==> (spec_tail_lookup(
                self.flat(),
                current_block.position.0 as int,
            ) matches TailLookup::At(p) && h.position.0 == p && spec_head_at(self.flat(), p)
                == Some((h.head@, h.head_size.0, h.data_size.0, h.tail_size.0))),
            r matches Ok(None) ==> spec_tail_lookup(self.flat(), current_block.position.0 as int) is TooEarly
                || spec_tail_lookup(self.flat(), current_block.position.0 as int) is Outside,
            spec_tail_lookup(self.flat(), current_block.position.0 as int) is TooEarly ==> r matches Ok(
                None,
            ),
            spec_tail_lookup(self.flat(), current_block.position.0 as int) is Short ==> r is Err,
            spec_tail_lookup(self.flat(), current_block.position.0 as int) is NoMarker ==> r is Err,
            spec_tail_lookup(self.flat(), current_block.position.0 as int) matches TailLookup::At(p)
                ==> (spec_head_at(self.flat(), p) is None ==> r is Err),
            r is Err ==> r matches Err(LogErr::Block(_)),
            spec_tail_lookup(self.flat(), current_block.position.0 as int) matches TailLookup::At(p)
                ==> (spec_head_at(self.flat(), p) is Some ==> r matches Ok(Some(_)) || r matches Err(
                LogErr::Block(BlockErr::AbsBuff(_)),
            )),
            self.reliable() ==> !spec_buffer_failed(r),
    {
        match Tail::try_read_head_at(current_block.position.0, &self.buff) {
            Ok(h) => Ok(Some(h)),
            Err(BlockErr::PositionToSmall { .. }) => Ok(None),
            Err(BlockErr::TailPointerOuside { .. }) => Ok(None),
            Err(e) => Err(LogErr::Block(e)),
        }
    }

    /// The head of the block after `current_block`; `None` where it ends the
    /// log.
    pub fn read_next_head(&self, current_block: &BlockHeadRead) -> (r: Result<Option<BlockHeadRead>, LogErr>)
        ensures
            r matches Ok(None) ==> current_block.position.0 + current_block.spec_block_size()
                >= self.flat().len(),
            r matches Ok(Some(h)) ==> current_block.position.0 + current_block.spec_block_size()
                < self.flat().len() && h.position.0 == current_block.position.0
                + current_block.spec_block_size() && spec_head_at(self.flat(), h.position.0 as int)
                == Some((h.head@, h.head_size.0, h.data_size.0, h.tail_size.0)),
            current_block.position.0 + current_block.spec_block_size() < self.flat().len() && spec_head_at(
                self.flat(),
                current_block.position.0 + current_block.spec_block_size(),
            ) is None ==> r is Err,
            current_block.position.0 + current_block.spec_block_size() >= self.flat().len() ==> (r matches Ok(None)
                || r matches Err(LogErr::FlatBuff(_))),
            current_block.position.0 + current_block.spec_block_size() < self.flat().len() && spec_head_at(
                self.flat(),
                current_block.position.0 + current_block.spec_block_size(),
            ) is Some ==> (r matches Ok(Some(_)) || r matches Err(LogErr::FlatBuff(_)) || r matches Err(
                LogErr::Block(BlockErr::AbsBuff(_)),
            )),
            self.reliable() ==> !spec_buffer_failed(r),
    {
        let size = current_block.block_size();
        if current_block.position.0 > u64::MAX - size {
            match self.buff.bytes_count() {
                Ok(_) => return Ok(None),
                Err(e) => return Err(LogErr::FlatBuff(e)),
            }
        }
        let next_ptr = current_block.position.0 + size;
        let buff_size = match self.buff.bytes_count() {
            Ok(n) => n,
            Err(e) => return Err(LogErr::FlatBuff(e)),
        };
        if next_ptr >= buff_size {
            return Ok(None);
        }
        match self.read_head_at(next_ptr) {
            Ok(h) => Ok(Some(h)),
            Err(e) => Err(e),
        }
    }

    /// The number of the block after the last one.
    pub open spec fn spec_next_id(&self) -> int {
        if self.last().len() == 0 {
            0
        } else {
            self.last()[0].head.block_id + 1
        }
    }

    /// Builds the block that holds `data` with options `block_opt`, and
    /// makes room for it among the heads kept.
    fn build_next_block(&mut self, data_id: DataId, block_opt: &BlockOptions, data: &[u8]) -> (r: Result<Block, LogErr>)
        requires
            old(self).well_formed(),
        ensures
            r is Err ==> r matches Err(LogErr::Block(BlockErr::Limit { .. })),
            final(self).well_formed(),
            final(self).flat() == old(self).flat(),
            old(self).spec_next_id() > u32::MAX ==> r is Err && final(self).last() == old(self).last(),
            old(self).spec_next_id() <= u32::MAX ==> r is Ok,
            r matches Ok(b) ==> b.data@ == data@ && b.head@.block_id == old(self).spec_next_id()
                && b.head@.data_type == data_id.0 && b.head@.options == block_opt@,
            r matches Ok(b) ==> final(self).last() == if old(self).last().len() == 0 {
                old(self).last()
            } else {
                spec_refreshed(old(self).last(), b.head@.block_id)
            },
            r matches Ok(b) ==> b.head@.refs == if old(self).last().len() == 0 {
                Seq::<(u32, u64)>::empty()
            } else {
                spec_refs_from(final(self).last())
            },
            final(self).reliable() == old(self).reliable(),
    {
        let block_data = vstd::slice::slice_to_vec(data);
        if self.last_blocks.len() == 0 {
            return Ok(
                Block {
                    head: BlockHead {
                        block_id: BlockId::new(0),
                        data_type_id: data_id,
                        back_refs: BackRefs::default(),
                        block_options: block_opt.copy(),
                    },
                    data: block_data,
                },
            );
        }
        let last_id = self.last_blocks[0].head.block_id.0;
        if last_id == u32::MAX {
            return Err(LogErr::Block(BlockErr::limit("build_next_block", super::block::Limit(u32::MAX as u64), u32::MAX as u64 + 1)));
        }
        let id = last_id + 1;
        let mut x = id;
        let mut t: usize = 0;
        while t < 31 && x % 2 == 0
            invariant
                t <= 31,
                spec_trailing_zeros(id, 31) == t + spec_trailing_zeros(x, (31 - t) as nat),
            decreases 31 - t,
        {
            x = x / 2;
            t = t + 1;
        }
        let ghost old_last = self.last();
        let m = self.last_blocks.len();
        let n = if t + 1 > m { t + 1 } else { m };
        let mut nl: Vec<BlockHeadRead> = Vec::new();
        let mut l: usize = 0;
        while l < n
            invariant
                m == self.last_blocks.len(),
                1 <= m <= 32,
                t == spec_trailing_zeros(id, 31),
                t <= 31,
                n == (if t + 1 > m { t + 1 } else { m as int }),
                l <= n,
                old_last == self.last(),
                spec_reads_view(nl@) == spec_refreshed(old_last, id).take(l as int),
            decreases n - l,
        {
            let idx = if l == 0 {
                0
            } else if l <= t {
                if l - 1 < m - 1 { l - 1 } else { m - 1 }
            } else {
                l
            };
            let ghost nl0 = nl@;
            let c = self.last_blocks[idx].copy();
            nl.push(c);
            proof {
                let target = spec_refreshed(old_last, id);
                assert(c@ == old_last[idx as int]);
                assert(target[l as int] == old_last[idx as int]);
                assert(spec_reads_view(nl0).len() == nl0.len());
                assert forall|j: int| 0 <= j < l + 1 implies #[trigger] spec_reads_view(nl@)[j] == target.take(l + 1)[j] by {
                    if j < l {
                        assert(nl@[j] == nl0[j]);
                        assert(spec_reads_view(nl0)[j] == target.take(l as int)[j]);
                    }
                }
                assert(spec_reads_view(nl@) =~= target.take(l + 1));
            }
            l = l + 1;
        }
        proof {
            assert(spec_refreshed(old_last, id).take(n as int) =~= spec_refreshed(old_last, id));
        }
        self.last_blocks = nl;
        let mut refs: Vec<(BlockId, FileOffset)> = Vec::new();
        let mut k: usize = 0;
        while k < self.last_blocks.len()
            invariant
                k <= self.last_blocks.len(),
                super::block::head::spec_refs_view(refs@) == spec_refs_from(self.last()).take(k as int),
            decreases self.last_blocks.len() - k,
        {
            let h = &self.last_blocks[k];
            let ghost r0 = refs@;
            refs.push((h.head.block_id, h.position));
            proof {
                let target = spec_refs_from(self.last());
                assert(self.last()[k as int] == h@);
                assert(super::block::head::spec_refs_view(r0).len() == r0.len());
                assert forall|j: int| 0 <= j < k + 1 implies #[trigger] super::block::head::spec_refs_view(refs@)[j] == target.take(k + 1)[j] by {
                    if j < k {
                        assert(refs@[j] == r0[j]);
                        assert(super::block::head::spec_refs_view(r0)[j] == target.take(k as int)[j]);
                    }
                }
                assert(super::block::head::spec_refs_view(refs@) =~= target.take(k + 1));
            }
            k = k + 1;
        }
        proof {
            assert(spec_refs_from(self.last()).take(k as int) =~= spec_refs_from(self.last()));
        }
        Ok(
            Block {
                head: BlockHead {
                    block_id: BlockId::new(id),
                    data_type_id: data_id,
                    back_refs: BackRefs { refs },
                    block_options: block_opt.copy(),
                },
                data: block_data,
            },
        )
    }

    /// Adds a block that holds `data` with options `block_opt`, and returns
    /// its number: the number after the last block's, or 0 in an empty log.
    #[verifier::rlimit(40)]
    pub fn write_block(&mut self, block_opt: &BlockOptions, data: &[u8]) -> (r: Result<BlockId, LogErr>)
        requires
            old(self).well_formed(),
            spec_block_storable(spec_next_head(old(self).last(), 1024, block_opt@), data@.len()),
        ensures
            final(self).well_formed(),
            old(self).spec_next_id() > u32::MAX ==> r is Err,
            spec_append_position(old(self).last()) > u64::MAX ==> r is Err,
            r is Err ==> old(self).spec_next_id() > u32::MAX || spec_append_position(old(self).last()) > u64::MAX
                || r matches Err(LogErr::Block(BlockErr::AbsBuff(_))),
            r is Err ==> final(self).flat() == old(self).flat(),
            r is Ok ==> final(self).flat() == spec_write_at(
                old(self).flat(),
                spec_append_position(old(self).last()),
                spec_encode_block(spec_next_head(old(self).last(), 1024, block_opt@), data@),
            ),
            r is Ok ==> final(self).last() == spec_kept_after(
                old(self).last(),
                spec_next_head(old(self).last(), 1024, block_opt@),
                data@.len(),
            ),
            forall|blocks: Seq<(HeadView, Seq<u8>)>|
                #[trigger] old(self).holds(blocks) && spec_encode_head(
                    spec_next_head(old(self).last(), 1024, block_opt@),
                    data@.len() as u32,
                    TAIL_SIZE,
                ).len() <= PREVIEW_SIZE && spec_append_position(old(self).last()) + spec_encode_block(
                    spec_next_head(old(self).last(), 1024, block_opt@),
                    data@,
                ).len() <= u64::MAX ==> (r matches Ok(id) ==> id.0 == blocks.len() && final(self).holds(
                    blocks.push((spec_next_head(old(self).last(), 1024, block_opt@), data@)),
                )),
            r matches Ok(id) ==> id.0 == old(self).spec_next_id(),
            r is Ok ==> final(self).spec_next_id() == old(self).spec_next_id() + 1,
            r is Ok ==> final(self).last().len() > 0,
            r matches Ok(id) ==> final(self).last()[0].head.block_id == id.0 && final(self).last()[0].head.options
                == block_opt@ && final(self).last()[0].head.data_type == 1024 && final(self).last()[0].data_size
                == data@.len() && final(self).last()[0].position == spec_append_position(old(self).last()),
            r matches Ok(id) ==> (final(self).last()[0].head_size <= PREVIEW_SIZE && final(self).last()[0].position
                + final(self).last()[0].head_size + final(self).last()[0].data_size + final(self).last()[0].tail_size
                <= u64::MAX ==> spec_block_at(final(self).flat(), final(self).last()[0].position as int) == Some(
                (
                    final(self).last()[0].head,
                    data@,
                    final(self).last()[0].position + final(self).last()[0].head_size + final(self).last()[0].data_size
                        + final(self).last()[0].tail_size,
                ),
            )),
            final(self).reliable() == old(self).reliable(),
            old(self).reliable() && old(self).flat().len() <= usize::MAX && spec_append_position(old(self).last())
                + spec_encode_block(spec_next_head(old(self).last(), 1024, block_opt@), data@).len() <= usize::MAX
                ==> !spec_buffer_failed(r),
    {
        proof {
            use_type_invariant(block_opt);
        }
        let ghost old_last = self.last();
        let ghost old_self = *self;
        let block = match self.build_next_block(DataId::user_data(), block_opt, data) {
            Ok(b) => b,
            Err(e) => return Err(e),
        };
        proof {
            lemma_head_body_len(block.head@, 0, 0);
            lemma_head_body_len(block.head@, block.data@.len() as u32, TAIL_SIZE);
            assert(spec_append_position(self.last()) == spec_append_position(old_last));
            vstd::bytes::lemma_auto_spec_u32_to_from_le_bytes();
        }
        match self.append_block(&block) {
            Ok(()) => {},
            Err(e) => return Err(e),
        }
        proof {
            vstd::bytes::lemma_auto_spec_u32_to_from_le_bytes();
            let h = spec_next_head(old_last, 1024, block_opt@);
            assert forall|blocks: Seq<(HeadView, Seq<u8>)>|
                #[trigger] old_self.holds(blocks) && spec_encode_head(h, data@.len() as u32, TAIL_SIZE).len()
                    <= PREVIEW_SIZE && spec_append_position(old_last) + spec_encode_block(h, data@).len()
                    <= u64::MAX implies block.head.block_id.0 == blocks.len() && self.holds(blocks.push((h, data@))) by {
                lemma_write_keeps_held(old_self.flat(), old_last, blocks, h, data@);
            }
        }
        Ok(block.head.block_id)
    }

    /// Whether a block of `data_len` bytes with options `block_opt` can be
    /// stored as the next block: the sizes of its parts fit in four bytes.
    pub fn can_write(&self, block_opt: &BlockOptions, data_len: usize) -> (r: bool)
        ensures
            r == spec_block_storable(spec_next_head(self.last(), 1024, block_opt@), data_len as nat),
    {
        proof {
            use_type_invariant(block_opt);
        }
        let ghost h = spec_next_head(self.last(), 1024, block_opt@);
        let refs: u64 = if self.last_blocks.len() == 0 {
            0
        } else {
            let last_id = self.last_blocks[0].head.block_id.0;
            let id: u32 = if last_id < u32::MAX {
                last_id + 1
            } else {
                0
            };
            let mut x = id;
            let mut t: u64 = 0;
            while t < 31 && x % 2 == 0
                invariant
                    t <= 31,
                    spec_trailing_zeros(id, 31) == t + spec_trailing_zeros(x, (31 - t) as nat),
                decreases 31 - t,
            {
                x = x / 2;
                t = t + 1;
            }
            let m = self.last_blocks.len() as u64;
            if t + 1 > m {
                t + 1
            } else {
                m
            }
        };
        proof {
            lemma_head_body_len(h, 0, 0);
            assert(h.refs.len() == refs);
        }
        let opts = block_opt.stored_size();
        if refs > 0xffff_ffffu64 || opts > 0xffff_ffffu64 || data_len as u64 > 0xffff_ffffu64 {
            return false;
        }
        30 + 12 * refs + opts + data_len as u64 <= 0xffff_ffffu64
    }

    /// The number of blocks: the number after the last block's.
    pub fn count(&self) -> (r: Result<u32, LogErr>)
        ensures
            r matches Ok(n) ==> n == self.spec_next_id(),
            self.spec_next_id() <= u32::MAX <==> r is Ok,
    {
        if self.last_blocks.len() == 0 {
            return Ok(0);
        }
        let id = self.last_blocks[0].head.block_id.0;
        if id == u32::MAX {
            return Err(LogErr::Block(BlockErr::limit("count", super::block::Limit(u32::MAX as u64), u32::MAX as u64 + 1)));
        }
        Ok(id + 1)
    }

    /// A pointer to the last block.
    pub fn pointer_to_end(&self) -> (r: Result<LogPointer<'_, B>, LogErr>)
        ensures
            self.last().len() == 0 <==> r matches Err(LogErr::LogIsEmpty),
            r is Err ==> r matches Err(LogErr::LogIsEmpty),
            r matches Ok(p) ==> p.current() == self.last()[0] && p.file() == self,
    {
        if self.last_blocks.len() == 0 {
            return Err(LogErr::LogIsEmpty);
        }
        Ok(LogPointer { log_file: self, current_block: self.last_blocks[0].copy() })
    }

    /// The block numbered `block_id`.
    pub fn read_block(&self, block_id: BlockId) -> (r: Result<Block, LogErr>)
        ensures
            r matches Ok(b) ==> self.read_gives(block_id.0, b),
            self.last().len() == 0 <==> r matches Err(LogErr::LogIsEmpty),
            forall|blocks: Seq<(HeadView, Seq<u8>)>|
                #[trigger] self.holds(blocks) ==> (block_id.0 < blocks.len() ==> ((r matches Ok(b) && b.head@
                    == blocks[block_id.0 as int].0 && b.data@ == blocks[block_id.0 as int].1) || r matches Err(
                    LogErr::Block(BlockErr::AbsBuff(_)),
                ))) && (blocks.len() > 0 && block_id.0 >= blocks.len() ==> (r matches Err(
                    LogErr::JumpOutsideLast { last, to },
                ) && last.0 == blocks.len() - 1 && to == block_id)),
            self.reliable() ==> !spec_buffer_failed(r),
    {
        let ptr = match self.pointer_to_end() {
            Ok(p) => p,
            Err(e) => return Err(e),
        };
        proof {
            assert forall|blocks: Seq<(HeadView, Seq<u8>)>| #[trigger] self.holds(blocks) implies spec_is_stored(
                blocks,
                ptr.current(),
            ) && ptr.current().head.block_id == blocks.len() - 1 && ptr.file().holds(blocks) by {
                assert(crate::logfile::stored::spec_block_ok(blocks, blocks.len() - 1));
            }
        }
        let ptr = match ptr.jump(block_id) {
            Ok(p) => p,
            Err(e) => return Err(e),
        };
        let head = ptr.current_head().head.copy();
        proof {
            assert forall|blocks: Seq<(HeadView, Seq<u8>)>|
                #[trigger] self.holds(blocks) && block_id.0 < blocks.len() implies spec_block_at(
                    ptr.file().flat(),
                    ptr.current().position as int,
                ) == Some((blocks[block_id.0 as int].0, blocks[block_id.0 as int].1, spec_block_pos(blocks, block_id.0 + 1)))
                && head@ == blocks[block_id.0 as int].0 by {
                lemma_chained_reads(self.flat(), blocks, block_id.0 as int);
            }
        }
        let data = match ptr.current_data() {
            Ok(d) => d,
            Err(e) => return Err(e),
        };
        Ok(Block { head, data })
    }

    /// The head of the block numbered `block_id`.
    pub fn read_block_header(&self, block_id: BlockId) -> (r: Result<BlockHeadRead, LogErr>)
        ensures
            r matches Ok(h) ==> self.header_gives(block_id.0, h@),
            self.last().len() == 0 <==> r matches Err(LogErr::LogIsEmpty),
            forall|blocks: Seq<(HeadView, Seq<u8>)>|
                #[trigger] self.holds(blocks) ==> (block_id.0 < blocks.len() ==> ((r matches Ok(h) && h@
                    == spec_stored_head(blocks, block_id.0 as int)) || r matches Err(
                    LogErr::Block(BlockErr::AbsBuff(_)),
                ))) && (blocks.len() > 0 && block_id.0 >= blocks.len() ==> (r matches Err(
                    LogErr::JumpOutsideLast { last, to },
                ) && last.0 == blocks.len() - 1 && to == block_id)),
            self.reliable() ==> !spec_buffer_failed(r),
    {
        let ptr = match self.pointer_to_end() {
            Ok(p) => p,
            Err(e) => return Err(e),
        };
        proof {
            assert forall|blocks: Seq<(HeadView, Seq<u8>)>| #[trigger] self.holds(blocks) implies spec_is_stored(
                blocks,
                ptr.current(),
            ) && ptr.current().head.block_id == blocks.len() - 1 && ptr.file().holds(blocks) by {
                assert(crate::logfile::stored::spec_block_ok(blocks, blocks.len() - 1));
            }
        }
        let ptr = match ptr.jump(block_id) {
            Ok(p) => p,
            Err(e) => return Err(e),
        };
        Ok(ptr.current_head().copy())
    }
}

/// Making a pointer to the last block of a log.
pub trait GetPointer<'a, B: FlatBuff> {
    fn pointer_to_end(self) -> Result<LogPointer<'a, B>, LogErr>;
}

impl<'a, B: FlatBuff> GetPointer<'a, B> for &'a LogFile<B> {
    fn pointer_to_end(self) -> (r: Result<LogPointer<'a, B>, LogErr>)
        ensures
            self.last().len() == 0 <==> r matches Err(LogErr::LogIsEmpty),
            r matches Ok(p) ==> p.current() == self.last()[0] && p.file() == self,
    {
        LogFile::pointer_to_end(self)
    }
}

/// A pointer to a block of a log.
pub struct LogPointer<'a, B: FlatBuff> {
    log_file: &'a LogFile<B>,
    current_block: BlockHeadRead,
}

impl<'a, B: FlatBuff> LogPointer<'a, B> {
    /// The head of the block pointed to.
    pub closed spec fn current(&self) -> HeadReadView {
        self.current_block@
    }

    /// The log pointed into.
    pub closed spec fn file(&self) -> &'a LogFile<B> {
        self.log_file
    }

    /// The head is the one stored where it says its block starts.
    pub open spec fn read_from_file(&self) -> bool {
        spec_head_at(self.file().flat(), self.current().position as int) == Some(
            (self.current().head, self.current().head_size, self.current().data_size, self.current().tail_size),
        )
    }

    /// The same pointer.
    pub fn copy(&self) -> (r: Self)
        ensures
            r.current() == self.current(),
            r.file() == self.file(),
    {
        LogPointer { log_file: self.log_file, current_block: self.current_block.copy() }
    }

    /// The head of the block pointed to.
    pub fn current_head(&self) -> (r: &BlockHeadRead)
        ensures
            r@ == self.current(),
    {
        &self.current_block
    }

    /// The data of the block pointed to, as stored where its head says the
    /// block starts.
    pub fn current_data(&self) -> (r: Result<Vec<u8>, LogErr>)
        ensures
            r matches Ok(d) ==> (spec_block_at(self.file().flat(), self.current().position as int) matches Some(
                (_, dd, _),
            ) && d@ == dd),
            spec_block_at(self.file().flat(), self.current().position as int) is None ==> r is Err,
            r is Err ==> r matches Err(LogErr::Block(_)),
            spec_block_at(self.file().flat(), self.current().position as int) is Some ==> r is Ok || r matches Err(
                LogErr::Block(BlockErr::AbsBuff(_)),
            ),
            self.file().reliable() ==> !spec_buffer_failed(r),
    {
        match self.log_file.read_block_at(self.current_block.position.0) {
            Ok((block, _)) => Ok(block.data),
            Err(e) => Err(e),
        }
    }

    /// A pointer to the block before.
    pub fn previous(&self) -> (r: Result<Self, LogErr>)
        ensures
            r matches Ok(p) ==> p.file() == self.file() && p.read_from_file() && spec_tail_lookup(
                self.file().flat(),
                self.current().position as int,
            ) == TailLookup::At(p.current().position as int),
            spec_tail_lookup(self.file().flat(), self.current().position as int) is TooEarly ==> (r matches Err(
                LogErr::PreviousBlockNotExists(id),
            ) && id.0 == self.current().head.block_id),
            spec_tail_lookup(self.file().flat(), self.current().position as int) matches TailLookup::At(p)
                ==> (spec_head_at(self.file().flat(), p) is Some ==> r is Ok || r matches Err(
                LogErr::Block(BlockErr::AbsBuff(_)),
            )),
            forall|blocks: Seq<(HeadView, Seq<u8>)>|
                #[trigger] spec_chained(self.file().flat(), blocks) && spec_is_stored(blocks, self.current()) ==> (
                self.current().head.block_id == 0 ==> (r matches Err(LogErr::PreviousBlockNotExists(id)) && id.0
                    == 0)) && (self.current().head.block_id > 0 ==> (r is Ok || r matches Err(
                    LogErr::Block(BlockErr::AbsBuff(_)),
                )) && (r matches Ok(p) ==> spec_is_stored(blocks, p.current()) && p.current().head.block_id
                    == self.current().head.block_id - 1)),
            self.file().reliable() ==> !spec_buffer_failed(r),
    {
        proof {
            assert forall|blocks: Seq<(HeadView, Seq<u8>)>|
                #[trigger] spec_chained(self.file().flat(), blocks) && spec_is_stored(blocks, self.current())
                    implies (self.current().head.block_id == 0 ==> spec_tail_lookup(
                    self.file().flat(),
                    self.current().position as int,
                ) is TooEarly) && (self.current().head.block_id > 0 ==> {
                    let c = self.current().head.block_id as int;
                    &&& spec_tail_lookup(self.file().flat(), self.current().position as int) == TailLookup::At(
                        spec_block_pos(blocks, c - 1),
                    )
                    &&& spec_head_at(self.file().flat(), spec_block_pos(blocks, c - 1)) == Some(
                        (
                            spec_stored_head(blocks, c - 1).head,
                            spec_stored_head(blocks, c - 1).head_size,
                            spec_stored_head(blocks, c - 1).data_size,
                            spec_stored_head(blocks, c - 1).tail_size,
                        ),
                    )
                    &&& spec_stored_head(blocks, c - 1).position == spec_block_pos(blocks, c - 1)
                    &&& blocks[c - 1].0.block_id == c - 1
                }) by {
                let c = self.current().head.block_id as int;
                if c > 0 {
                    lemma_chained_reads(self.file().flat(), blocks, c - 1);
                    assert(crate::logfile::stored::spec_block_ok(blocks, c - 1));
                } else {
                    crate::logfile::stored::lemma_block_bytes(blocks, 0);
                }
            }
        }
        match self.log_file.read_previous_head(&self.current_block) {
            Ok(Some(b)) => Ok(LogPointer { log_file: self.log_file, current_block: b }),
            Ok(None) => Err(LogErr::PreviousBlockNotExists(self.current_block.head.block_id)),
            Err(e) => Err(e),
        }
    }

    /// A pointer to the block after.
    pub fn next(&self) -> (r: Result<Self, LogErr>)
        ensures
            r matches Ok(p) ==> p.file() == self.file() && p.read_from_file() && p.current().position
                == self.current().position + self.current().head_size + self.current().data_size
                + self.current().tail_size,
            self.current().position + self.current().head_size + self.current().data_size
                + self.current().tail_size >= self.file().flat().len() ==> ((r matches Err(
                LogErr::NextBlockNotExists(id),
            ) && id.0 == self.current().head.block_id) || r matches Err(LogErr::FlatBuff(_))),
            ({
                let end = self.current().position + self.current().head_size + self.current().data_size
                    + self.current().tail_size;
                end < self.file().flat().len() && spec_head_at(self.file().flat(), end) is Some
            }) ==> (r is Ok || r matches Err(LogErr::FlatBuff(_)) || r matches Err(LogErr::Block(BlockErr::AbsBuff(_)))),
            forall|blocks: Seq<(HeadView, Seq<u8>)>|
                #[trigger] spec_chained(self.file().flat(), blocks) && spec_is_stored(blocks, self.current()) ==> (
                self.current().head.block_id == blocks.len() - 1 ==> ((r matches Err(LogErr::NextBlockNotExists(id))
                    && id.0 == self.current().head.block_id) || r matches Err(LogErr::FlatBuff(_)))) && (
                self.current().head.block_id < blocks.len() - 1 ==> (r is Ok || r matches Err(LogErr::FlatBuff(_))
                    || r matches Err(LogErr::Block(BlockErr::AbsBuff(_)))) && (r matches Ok(p) ==> spec_is_stored(
                    blocks,
                    p.current(),
                ) && p.current().head.block_id == self.current().head.block_id + 1)),
            self.file().reliable() ==> !spec_buffer_failed(r),
    {
        proof {
            assert forall|blocks: Seq<(HeadView, Seq<u8>)>|
                #[trigger] spec_chained(self.file().flat(), blocks) && spec_is_stored(blocks, self.current())
                    implies ({
                    let c = self.current().head.block_id as int;
                    let end = self.current().position + self.current().head_size + self.current().data_size
                        + self.current().tail_size;
                    &&& end == spec_block_pos(blocks, c + 1)
                    &&& c == blocks.len() - 1 ==> end == self.file().flat().len()
                    &&& c < blocks.len() - 1 ==> end < self.file().flat().len() && spec_head_at(
                        self.file().flat(),
                        end,
                    ) == Some(
                        (
                            spec_stored_head(blocks, c + 1).head,
                            spec_stored_head(blocks, c + 1).head_size,
                            spec_stored_head(blocks, c + 1).data_size,
                            spec_stored_head(blocks, c + 1).tail_size,
                        ),
                    ) && spec_stored_head(blocks, c + 1).position == end && blocks[c + 1].0.block_id == c + 1
                }) by {
                let c = self.current().head.block_id as int;
                lemma_chained_reads(self.file().flat(), blocks, c);
                crate::logfile::stored::lemma_bytes_len(blocks);
                if c < blocks.len() - 1 {
                    lemma_chained_reads(self.file().flat(), blocks, c + 1);
                    assert(crate::logfile::stored::spec_block_ok(blocks, c + 1));
                }
            }
        }
        match self.log_file.read_next_head(&self.current_block) {
            Ok(Some(b)) => Ok(LogPointer { log_file: self.log_file, current_block: b }),
            Ok(None) => Err(LogErr::NextBlockNotExists(self.current_block.head.block_id)),
            Err(e) => Err(e),
        }
    }

    /// Moves to `next` where it is a block before the current one, and
    /// goes on back from there.
    fn step_back(&self, next: BlockHeadRead, block_id: BlockId) -> (r: Result<Self, LogErr>)
        requires
            self.current().head.block_id > block_id.0,
            spec_head_at(self.file().flat(), next.position.0 as int) == Some(
                (next.head@, next.head_size.0, next.data_size.0, next.tail_size.0),
            ),
        ensures
            r matches Ok(p) ==> p.file() == self.file() && p.read_from_file() && p.current().head.block_id
                == block_id.0,
            next.head.block_id.0 >= self.current().head.block_id ==> (r matches Err(
                LogErr::JumpForwardNotAllowed { from, to },
            ) && from.0 == self.current().head.block_id && to == next.head.block_id),
            next.head.block_id.0 == block_id.0 < self.current().head.block_id ==> (r matches Ok(p)
                && p.file() == self.file() && p.current().head.block_id == block_id.0),
            !(r matches Err(LogErr::LogIsEmpty)),
            forall|blocks: Seq<(HeadView, Seq<u8>)>|
                #[trigger] spec_chained(self.file().flat(), blocks) && spec_is_stored(blocks, next@) && block_id.0
                    <= next.head.block_id.0 < self.current().head.block_id ==> (r is Ok || r matches Err(
                    LogErr::Block(BlockErr::AbsBuff(_)),
                )) && (r matches Ok(p) ==> spec_is_stored(blocks, p.current())),
            self.file().reliable() ==> !spec_buffer_failed(r),
        decreases self.current().head.block_id, 0int,
    {
        if next.head.block_id.0 >= self.current_block.head.block_id.0 {
            return Err(LogErr::JumpForwardNotAllowed { from: self.current_block.head.block_id, to: next.head.block_id });
        }
        let ptr = LogPointer { log_file: self.log_file, current_block: next };
        assert(ptr.file() == self.file() && ptr.current() == next@);
        ptr.jump_back(block_id)
    }

    /// A pointer to the block numbered `block_id`, found going back from the
    /// current block by its back references: the block at the offset that
    /// [spec_back_step] picks, or, where it picks none, the block before.
    pub fn jump_back(&self, block_id: BlockId) -> (r: Result<Self, LogErr>)
        ensures
            self.current().head.block_id == block_id.0 ==> (r matches Ok(p) && p.current() == self.current()
                && p.file() == self.file()),
            self.current().head.block_id < block_id.0 ==> (r matches Err(
                LogErr::JumpForwardNotAllowed { from, to },
            ) && from.0 == self.current().head.block_id && to == block_id),
            self.current().head.block_id > block_id.0 ==> (r matches Ok(p) ==> p.file() == self.file()
                && p.read_from_file() && p.current().head.block_id == block_id.0),
            !(r matches Err(LogErr::LogIsEmpty)),
            forall|blocks: Seq<(HeadView, Seq<u8>)>|
                #[trigger] spec_chained(self.file().flat(), blocks) && spec_is_stored(blocks, self.current())
                    && block_id.0 <= self.current().head.block_id ==> (r is Ok || r matches Err(
                    LogErr::Block(BlockErr::AbsBuff(_)),
                )) && (r matches Ok(p) ==> spec_is_stored(blocks, p.current())),
            self.file().reliable() ==> !spec_buffer_failed(r),
        decreases self.current().head.block_id, 2int,
    {
        let cur = self.current_block.head.block_id;
        if cur.0 == block_id.0 {
            return Ok(self.copy());
        }
        if cur.0 < block_id.0 {
            return Err(LogErr::JumpForwardNotAllowed { from: cur, to: block_id });
        }
        let refs = &self.current_block.head.back_refs.refs;
        proof {
            assert forall|blocks: Seq<(HeadView, Seq<u8>)>|
                #[trigger] spec_chained(self.file().flat(), blocks) && spec_is_stored(blocks, self.current())
                    implies (spec_back_step(self.current().head.refs, block_id.0) matches Some(off) ==> exists|j: int|
                    block_id.0 <= j < cur.0 && #[trigger] spec_block_pos(blocks, j) == off) && cur.0 > 0 by {
                let c = cur.0 as int;
                assert(crate::logfile::stored::spec_block_ok(blocks, c));
                lemma_back_step_chained(blocks, c, block_id.0);
            }
        }
        match back_step(refs, block_id.0) {
            Some(off) => self.back_by_ref(off, block_id),
            None => self.back_by_tail(block_id),
        }
    }

    /// Goes back to the head at `off`, and on back from there.
    fn back_by_ref(&self, off: u64, block_id: BlockId) -> (r: Result<Self, LogErr>)
        requires
            self.current().head.block_id > block_id.0,
        ensures
            r matches Ok(p) ==> p.file() == self.file() && p.read_from_file() && p.current().head.block_id
                == block_id.0,
            !(r matches Err(LogErr::LogIsEmpty)),
            forall|blocks: Seq<(HeadView, Seq<u8>)>|
                #[trigger] spec_chained(self.file().flat(), blocks) && spec_is_stored(blocks, self.current())
                    && (exists|j: int| block_id.0 <= j < self.current().head.block_id && #[trigger] spec_block_pos(blocks, j) == off)
                    ==> (r is Ok || r matches Err(LogErr::Block(BlockErr::AbsBuff(_)))) && (r matches Ok(p)
                    ==> spec_is_stored(blocks, p.current())),
            self.file().reliable() ==> !spec_buffer_failed(r),
        decreases self.current().head.block_id, 1int,
    {
        let cur = self.current_block.head.block_id;
        let head = match self.log_file.read_head_at(off) {
            Ok(h) => h,
            Err(e) => {
                proof {
                    assert forall|blocks: Seq<(HeadView, Seq<u8>)>|
                        #[trigger] spec_chained(self.file().flat(), blocks) && spec_is_stored(blocks, self.current())
                            && (exists|j: int| block_id.0 <= j < cur.0 && #[trigger] spec_block_pos(blocks, j) == off)
                            implies e matches LogErr::Block(BlockErr::AbsBuff(_)) by {
                        let j = choose|j: int| block_id.0 <= j < cur.0 && #[trigger] spec_block_pos(blocks, j) == off;
                        lemma_chained_reads(self.file().flat(), blocks, j);
                    }
                }
                return Err(e);
            },
        };
        proof {
            assert forall|blocks: Seq<(HeadView, Seq<u8>)>|
                #[trigger] spec_chained(self.file().flat(), blocks) && spec_is_stored(blocks, self.current())
                    && (exists|j: int| block_id.0 <= j < cur.0 && #[trigger] spec_block_pos(blocks, j) == off)
                    implies spec_is_stored(blocks, head@) && block_id.0 <= head.head.block_id.0 < cur.0 by {
                let j = choose|j: int| block_id.0 <= j < cur.0 && #[trigger] spec_block_pos(blocks, j) == off;
                lemma_chained_reads(self.file().flat(), blocks, j);
                assert(crate::logfile::stored::spec_block_ok(blocks, j));
            }
        }
        self.step_back(head, block_id)
    }

    /// Goes back to the block before, and on back from there.
    fn back_by_tail(&self, block_id: BlockId) -> (r: Result<Self, LogErr>)
        requires
            self.current().head.block_id > block_id.0,
        ensures
            r matches Ok(p) ==> p.file() == self.file() && p.read_from_file() && p.current().head.block_id
                == block_id.0,
            !(r matches Err(LogErr::LogIsEmpty)),
            forall|blocks: Seq<(HeadView, Seq<u8>)>|
                #[trigger] spec_chained(self.file().flat(), blocks) && spec_is_stored(blocks, self.current())
                    ==> (r is Ok || r matches Err(LogErr::Block(BlockErr::AbsBuff(_)))) && (r matches Ok(p)
                    ==> spec_is_stored(blocks, p.current())),
            self.file().reliable() ==> !spec_buffer_failed(r),
        decreases self.current().head.block_id, 1int,
    {
        let cur = self.current_block.head.block_id;
        let prev = match self.log_file.read_previous_head(&self.current_block) {
            Ok(Some(b)) => b,
            Ok(None) => {
                proof {
                    assert forall|blocks: Seq<(HeadView, Seq<u8>)>|
                        #[trigger] spec_chained(self.file().flat(), blocks) && spec_is_stored(blocks, self.current())
                            implies false by {
                        lemma_chained_reads(self.file().flat(), blocks, cur.0 - 1);
                    }
                }
                return Err(LogErr::PreviousBlockNotExists(cur));
            },
            Err(e) => {
                proof {
                    assert forall|blocks: Seq<(HeadView, Seq<u8>)>|
                        #[trigger] spec_chained(self.file().flat(), blocks) && spec_is_stored(blocks, self.current())
                            implies e matches LogErr::Block(BlockErr::AbsBuff(_)) by {
                        lemma_chained_reads(self.file().flat(), blocks, cur.0 - 1);
                    }
                }
                return Err(e);
            },
        };
        proof {
            assert forall|blocks: Seq<(HeadView, Seq<u8>)>|
                #[trigger] spec_chained(self.file().flat(), blocks) && spec_is_stored(blocks, self.current())
                    implies spec_is_stored(blocks, prev@) && block_id.0 <= prev.head.block_id.0 < cur.0 by {
                lemma_chained_reads(self.file().flat(), blocks, cur.0 - 1);
                assert(crate::logfile::stored::spec_block_ok(blocks, cur.0 - 1));
            }
        }
        self.step_back(prev, block_id)
    }

    /// A pointer to the block numbered `block_id`: going back from the
    /// current block, or back from the last block where `block_id` comes
    /// after the current one.
    pub fn jump(&self, block_id: BlockId) -> (r: Result<Self, LogErr>)
        ensures
            self.current().head.block_id == block_id.0 ==> (r matches Ok(p) && p.current() == self.current()
                && p.file() == self.file()),
            r matches Ok(p) ==> p.file() == self.file() && p.current().head.block_id == block_id.0,
            r matches Ok(p) ==> p.current() == self.current() || p.read_from_file() || (self.file().last().len()
                > 0 && p.current() == self.file().last()[0]),
            self.current().head.block_id < block_id.0 && self.file().last().len() > 0
                && self.file().last()[0].head.block_id < block_id.0 ==> (r matches Err(
                LogErr::JumpOutsideLast { last, to },
            ) && last.0 == self.file().last()[0].head.block_id && to == block_id),
            self.file().last().len() > 0 ==> !(r matches Err(LogErr::LogIsEmpty)),
            forall|blocks: Seq<(HeadView, Seq<u8>)>|
                #[trigger] self.file().holds(blocks) && spec_is_stored(blocks, self.current()) && block_id.0
                    < blocks.len() ==> (r is Ok || r matches Err(LogErr::Block(BlockErr::AbsBuff(_)))) && (r matches Ok(
                    p,
                ) ==> spec_is_stored(blocks, p.current())),
            self.file().reliable() ==> !spec_buffer_failed(r),
    {
        let cur = self.current_block.head.block_id;
        if cur.0 == block_id.0 {
            return Ok(self.copy());
        }
        if cur.0 > block_id.0 {
            return self.jump_back(block_id);
        }
        let last_ptr = match self.log_file.pointer_to_end() {
            Ok(p) => p,
            Err(e) => return Err(e),
        };
        proof {
            assert forall|blocks: Seq<(HeadView, Seq<u8>)>|
                #[trigger] self.file().holds(blocks) && block_id.0 < blocks.len() implies spec_is_stored(
                    blocks,
                    last_ptr.current(),
                ) && block_id.0 <= last_ptr.current().head.block_id && spec_chained(last_ptr.file().flat(), blocks) by {
                assert(crate::logfile::stored::spec_block_ok(blocks, blocks.len() - 1));
            }
        }
        if last_ptr.current_block.head.block_id.0 < block_id.0 {
            return Err(LogErr::JumpOutsideLast { last: last_ptr.current_block.head.block_id, to: block_id });
        }
        last_ptr.jump_back(block_id)
    }
}

/// The line that describes head `i` of the heads kept.
pub open spec fn spec_last_block_line(i: int, h: HeadReadView) -> Seq<char> {
    seq!['\n', 'l', 'a', 's', 't', ' ', 'b', 'l', 'o', 'c', 'k', ' ', '['] + spec_decimal(i as nat) + seq![
        ']',
        ' ',
        '#',
        'B',
        'l',
        'o',
        'c',
        'k',
        'I',
        'd',
        '(',
    ] + spec_decimal(h.head.block_id as nat) + seq![')', ' ', 'o', 'f', 'f', '=', 'F', 'i', 'l', 'e', 'O', 'f', 'f', 's', 'e', 't', '(']
        + spec_decimal(h.position as nat) + seq![')', ' ', 'b', 'l', 'o', 'c', 'k', '_', 's', 'i', 'z', 'e', '=']
        + spec_decimal((h.head_size + h.data_size + h.tail_size) as nat) + seq![
        ' ',
        'B',
        'l',
        'o',
        'c',
        'k',
        'D',
        'a',
        't',
        'a',
        'S',
        'i',
        'z',
        'e',
        '(',
    ] + spec_decimal(h.data_size as nat) + seq![')']
}

/// The lines that describe the heads kept, from head `0` to head `n - 1`.
pub open spec fn spec_last_block_lines(last: Seq<HeadReadView>, n: int) -> Seq<char>
    decreases n,
{
    if n <= 0 {
        Seq::empty()
    } else {
        spec_last_block_lines(last, n - 1) + spec_last_block_line(n - 1, last[n - 1])
    }
}

/// The line that describes head `i`.
#[verifier::rlimit(40)]
fn block_line(i: usize, h: &BlockHeadRead) -> (r: String)
    ensures
        r@ == spec_last_block_line(i as int, h@),
{
    proof {
        reveal_strlit("\nlast block [");
        reveal_strlit("] #BlockId(");
        reveal_strlit(") off=FileOffset(");
        reveal_strlit(") block_size=");
        reveal_strlit(" BlockDataSize(");
        reveal_strlit(")");
    }
    let mut msg = String::from_str("\nlast block [");
    msg.append(u128_to_decimal(i as u128).as_str());
    msg.append("] #BlockId(");
    msg.append(u128_to_decimal(h.head.block_id.0 as u128).as_str());
    msg.append(") off=FileOffset(");
    msg.append(u128_to_decimal(h.position.0 as u128).as_str());
    msg.append(") block_size=");
    msg.append(u128_to_decimal(h.block_size() as u128).as_str());
    msg.append(" BlockDataSize(");
    msg.append(u128_to_decimal(h.data_size.0 as u128).as_str());
    msg.append(")");
    msg
}

impl<B: FlatBuff> LogFile<B> {
    /// A description of the log: its size, and a line for each head kept.
    pub fn to_string(&self) -> (r: String)
        ensures
            r@ == seq!['l', 'o', 'g', ' ', 'f', 'i', 'l', 'e', ' ', 's', 'i', 'z', 'e', ' '] + spec_decimal(
                self.flat().len(),
            ) + seq![' ', 'b', 'y', 't', 'e', 's'] + spec_last_block_lines(self.last(), self.last().len() as int)
                || r@ == seq!['l', 'o', 'g', ' ', 'f', 'i', 'l', 'e', ' ', 's', 'i', 'z', 'e', ' ', 'e', 'r', 'r']
                + spec_last_block_lines(self.last(), self.last().len() as int),
    {
        let mut msg = String::from_str("log file size ");
        proof {
            reveal_strlit("log file size ");
            reveal_strlit(" bytes");
            reveal_strlit("err");
            reveal_strlit("\nlast block [");
            reveal_strlit("] #BlockId(");
            reveal_strlit(") off=FileOffset(");
            reveal_strlit(") block_size=");
            reveal_strlit(" BlockDataSize(");
            reveal_strlit(")");
        }
        match self.buff.bytes_count() {
            Ok(n) => {
                let t = u128_to_decimal(n as u128);
                msg.append(t.as_str());
                msg.append(" bytes");
            },
            Err(_) => {
                msg.append("err");
            },
        }
        let ghost head = msg@;
        let mut i: usize = 0;
        while i < self.last_blocks.len()
            invariant
                i <= self.last_blocks.len(),
                msg@ == head + spec_last_block_lines(self.last(), i as int),
            decreases self.last_blocks.len() - i,
        {
            let h = &self.last_blocks[i];
            let ghost m0 = msg@;
            let line = block_line(i, h);
            msg.append(line.as_str());
            proof {
                assert(self.last()[i as int] == h@);
                assert(msg@ =~= m0 + spec_last_block_line(i as int, h@));
            }
            i = i + 1;
        }
        msg
    }
}

} // verus!
