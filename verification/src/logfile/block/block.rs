use vstd::prelude::*;
use vstd::bytes::*;
use crate::bbuff::absbuff::{ReadBytesFrom, WriteBytesTo, BytesCount, spec_read_count, spec_write_at};
use super::ids::FileOffset;
use super::err::BlockErr;
use super::head::{
    BlockHead, BlockHeadRead, BlockHeadSize, BlockDataSize, BlockTailSize, HeadView,
    spec_decode_head, spec_encode_head, spec_head_body, spec_head_storable, spec_le32,
    lemma_head_body_len, lemma_head_round_trip, HEAD_MIN_SIZE, PREVIEW_SIZE,
};

verus! {

/// The size of a tail.
pub const TAIL_SIZE: u16 = 8;

/// The bytes that open a tail: `TAIL`.
pub open spec fn spec_tail_marker() -> Seq<u8> {
    seq![84u8, 65u8, 73u8, 76u8]
}

/// What a read of up to `n` bytes at `pos` of `flat` gets.
pub open spec fn spec_window(flat: Seq<u8>, pos: int, n: nat) -> Seq<u8> {
    if pos >= flat.len() {
        Seq::empty()
    } else {
        flat.subrange(pos, pos + spec_read_count(flat.len(), pos, n))
    }
}

/// The head stored at `pos` of `flat`, as far as a preview of it shows.
pub open spec fn spec_head_at(flat: Seq<u8>, pos: int) -> Option<(HeadView, u32, u32, u16)> {
    let w = spec_window(flat, pos, PREVIEW_SIZE as nat);
    if w.len() < HEAD_MIN_SIZE {
        None
    } else {
        spec_decode_head(w)
    }
}

/// The stored form of a block: its head, its data, and its tail, which is
/// the marker and the block's total size.
pub open spec fn spec_encode_block(h: HeadView, data: Seq<u8>) -> Seq<u8> {
    let hd = spec_encode_head(h, data.len() as u32, TAIL_SIZE);
    hd + data + spec_tail_marker() + spec_u32_to_le_bytes((hd.len() + data.len() + 8) as u32)
}

/// A block can be stored: its head can, and its size fits in four bytes.
pub open spec fn spec_block_storable(h: HeadView, data_len: nat) -> bool {
    &&& spec_head_storable(h)
    &&& 4 + spec_head_body(h, 0, 0).len() + data_len + 8 <= u32::MAX
}

/// Where a tail ending at `pos` leads.
pub ghost enum TailLookup {
    /// No tail fits before `pos`.
    TooEarly,
    /// The bytes before `pos` end early.
    Short,
    /// The bytes before `pos` are not a tail.
    NoMarker,
    /// The tail points before the start.
    Outside(int),
    /// The block of the tail starts here.
    At(int),
}

/// Where the tail that ends at `pos` of `flat` says its block starts.
pub open spec fn spec_tail_lookup(flat: Seq<u8>, pos: int) -> TailLookup {
    if pos < TAIL_SIZE {
        TailLookup::TooEarly
    } else {
        let w = spec_window(flat, pos - 8, 8);
        if w.len() < 8 {
            TailLookup::Short
        } else if w.take(4) != spec_tail_marker() {
            TailLookup::NoMarker
        } else if pos - spec_le32(w, 4) < 0 {
            TailLookup::Outside(pos - spec_le32(w, 4))
        } else {
            TailLookup::At(pos - spec_le32(w, 4))
        }
    }
}

/// Reads up to `n` bytes at `pos`.
fn read_window<S: ReadBytesFrom>(source: &S, pos: u64, n: usize) -> (r: Result<Vec<u8>, BlockErr>)
    ensures
        r matches Ok(v) ==> v@ == spec_window(source.flat(), pos as int, n as nat),
        r matches Err(e) ==> e is AbsBuff,
        source.reliable() ==> r is Ok,
{
    let mut buff: Vec<u8> = vec![0u8; n];
    let reads = match source.read_from(pos, buff.as_mut_slice()) {
        Ok(k) => k,
        Err(e) => return Err(BlockErr::AbsBuff(e)),
    };
    buff.truncate(reads as usize);
    proof {
        let w = spec_window(source.flat(), pos as int, n as nat);
        assert(buff@ =~= w);
    }
    Ok(buff)
}

/// A block of a log file.
#[derive(Debug)]
pub struct Block {
    /// Its head.
    pub head: BlockHead,
    /// Its data.
    pub data: Vec<u8>,
}

impl BlockHead {
    /// Reads the head of the block that starts at `position`.
    pub fn read_form<S: ReadBytesFrom>(position: u64, source: &S) -> (r: Result<BlockHeadRead, BlockErr>)
        ensures
            r matches Ok(h) ==> h.position.0 == position && spec_head_at(
                source.flat(),
                position as int,
            ) == Some((h.head@, h.head_size.0, h.data_size.0, h.tail_size.0)),
            spec_head_at(source.flat(), position as int) is None ==> r is Err,
            r matches Err(e) ==> e is AbsBuff || e is NoData || e is BlockHeadReadFail,
            spec_head_at(source.flat(), position as int) is Some ==> r is Ok || r matches Err(BlockErr::AbsBuff(_)),
            source.reliable() ==> !(r matches Err(BlockErr::AbsBuff(_))),
            spec_window(source.flat(), position as int, PREVIEW_SIZE as nat).len() < HEAD_MIN_SIZE ==> (r matches Err(
                BlockErr::NoData { .. },
            ) || r matches Err(BlockErr::AbsBuff(_))),
            spec_window(source.flat(), position as int, PREVIEW_SIZE as nat).len() >= HEAD_MIN_SIZE && spec_head_at(
                source.flat(),
                position as int,
            ) is None ==> (r matches Err(BlockErr::BlockHeadReadFail { .. }) || r matches Err(BlockErr::AbsBuff(_))),
            r matches Err(BlockErr::NoData { reads, expect }) ==> expect == HEAD_MIN_SIZE && reads < HEAD_MIN_SIZE
                && reads == spec_window(source.flat(), position as int, PREVIEW_SIZE as nat).len(),
            r matches Err(BlockErr::BlockHeadReadFail { head_data, .. }) ==> head_data@ == spec_window(
                source.flat(),
                position as int,
                PREVIEW_SIZE as nat,
            ) && spec_decode_head(head_data@) is None,
    {
        let bytes = match read_window(source, position, PREVIEW_SIZE) {
            Ok(v) => v,
            Err(e) => return Err(e),
        };
        let reads = bytes.len() as u64;
        if reads < (HEAD_MIN_SIZE as u64) {
            return Err(BlockErr::no_data(reads, HEAD_MIN_SIZE as u64));
        }
        let head_data = bytes.clone();
        match BlockHead::from_bytes(bytes) {
            Ok((head, head_size, data_size, tail_size)) => Ok(
                BlockHeadRead { position: FileOffset::new(position), head, head_size, data_size, tail_size },
            ),
            Err(error) => Err(BlockErr::BlockHeadReadFail { head_data, error }),
        }
    }
}

/// The block stored at `pos` of `flat`: its head, its data, and where the
/// next block starts.
pub open spec fn spec_block_at(flat: Seq<u8>, pos: int) -> Option<(HeadView, Seq<u8>, int)> {
    match spec_head_at(flat, pos) {
        None => None,
        Some((h, hs, ds, ts)) => {
            let end = pos + hs + ds + ts;
            let d = spec_window(flat, pos + hs, ds as nat);
            if end > u64::MAX || d.len() < ds {
                None
            } else {
                Some((h, d, end))
            }
        },
    }
}

impl Block {
    /// The stored form of the block, with the sizes of its parts.
    fn to_bytes(&self) -> (r: (Vec<u8>, BlockHeadSize, BlockDataSize, BlockTailSize))
        requires
            spec_block_storable(self.head@, self.data@.len()),
        ensures
            r.0@ == spec_encode_block(self.head@, self.data@),
            r.1.0 == spec_encode_head(self.head@, self.data@.len() as u32, TAIL_SIZE).len(),
            r.2.0 == self.data@.len(),
            r.3.0 == TAIL_SIZE,
    {
        proof {
            lemma_auto_spec_u32_to_from_le_bytes();
            lemma_head_body_len(self.head@, self.data@.len() as u32, TAIL_SIZE);
            lemma_head_body_len(self.head@, 0, 0);
        }
        let ds = self.data.len();
        let mut bytes = self.head.write_block_head(ds as u32, TAIL_SIZE);
        let hs = bytes.len();
        let ghost hd = bytes@;
        let mut i: usize = 0;
        while i < ds
            invariant
                ds == self.data.len(),
                hs == hd.len(),
                i <= ds,
                hs + ds + 8 <= u32::MAX,
                bytes@ == hd + self.data@.take(i as int),
            decreases ds - i,
        {
            bytes.push(self.data[i]);
            proof {
                assert(bytes@ =~= hd + self.data@.take(i + 1));
            }
            i = i + 1;
        }
        proof {
            assert(self.data@.take(ds as int) =~= self.data@);
        }
        bytes.push(84u8);
        bytes.push(65u8);
        bytes.push(73u8);
        bytes.push(76u8);
        let total = (bytes.len() + 4) as u32;
        let t = u32_to_le_bytes(total);
        bytes.push(t[0]);
        bytes.push(t[1]);
        bytes.push(t[2]);
        bytes.push(t[3]);
        proof {
            assert(t@ =~= seq![t@[0], t@[1], t@[2], t@[3]]);
            assert(bytes@ =~= spec_encode_block(self.head@, self.data@));
        }
        (bytes, BlockHeadSize(hs as u32), BlockDataSize(ds as u32), BlockTailSize(TAIL_SIZE))
    }

    /// Writes the block at `position` of `dest`, and returns its head as read
    /// back from there.
    pub fn write_to<D: WriteBytesTo>(&self, position: u64, dest: &mut D) -> (r: Result<BlockHeadRead, BlockErr>)
        requires
            spec_block_storable(self.head@, self.data@.len()),
        ensures
            r is Ok ==> final(dest).flat() == spec_write_at(
                old(dest).flat(),
                position as int,
                spec_encode_block(self.head@, self.data@),
            ),
            r is Err ==> final(dest).flat() == old(dest).flat(),
            r matches Err(e) ==> e is AbsBuff,
            final(dest).reliable() == old(dest).reliable(),
            old(dest).reliable() && old(dest).flat().len() <= usize::MAX && position + spec_encode_block(
                self.head@,
                self.data@,
            ).len() <= usize::MAX ==> r is Ok,
            r matches Ok(h) ==> h.position.0 == position && h.head@ == self.head@ && h.head_size.0
                == spec_encode_head(self.head@, self.data@.len() as u32, TAIL_SIZE).len()
                && h.data_size.0 == self.data@.len() && h.tail_size.0 == TAIL_SIZE,
    {
        let (bytes, head_size, data_size, tail_size) = self.to_bytes();
        match dest.write_to(position, bytes.as_slice()) {
            Ok(()) => {},
            Err(e) => return Err(BlockErr::AbsBuff(e)),
        }
        Ok(
            BlockHeadRead {
                position: FileOffset::new(position),
                head: self.head.copy(),
                head_size,
                data_size,
                tail_size,
            },
        )
    }

    /// Reads the block that starts at `position`, and returns it with the
    /// position where the next block starts.
    pub fn read_from<S: ReadBytesFrom>(position: u64, file: &S) -> (r: Result<(Block, u64), BlockErr>)
        ensures
            r matches Ok((b, next)) ==> spec_block_at(file.flat(), position as int) == Some(
                (b.head@, b.data@, next as int),
            ),
            spec_block_at(file.flat(), position as int) is None ==> r is Err,
            spec_block_at(file.flat(), position as int) is Some ==> r is Ok || r matches Err(BlockErr::AbsBuff(_)),
            file.reliable() ==> !(r matches Err(BlockErr::AbsBuff(_))),
            r matches Err(e) ==> e is AbsBuff || e is NoData || e is BlockHeadReadFail || e is Limit
                || e is BlockDataTruncated,
    {
        let h = match BlockHead::read_form(position, file) {
            Ok(h) => h,
            Err(e) => return Err(e),
        };
        let hs = h.head_size.0 as u64;
        let ds = h.data_size.0 as u64;
        let ts = h.tail_size.0 as u64;
        if position > u64::MAX - (hs + ds + ts) {
            return Err(BlockErr::limit("read_from", super::limit::Limit(u64::MAX), u64::MAX));
        }
        let data = match read_window(file, position + hs, ds as usize) {
            Ok(v) => v,
            Err(e) => return Err(e),
        };
        if (data.len() as u64) < ds {
            return Err(BlockErr::BlockDataTruncated { expect_data_size: ds, reads_data_size: data.len() as u64 });
        }
        Ok((Block { head: h.head, data }, position + hs + ds + ts))
    }
}

/// Reading of blocks by their tails.
pub struct Tail;

impl Tail {
    /// Where the tail that ends at `position` says its block starts.
    fn locate<S: ReadBytesFrom>(position: u64, source: &S) -> (r: Result<u64, BlockErr>)
        ensures
            r matches Ok(p) ==> spec_tail_lookup(source.flat(), position as int) == TailLookup::At(
                p as int,
            ),
            spec_tail_lookup(source.flat(), position as int) is TooEarly <==> r matches Err(
                BlockErr::PositionToSmall { .. },
            ),
            r matches Err(BlockErr::TailPointerOuside { .. }) ==> spec_tail_lookup(
                source.flat(),
                position as int,
            ) is Outside,
            spec_tail_lookup(source.flat(), position as int) is Outside ==> (r matches Err(
                BlockErr::TailPointerOuside { .. },
            ) || r matches Err(BlockErr::AbsBuff(_))),
            r is Err ==> r matches Err(BlockErr::PositionToSmall { .. }) || r matches Err(
                BlockErr::TailPointerOuside { .. },
            ) || r matches Err(BlockErr::AbsBuff(_)) || r matches Err(BlockErr::NoData { .. })
                || r matches Err(BlockErr::TailMarkerMismatched { .. }),
            r matches Err(BlockErr::NoData { .. }) ==> spec_tail_lookup(
                source.flat(),
                position as int,
            ) is Short,
            r matches Err(BlockErr::NoData { reads, expect }) ==> expect == TAIL_SIZE && reads == spec_window(
                source.flat(),
                position - 8,
                8,
            ).len(),
            r matches Err(BlockErr::PositionToSmall { min_position, actual }) ==> min_position.0 == TAIL_SIZE
                && actual.0 == position,
            r matches Err(BlockErr::TailMarkerMismatched { tail_data }) ==> tail_data@ == spec_window(
                source.flat(),
                position - 8,
                8,
            ),
            r matches Err(BlockErr::TailPointerOuside { pointer }) ==> spec_tail_lookup(source.flat(), position as int)
                == TailLookup::Outside(pointer as int),
            source.reliable() ==> !(r matches Err(BlockErr::AbsBuff(_))),

            r matches Err(BlockErr::TailMarkerMismatched { .. }) ==> spec_tail_lookup(
                source.flat(),
                position as int,
            ) is NoMarker,
    {
        if position < (TAIL_SIZE as u64) {
            return Err(BlockErr::tail_position_to_small(TAIL_SIZE as u64, position));
        }
        let w = match read_window(source, position - 8, 8) {
            Ok(v) => v,
            Err(e) => return Err(e),
        };
        if w.len() < 8 {
            return Err(BlockErr::no_data(w.len() as u64, TAIL_SIZE as u64));
        }
        let marker_matched = w[0] == 84u8 && w[1] == 65u8 && w[2] == 73u8 && w[3] == 76u8;
        if !marker_matched {
            let tail_data: [u8; 8] = [w[0], w[1], w[2], w[3], w[4], w[5], w[6], w[7]];
            proof {
                assert(tail_data@ =~= w@);
                assert(!(w@.take(4) =~= spec_tail_marker()) || marker_matched);
            }
            return Err(BlockErr::TailMarkerMismatched { tail_data });
        }
        proof {
            assert(w@.take(4) =~= spec_tail_marker());
        }
        let total_bytes: Vec<u8> = vec![w[4], w[5], w[6], w[7]];
        proof {
            assert(total_bytes@ =~= w@.subrange(4, 8));
        }
        let total = u32_from_le_bytes(total_bytes.as_slice());
        if (total as u64) > position {
            return Err(BlockErr::TailPointerOuside { pointer: (position as i128) - (total as i128) });
        }
        Ok(position - (total as u64))
    }

    /// Reads the block whose tail ends at `position`, with the position
    /// where the next block starts.
    pub fn try_read_block_at<S: ReadBytesFrom>(position: u64, source: &S) -> (r: Result<(Block, u64), BlockErr>)
        ensures
            r matches Ok((b, next)) ==> (spec_tail_lookup(source.flat(), position as int) matches TailLookup::At(
                p,
            ) && spec_block_at(source.flat(), p) == Some((b.head@, b.data@, next as int))),
            spec_tail_lookup(source.flat(), position as int) is TooEarly ==> r matches Err(
                BlockErr::PositionToSmall { .. },
            ),
            spec_tail_lookup(source.flat(), position as int) is Outside ==> (r matches Err(
                BlockErr::TailPointerOuside { .. },
            ) || r matches Err(BlockErr::AbsBuff(_))),
            spec_tail_lookup(source.flat(), position as int) matches TailLookup::At(p) ==> (spec_block_at(
                source.flat(),
                p,
            ) is None ==> r is Err),
            spec_tail_lookup(source.flat(), position as int) is Short ==> r matches Err(BlockErr::NoData { .. })
                || r matches Err(BlockErr::AbsBuff(_)),
            spec_tail_lookup(source.flat(), position as int) is NoMarker ==> r matches Err(
                BlockErr::TailMarkerMismatched { .. },
            ) || r matches Err(BlockErr::AbsBuff(_)),
            r matches Err(BlockErr::PositionToSmall { min_position, actual }) ==> min_position.0 == TAIL_SIZE
                && actual.0 == position,
            r matches Err(BlockErr::TailMarkerMismatched { tail_data }) ==> tail_data@ == spec_window(
                source.flat(),
                position - 8,
                8,
            ),
            r matches Err(BlockErr::TailPointerOuside { pointer }) ==> spec_tail_lookup(source.flat(), position as int)
                == TailLookup::Outside(pointer as int),
            source.reliable() ==> !(r matches Err(BlockErr::AbsBuff(_))),
            spec_tail_lookup(source.flat(), position as int) matches TailLookup::At(p) ==> (spec_block_at(
                source.flat(),
                p,
            ) is Some ==> r is Ok || r matches Err(BlockErr::AbsBuff(_))),
    {
        let p = match Tail::locate(position, source) {
            Ok(p) => p,
            Err(e) => return Err(e),
        };
        Block::read_from(p, source)
    }

    /// Reads the head of the block whose tail ends at `position`.
    pub fn try_read_head_at<S: ReadBytesFrom>(position: u64, source: &S) -> (r: Result<BlockHeadRead, BlockErr>)
        ensures
            r matches Ok(h) ==> (spec_tail_lookup(source.flat(), position as int) matches TailLookup::At(
                p,
            ) && h.position.0 == p && spec_head_at(source.flat(), p) == Some(
                (h.head@, h.head_size.0, h.data_size.0, h.tail_size.0),
            )),
            spec_tail_lookup(source.flat(), position as int) is TooEarly <==> r matches Err(
                BlockErr::PositionToSmall { .. },
            ),
            spec_tail_lookup(source.flat(), position as int) is Outside ==> (r matches Err(
                BlockErr::TailPointerOuside { .. },
            ) || r matches Err(BlockErr::AbsBuff(_))),
            r matches Err(BlockErr::TailPointerOuside { .. }) ==> spec_tail_lookup(
                source.flat(),
                position as int,
            ) is Outside,
            spec_tail_lookup(source.flat(), position as int) matches TailLookup::At(p) ==> (spec_head_at(
                source.flat(),
                p,
            ) is None ==> r is Err),
            spec_tail_lookup(source.flat(), position as int) is Short ==> r matches Err(BlockErr::NoData { .. })
                || r matches Err(BlockErr::AbsBuff(_)),
            spec_tail_lookup(source.flat(), position as int) is NoMarker ==> r matches Err(
                BlockErr::TailMarkerMismatched { .. },
            ) || r matches Err(BlockErr::AbsBuff(_)),
            r matches Err(BlockErr::PositionToSmall { min_position, actual }) ==> min_position.0 == TAIL_SIZE
                && actual.0 == position,
            r matches Err(BlockErr::TailMarkerMismatched { tail_data }) ==> tail_data@ == spec_window(
                source.flat(),
                position - 8,
                8,
            ),
            r matches Err(BlockErr::TailPointerOuside { pointer }) ==> spec_tail_lookup(source.flat(), position as int)
                == TailLookup::Outside(pointer as int),
            source.reliable() ==> !(r matches Err(BlockErr::AbsBuff(_))),
            spec_tail_lookup(source.flat(), position as int) matches TailLookup::At(p) ==> (spec_head_at(
                source.flat(),
                p,
            ) is Some ==> r is Ok || r matches Err(BlockErr::AbsBuff(_))),
    {
        let p = match Tail::locate(position, source) {
            Ok(p) => p,
            Err(e) => return Err(e),
        };
        BlockHead::read_form(p, source)
    }
}

/// A stored block reads back from where it starts: its head, its data and
/// the position right after it; and its tail leads back to its start.
/// (A head larger than the preview of a head is not read back.)
pub proof fn lemma_block_round_trip(h: HeadView, d: Seq<u8>, flat: Seq<u8>, pos: int)
    requires
        spec_block_storable(h, d.len()),
        spec_encode_head(h, d.len() as u32, TAIL_SIZE).len() <= PREVIEW_SIZE,
        0 <= pos,
        pos + spec_encode_block(h, d).len() <= flat.len(),
        pos + spec_encode_block(h, d).len() <= u64::MAX,
        flat.subrange(pos, pos + spec_encode_block(h, d).len()) == spec_encode_block(h, d),
    ensures
        spec_block_at(flat, pos) == Some((h, d, pos + spec_encode_block(h, d).len())),
        spec_head_at(flat, pos) == Some(
            (h, spec_encode_head(h, d.len() as u32, TAIL_SIZE).len() as u32, d.len() as u32, TAIL_SIZE),
        ),
        spec_encode_block(h, d).len() == spec_encode_head(h, d.len() as u32, TAIL_SIZE).len() + d.len() + TAIL_SIZE,
        spec_tail_lookup(flat, pos + spec_encode_block(h, d).len()) == TailLookup::At(pos),
{
    lemma_auto_spec_u32_to_from_le_bytes();
    lemma_head_body_len(h, d.len() as u32, TAIL_SIZE);
    lemma_head_body_len(h, 0, 0);
    let hd = spec_encode_head(h, d.len() as u32, TAIL_SIZE);
    let e = spec_encode_block(h, d);
    let hl = hd.len() as int;
    let el = e.len() as int;
    assert(hl >= 22);
    assert(el == hl + d.len() + 8);
    let w = spec_window(flat, pos, PREVIEW_SIZE as nat);
    assert(w.len() >= hl);
    assert(w.take(hl) =~= e.subrange(0, hl)) by {
        assert(w.take(hl) =~= flat.subrange(pos, pos + hl));
        assert(flat.subrange(pos, pos + hl) =~= flat.subrange(pos, pos + el).subrange(0, hl));
    }
    assert(e.subrange(0, hl) =~= hd);
    lemma_head_round_trip(h, d.len() as u32, TAIL_SIZE, w);
    let dw = spec_window(flat, pos + hl, d.len());
    assert(dw =~= d) by {
        assert(dw =~= flat.subrange(pos + hl, pos + hl + d.len()));
        assert(flat.subrange(pos + hl, pos + hl + d.len()) =~= flat.subrange(pos, pos + el).subrange(
            hl,
            hl + d.len(),
        ));
        assert(e.subrange(hl, hl + d.len()) =~= d);
    }
    let end = pos + el;
    let tw = spec_window(flat, end - 8, 8);
    assert(tw =~= e.subrange(el - 8, el)) by {
        assert(tw =~= flat.subrange(end - 8, end));
        assert(flat.subrange(end - 8, end) =~= flat.subrange(pos, pos + el).subrange(el - 8, el));
    }
    assert(e.subrange(el - 8, el) =~= spec_tail_marker() + spec_u32_to_le_bytes(el as u32));
    assert(tw.take(4) =~= spec_tail_marker());
    assert(tw.subrange(4, 8) =~= spec_u32_to_le_bytes(el as u32));
}

} // verus!
