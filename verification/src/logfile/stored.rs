//! What a log's bytes hold when every block was written by the log: the
//! blocks one after another from the start, each readable back.

use vstd::prelude::*;
use super::block::head::{HeadView, HeadReadView, spec_encode_head, PREVIEW_SIZE};
use super::block::block::{
    spec_block_at, spec_encode_block, spec_block_storable, spec_head_at, spec_tail_lookup,
    lemma_block_round_trip, TailLookup, TAIL_SIZE,
};
use super::logfile::spec_written_head;

verus! {

/// The bytes of `blocks` stored one after another.
pub open spec fn spec_blocks_bytes(blocks: Seq<(HeadView, Seq<u8>)>) -> Seq<u8>
    decreases blocks.len(),
{
    if blocks.len() == 0 {
        Seq::empty()
    } else {
        spec_blocks_bytes(blocks.drop_last()) + spec_encode_block(blocks.last().0, blocks.last().1)
    }
}

/// Where block `i` of `blocks` starts.
pub open spec fn spec_block_pos(blocks: Seq<(HeadView, Seq<u8>)>, i: int) -> int {
    spec_blocks_bytes(blocks.take(i)).len() as int
}

/// The head that reading block `i` of `blocks` back gives.
pub open spec fn spec_stored_head(blocks: Seq<(HeadView, Seq<u8>)>, i: int) -> HeadReadView {
    spec_written_head(blocks[i].0, blocks[i].1.len(), spec_block_pos(blocks, i))
}

/// `h` is the head of one of `blocks`, as reading it back gives it.
pub open spec fn spec_is_stored(blocks: Seq<(HeadView, Seq<u8>)>, h: HeadReadView) -> bool {
    0 <= h.head.block_id < blocks.len() && h == spec_stored_head(blocks, h.head.block_id as int)
}

/// Block `i` is numbered `i`, can be stored and read back, and points back
/// only to earlier blocks, where they are stored.
pub open spec fn spec_block_ok(blocks: Seq<(HeadView, Seq<u8>)>, i: int) -> bool {
    let (h, d) = blocks[i];
    &&& h.block_id == i
    &&& spec_block_storable(h, d.len())
    &&& spec_encode_head(h, d.len() as u32, TAIL_SIZE).len() <= PREVIEW_SIZE
    &&& forall|k: int|
        0 <= k < h.refs.len() ==> #[trigger] h.refs[k].0 < i && h.refs[k].1 == spec_block_pos(blocks, h.refs[k].0 as int)
}

/// `flat` holds exactly `blocks`, one after another from the start.
pub open spec fn spec_chained(flat: Seq<u8>, blocks: Seq<(HeadView, Seq<u8>)>) -> bool {
    &&& flat == spec_blocks_bytes(blocks)
    &&& flat.len() <= u64::MAX
    &&& forall|i: int| 0 <= i < blocks.len() ==> #[trigger] spec_block_ok(blocks, i)
}

/// The bytes of the first `j` blocks begin the bytes of all of them.
pub proof fn lemma_bytes_prefix(blocks: Seq<(HeadView, Seq<u8>)>, j: int)
    requires
        0 <= j <= blocks.len(),
    ensures
        spec_blocks_bytes(blocks.take(j)).len() <= spec_blocks_bytes(blocks).len(),
        spec_blocks_bytes(blocks).subrange(0, spec_blocks_bytes(blocks.take(j)).len() as int)
            == spec_blocks_bytes(blocks.take(j)),
    decreases blocks.len() - j,
{
    if j == blocks.len() {
        assert(blocks.take(j) =~= blocks);
        assert(spec_blocks_bytes(blocks).subrange(0, spec_blocks_bytes(blocks).len() as int) =~= spec_blocks_bytes(
            blocks,
        ));
    } else {
        lemma_bytes_prefix(blocks, j + 1);
        let a = spec_blocks_bytes(blocks.take(j));
        let b = spec_blocks_bytes(blocks.take(j + 1));
        assert(blocks.take(j + 1).drop_last() =~= blocks.take(j));
        assert(b == a + spec_encode_block(blocks[j].0, blocks[j].1));
        let all = spec_blocks_bytes(blocks);
        assert(all.subrange(0, a.len() as int) =~= all.subrange(0, b.len() as int).subrange(0, a.len() as int));
        assert(b.subrange(0, a.len() as int) =~= a);
    }
}

/// Block `i` starts where the ones before end, and its bytes stand there.
pub proof fn lemma_block_bytes(blocks: Seq<(HeadView, Seq<u8>)>, i: int)
    requires
        0 <= i < blocks.len(),
    ensures
        spec_block_pos(blocks, i + 1) == spec_block_pos(blocks, i) + spec_encode_block(blocks[i].0, blocks[i].1).len(),
        spec_block_pos(blocks, i + 1) <= spec_blocks_bytes(blocks).len(),
        spec_blocks_bytes(blocks).subrange(spec_block_pos(blocks, i), spec_block_pos(blocks, i + 1))
            == spec_encode_block(blocks[i].0, blocks[i].1),
        spec_block_pos(blocks, 0) == 0,
{
    lemma_bytes_prefix(blocks, i + 1);
    let a = spec_blocks_bytes(blocks.take(i));
    let b = spec_blocks_bytes(blocks.take(i + 1));
    assert(blocks.take(i + 1).drop_last() =~= blocks.take(i));
    assert(blocks.take(i + 1).last() == blocks[i]);
    let e = spec_encode_block(blocks[i].0, blocks[i].1);
    assert(b == a + e);
    let all = spec_blocks_bytes(blocks);
    assert(all.subrange(a.len() as int, b.len() as int) =~= all.subrange(0, b.len() as int).subrange(
        a.len() as int,
        b.len() as int,
    ));
    assert(b.subrange(a.len() as int, b.len() as int) =~= e);
    assert(blocks.take(0) =~= Seq::<(HeadView, Seq<u8>)>::empty());
}

/// Blocks start further on the later they come.
pub proof fn lemma_pos_increasing(blocks: Seq<(HeadView, Seq<u8>)>, i: int, j: int)
    requires
        0 <= i < j <= blocks.len(),
    ensures
        spec_block_pos(blocks, i) < spec_block_pos(blocks, j),
    decreases j - i,
{
    lemma_block_bytes(blocks, j - 1);
    if i < j - 1 {
        lemma_pos_increasing(blocks, i, j - 1);
    }
}

/// All the blocks end where the bytes end.
pub proof fn lemma_bytes_len(blocks: Seq<(HeadView, Seq<u8>)>)
    ensures
        spec_block_pos(blocks, blocks.len() as int) == spec_blocks_bytes(blocks).len(),
{
    assert(blocks.take(blocks.len() as int) =~= blocks);
}

/// Each block of a chained log reads back where it starts: its head and
/// data, and, after the first, the tail before it leads to the block
/// before.
pub proof fn lemma_chained_reads(flat: Seq<u8>, blocks: Seq<(HeadView, Seq<u8>)>, i: int)
    requires
        spec_chained(flat, blocks),
        0 <= i < blocks.len(),
    ensures
        spec_block_at(flat, spec_block_pos(blocks, i)) == Some(
            (blocks[i].0, blocks[i].1, spec_block_pos(blocks, i + 1)),
        ),
        ({
            let h = spec_stored_head(blocks, i);
            spec_head_at(flat, spec_block_pos(blocks, i)) == Some((h.head, h.head_size, h.data_size, h.tail_size))
        }),
        spec_stored_head(blocks, i).position == spec_block_pos(blocks, i),
        spec_stored_head(blocks, i).position + spec_stored_head(blocks, i).head_size + spec_stored_head(
            blocks,
            i,
        ).data_size + spec_stored_head(blocks, i).tail_size == spec_block_pos(blocks, i + 1),
        spec_tail_lookup(flat, spec_block_pos(blocks, i + 1)) == TailLookup::At(spec_block_pos(blocks, i)),
        spec_block_pos(blocks, i + 1) <= flat.len(),
{
    lemma_block_bytes(blocks, i);
    assert(spec_block_ok(blocks, i));
    let (h, d) = blocks[i];
    let p = spec_block_pos(blocks, i);
    lemma_block_round_trip(h, d, flat, p);
}

/// A block appended after chained blocks keeps them chained, where it is
/// numbered next, can be stored and read back, and points back only to
/// earlier blocks where they are stored.
pub proof fn lemma_chain_push(flat: Seq<u8>, blocks: Seq<(HeadView, Seq<u8>)>, h: HeadView, d: Seq<u8>)
    requires
        spec_chained(flat, blocks),
        h.block_id == blocks.len(),
        spec_block_storable(h, d.len()),
        spec_encode_head(h, d.len() as u32, TAIL_SIZE).len() <= PREVIEW_SIZE,
        forall|k: int|
            0 <= k < h.refs.len() ==> #[trigger] h.refs[k].0 < blocks.len() && h.refs[k].1 == spec_block_pos(
                blocks,
                h.refs[k].0 as int,
            ),
        flat.len() + spec_encode_block(h, d).len() <= u64::MAX,
    ensures
        spec_chained(flat + spec_encode_block(h, d), blocks.push((h, d))),
        forall|j: int| 0 <= j <= blocks.len() ==> #[trigger] spec_block_pos(blocks.push((h, d)), j) == spec_block_pos(blocks, j),
        spec_block_pos(blocks.push((h, d)), blocks.len() as int) == flat.len(),
{
    let nb = blocks.push((h, d));
    assert(nb.drop_last() =~= blocks);
    assert forall|j: int| 0 <= j <= blocks.len() implies #[trigger] spec_block_pos(nb, j) == spec_block_pos(blocks, j) by {
        assert(nb.take(j) =~= blocks.take(j));
    }
    lemma_bytes_len(blocks);
    assert forall|i: int| 0 <= i < nb.len() implies #[trigger] spec_block_ok(nb, i) by {
        if i < blocks.len() {
            assert(spec_block_ok(blocks, i));
            assert(nb[i] == blocks[i]);
            let (hi, di) = blocks[i];
            assert forall|k: int| 0 <= k < hi.refs.len() implies #[trigger] hi.refs[k].0 < i && hi.refs[k].1
                == spec_block_pos(nb, hi.refs[k].0 as int) by {
                assert(spec_block_pos(nb, hi.refs[k].0 as int) == spec_block_pos(blocks, hi.refs[k].0 as int));
            }
        } else {
            assert(nb[i] == (h, d));
            assert forall|k: int| 0 <= k < h.refs.len() implies #[trigger] h.refs[k].0 < i && h.refs[k].1
                == spec_block_pos(nb, h.refs[k].0 as int) by {
                assert(spec_block_pos(nb, h.refs[k].0 as int) == spec_block_pos(blocks, h.refs[k].0 as int));
            }
        }
    }
}

} // verus!
