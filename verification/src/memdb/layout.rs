//! Blocks of bytes laid out one after the other.
//!
//! Every table and every run of strings of a memdb is a sequence of
//! blocks written back to back. This module says where each block of
//! such a run lies.
use vstd::prelude::*;

verus! {

/// The blocks, one after the other.
pub open spec fn concat_blocks(blocks: Seq<Seq<u8>>) -> Seq<u8>
    decreases blocks.len(),
{
    if blocks.len() == 0 {
        Seq::empty()
    } else {
        concat_blocks(blocks.drop_last()) + blocks.last()
    }
}

/// The offset of block `i` within the run: the length of all blocks
/// before it.
pub open spec fn block_offset(blocks: Seq<Seq<u8>>, i: int) -> int {
    concat_blocks(blocks.take(i)).len() as int
}

/// A run of one more block is the run so far followed by that block.
pub proof fn lemma_concat_step(blocks: Seq<Seq<u8>>, i: int)
    requires
        0 <= i < blocks.len(),
    ensures
        concat_blocks(blocks.take(i + 1)) == concat_blocks(blocks.take(i)) + blocks[i],
{
    assert(blocks.take(i + 1).drop_last() =~= blocks.take(i));
    assert(blocks.take(i + 1).last() == blocks[i]);
}

/// Block `i` lies in the run at its offset.
pub proof fn lemma_block_at(blocks: Seq<Seq<u8>>, i: int)
    requires
        0 <= i < blocks.len(),
    ensures
        0 <= block_offset(blocks, i),
        block_offset(blocks, i) + blocks[i].len() <= concat_blocks(blocks).len(),
        concat_blocks(blocks).subrange(
            block_offset(blocks, i),
            block_offset(blocks, i) + blocks[i].len(),
        ) == blocks[i],
    decreases blocks.len(),
{
    let all = concat_blocks(blocks);
    let head = blocks.drop_last();
    if i == blocks.len() - 1 {
        assert(blocks.take(i) =~= head);
        assert(all.subrange(block_offset(blocks, i), block_offset(blocks, i) + blocks[i].len())
            =~= blocks[i]);
    } else {
        lemma_block_at(head, i);
        assert(head.take(i) =~= blocks.take(i));
        assert(head[i] == blocks[i]);
        let p = block_offset(blocks, i);
        assert(all.subrange(p, p + blocks[i].len()) =~= concat_blocks(head).subrange(
            p,
            p + blocks[i].len(),
        ));
    }
}

/// Where every block has `size` bytes, block `i` lies at `size * i`.
pub proof fn lemma_uniform_offset(blocks: Seq<Seq<u8>>, size: int, i: int)
    requires
        0 <= i <= blocks.len(),
        forall|k: int| 0 <= k < blocks.len() ==> (#[trigger] blocks[k]).len() == size,
    ensures
        block_offset(blocks, i) == size * i,
    decreases i,
{
    if i > 0 {
        lemma_uniform_offset(blocks, size, i - 1);
        lemma_concat_step(blocks, i - 1);
        assert(blocks[i - 1].len() == size);
        assert(size * i == size * (i - 1) + size) by (nonlinear_arith);
    } else {
        assert(blocks.take(0) =~= Seq::<Seq<u8>>::empty());
        assert(size * i == 0) by (nonlinear_arith)
            requires
                i == 0,
        ;
    }
}

/// The whole run is the run of all its blocks.
pub proof fn lemma_offset_of_end(blocks: Seq<Seq<u8>>)
    ensures
        block_offset(blocks, blocks.len() as int) == concat_blocks(blocks).len(),
{
    assert(blocks.take(blocks.len() as int) =~= blocks);
}

/// A part of a part of `b` is a part of `b`.
pub proof fn lemma_subrange_of_subrange(b: Seq<u8>, a: int, len: int, c: int, m: int)
    requires
        0 <= a,
        0 <= len,
        a + len <= b.len(),
        0 <= c,
        0 <= m,
        c + m <= len,
    ensures
        b.subrange(a, a + len).subrange(c, c + m) == b.subrange(a + c, a + c + m),
{
    assert(b.subrange(a, a + len).subrange(c, c + m) =~= b.subrange(a + c, a + c + m));
}

} // verus!
