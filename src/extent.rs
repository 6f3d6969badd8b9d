//! Byte-granular reads and writes over an inode's block list.
use vstd::prelude::*;
use vstd::arithmetic::div_mod::{lemma_fundamental_div_mod, lemma_div_pos_is_pos};
use crate::inode::{Extent, extent_blocks, block_list, extents_wf, sum_lengths, lemma_sum_lengths_prefix, lemma_block_list_len};

verus! {

proof fn lemma_block_list_prefix(exts: Seq<Extent>, j: int)
    requires
        0 <= j <= exts.len(),
    ensures
        block_list(exts.subrange(0, j)).len() <= block_list(exts).len(),
        block_list(exts.subrange(0, j)) == block_list(exts).subrange(0, block_list(exts.subrange(0, j)).len() as int),
    decreases exts.len(),
{
    if j == exts.len() {
        assert(exts.subrange(0, j) =~= exts);
        assert(block_list(exts).subrange(0, block_list(exts).len() as int) =~= block_list(exts));
    } else {
        lemma_block_list_prefix(exts.drop_last(), j);
        assert(exts.drop_last().subrange(0, j) =~= exts.subrange(0, j));
        let p = block_list(exts.subrange(0, j));
        assert(block_list(exts) == block_list(exts.drop_last()) + extent_blocks(exts.last()));
        assert(block_list(exts).subrange(0, p.len() as int) =~= block_list(exts.drop_last()).subrange(
            0,
            p.len() as int,
        ));
    }
}

/// The id of the file's block number `k`: the `k`-th block in the
/// concatenation of the extents.
pub fn logical_block(exts: &Vec<Extent>, k: u64) -> (r: u64)
    requires
        extents_wf(exts@),
        k < sum_lengths(exts@),
    ensures
        ({
            &&& block_list(exts@).len() == sum_lengths(exts@)
            &&& r == block_list(exts@)[k as int]
        }),
{
    proof {
        lemma_block_list_len(exts@);
    }
    let mut acc: u64 = 0;
    let mut i: usize = 0;
    while i < exts.len()
        invariant
            extents_wf(exts@),
            i <= exts.len(),
            acc == sum_lengths(exts@.subrange(0, i as int)),
            acc <= k < sum_lengths(exts@),
            block_list(exts@).len() == sum_lengths(exts@),
        decreases exts.len() - i,
    {
        let e = exts[i];
        proof {
            lemma_sum_lengths_prefix(exts@, i + 1);
            assert(exts@.subrange(0, i + 1).drop_last() =~= exts@.subrange(0, i as int));
        }
        if k < acc + (e.end - e.start) {
            proof {
                let pre = exts@.subrange(0, i + 1);
                assert(pre.drop_last() =~= exts@.subrange(0, i as int));
                assert(pre.last() == e);
                assert forall|t: int| 0 <= t < pre.len() implies #[trigger] pre[t].start <= pre[t].end by {
                    assert(pre[t] == exts@[t]);
                }
                assert forall|t: int| 0 <= t < pre.drop_last().len() implies #[trigger] pre.drop_last()[t].start
                    <= pre.drop_last()[t].end by {
                    assert(pre.drop_last()[t] == exts@[t]);
                }
                lemma_block_list_len(pre);
                lemma_block_list_len(pre.drop_last());
                lemma_block_list_prefix(exts@, i + 1);
                assert(block_list(pre) == block_list(pre.drop_last()) + extent_blocks(e));
                assert(block_list(pre)[k as int] == extent_blocks(e)[k - acc]);
            }
            return e.start + (k - acc);
        }
        acc = acc + (e.end - e.start);
        i = i + 1;
    }
    proof {
        assert(exts@.subrange(0, i as int) =~= exts@);
    }
    0
}

/// Byte `j` of a block that begins at file offset `block_start`, after
/// `data` has been written at file offset `offset`.
pub open spec fn merged_byte(old: Seq<u8>, block_start: int, offset: int, data: Seq<u8>, j: int) -> u8 {
    if offset <= block_start + j < offset + data.len() {
        data[block_start + j - offset]
    } else {
        old[j]
    }
}

/// A block that begins at file offset `block_start`, after `data` has been
/// written at file offset `offset`.
pub open spec fn merged_block(old: Seq<u8>, block_start: int, offset: int, data: Seq<u8>) -> Seq<u8> {
    Seq::new(old.len(), |j: int| merged_byte(old, block_start, offset, data, j))
}

/// Whether the block that begins at `block_start` lies wholly inside the
/// written range, so that its old content is not needed.
pub open spec fn covers(block_start: int, block_size: int, offset: int, len: int) -> bool {
    offset <= block_start && block_start + block_size <= offset + len
}

/// The new content of one block touched by a write.
pub fn merge_block(old: &Vec<u8>, block_start: u64, offset: u64, data: &[u8]) -> (r: Vec<u8>)
    requires
        block_start + old@.len() <= u64::MAX,
        offset + data@.len() <= u64::MAX,
    ensures
        r@ == merged_block(old@, block_start as int, offset as int, data@),
{
    let mut r: Vec<u8> = Vec::new();
    let mut j: usize = 0;
    let end: u64 = offset + data.len() as u64;
    while j < old.len()
        invariant
            j <= old@.len(),
            block_start + old@.len() <= u64::MAX,
            end == offset + data@.len(),
            r@.len() == j,
            forall|t: int| 0 <= t < j ==> r@[t] == merged_byte(old@, block_start as int, offset as int, data@, t),
        decreases old@.len() - j,
    {
        let pos: u64 = block_start + j as u64;
        if offset <= pos && pos < end {
            r.push(data[(pos - offset) as usize]);
        } else {
            r.push(old[j]);
        }
        j = j + 1;
    }
    assert(r@ =~= merged_block(old@, block_start as int, offset as int, data@));
    r
}

/// `count` bytes taken from the concatenation of `chunks` (each
/// `block_size` long), starting at byte `skip`.
pub open spec fn assembled(chunks: Seq<Seq<u8>>, block_size: int, skip: int, count: int) -> Seq<u8> {
    Seq::new(count as nat, |j: int| chunks[(skip + j) / block_size][(skip + j) % block_size])
}

/// Copies `count` bytes out of the concatenation of `chunks`, starting at
/// byte `skip`.
pub fn assemble_read(chunks: &Vec<Vec<u8>>, block_size: u64, skip: u64, count: u64) -> (r: Vec<u8>)
    requires
        block_size > 0,
        skip + count <= chunks@.len() * block_size,
        skip + count <= u64::MAX,
        forall|i: int| 0 <= i < chunks@.len() ==> #[trigger] chunks@[i]@.len() == block_size,
    ensures
        r@ == assembled(chunks@.map_values(|c: Vec<u8>| c@), block_size as int, skip as int, count as int),
{
    let ghost views = chunks@.map_values(|c: Vec<u8>| c@);
    let mut r: Vec<u8> = Vec::new();
    let mut j: u64 = 0;
    while j < count
        invariant
            block_size > 0,
            skip + count <= chunks@.len() * block_size,
            skip + count <= u64::MAX,
            forall|i: int| 0 <= i < chunks@.len() ==> #[trigger] chunks@[i]@.len() == block_size,
            views == chunks@.map_values(|c: Vec<u8>| c@),
            j <= count,
            r@.len() == j,
            forall|t: int|
                0 <= t < j ==> r@[t] == views[(skip + t) / (block_size as int)][(skip + t) % (block_size as int)],
        decreases count - j,
    {
        let pos: u64 = skip + j;
        let b: u64 = pos / block_size;
        let o: u64 = pos % block_size;
        proof {
            lemma_fundamental_div_mod(pos as int, block_size as int);
            assert(b < chunks@.len()) by (nonlinear_arith)
                requires
                    pos == block_size * b + o,
                    0 <= o < block_size,
                    pos < chunks@.len() * block_size,
                    block_size > 0,
            ;
            assert(views[b as int] == chunks@[b as int]@);
            assert(chunks@[b as int]@.len() == block_size);
        }
        let n: usize = chunks.len();
        assert(b < n && o < block_size);
        let chunk: &Vec<u8> = &chunks[b as usize];
        let m: usize = chunk.len();
        assert(o < m);
        let byte: u8 = chunk[o as usize];
        assert(byte == chunks@[b as int]@[o as int]);
        let ghost prev = r@;
        r.push(byte);
        proof {
            assert(r@[j as int] == views[b as int][o as int]);
            assert forall|t: int| 0 <= t < j + 1 implies r@[t] == views[(skip + t) / (block_size as int)][(skip
                + t) % (block_size as int)] by {
                if t < j {
                    assert(r@[t] == prev[t]);
                }
            }
        }
        j = j + 1;
    }
    assert(r@ =~= assembled(views, block_size as int, skip as int, count as int));
    r
}

/// Reading back, at the same offset and length, the blocks that a write
/// left yields the bytes written: `new_blocks[i]` is block `first + i` of
/// the file after `data` was written at `offset`, where `first` is the
/// block that holds `offset`.
pub proof fn lemma_read_after_write(
    old_blocks: Seq<Seq<u8>>,
    block_size: int,
    offset: int,
    data: Seq<u8>,
)
    requires
        block_size > 0,
        offset >= 0,
        offset % block_size + data.len() <= old_blocks.len() * block_size,
        forall|i: int| 0 <= i < old_blocks.len() ==> #[trigger] old_blocks[i].len() == block_size,
    ensures
        ({
            let first = offset / block_size;
            let new_blocks = Seq::new(
                old_blocks.len(),
                |i: int| merged_block(old_blocks[i], (first + i) * block_size, offset, data),
            );
            assembled(new_blocks, block_size, offset % block_size, data.len() as int) == data
        }),
{
    let first = offset / block_size;
    let skip = offset % block_size;
    let new_blocks = Seq::new(
        old_blocks.len(),
        |i: int| merged_block(old_blocks[i], (first + i) * block_size, offset, data),
    );
    lemma_fundamental_div_mod(offset, block_size);
    assert forall|j: int| 0 <= j < data.len() implies #[trigger] assembled(
        new_blocks,
        block_size,
        skip,
        data.len() as int,
    )[j] == data[j] by {
        let p = skip + j;
        let i = p / block_size;
        let o = p % block_size;
        lemma_fundamental_div_mod(p, block_size);
        assert(0 <= skip);
        lemma_div_pos_is_pos(p, block_size);
        assert(i * block_size <= p < old_blocks.len() * block_size);
        assert(i < old_blocks.len()) by (nonlinear_arith)
            requires
                i * block_size < old_blocks.len() * block_size,
                block_size > 0,
        ;
        assert((first + i) * block_size + o == offset + j) by (nonlinear_arith)
            requires
                offset == block_size * first + skip,
                p == block_size * i + o,
                p == skip + j,
        ;
        assert(0 <= o < block_size);
    }
    assert(assembled(new_blocks, block_size, skip, data.len() as int) =~= data);
}

} // verus!
