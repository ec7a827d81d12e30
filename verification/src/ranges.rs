//! Byte ranges over objects that are stored as blocks.

use bytes::Bytes;
use vstd::prelude::*;

use crate::buffers;
use crate::chunking;

verus! {

/// The range of a request.
#[derive(Debug, Clone, Copy)]
pub enum Range {
    /// From `first`, up to and including `last`, or to the end.
    Int { first: u64, last: Option<u64> },
    /// The last `length` bytes.
    Suffix { length: u64 },
}

/// The bytes that a range selects of an object of `size` bytes, as first and last position;
/// none where it cannot be satisfied.
pub open spec fn resolved(range: Range, size: int) -> Option<(int, int)> {
    match range {
        Range::Int { first, last } => {
            let end = match last {
                Some(l) => if l < size - 1 {
                    l as int
                } else {
                    size - 1
                },
                None => size - 1,
            };
            if first < size && first <= end {
                Some((first as int, end))
            } else {
                None
            }
        },
        Range::Suffix { length } => if size == 0 || length == 0 {
            None
        } else if length < size {
            Some((size - length, size - 1))
        } else {
            Some((0, size - 1))
        },
    }
}

/// Resolve an HTTP Range against a known object size into an inclusive
/// `[start, end]` byte range. Returns None when the range is unsatisfiable (the
/// caller maps that to 416 InvalidRange).
pub fn resolve_range(range: &Range, size: u64) -> (r: Option<(u64, u64)>)
    ensures
        r is Some == resolved(*range, size as int) is Some,
        r matches Some((start, end)) ==> resolved(*range, size as int) == Some(
            (start as int, end as int),
        ) && start <= end < size,
{
    if size == 0 {
        return None;
    }
    match *range {
        Range::Int { first, last } => {
            if first >= size {
                return None;
            }
            let end: u64 = match last {
                Some(l) => if l < size - 1 {
                    l
                } else {
                    size - 1
                },
                None => size - 1,
            };
            if end < first {
                return None;
            }
            Some((first, end))
        },
        Range::Suffix { length } => {
            if length == 0 {
                return None;
            }
            let len: u64 = if length < size {
                length
            } else {
                size
            };
            Some((size - len, size - 1))
        },
    }
}

/// The size of block `i`; a negative one counts as zero.
pub open spec fn size_at(sizes: Seq<i64>, i: int) -> int {
    if sizes[i] > 0 {
        sizes[i] as int
    } else {
        0
    }
}

/// Where block `n` starts.
pub open spec fn offset_of(sizes: Seq<i64>, n: int) -> int
    decreases n,
{
    if n <= 0 {
        0
    } else {
        offset_of(sizes, n - 1) + size_at(sizes, n - 1)
    }
}

/// Block `i` has bytes at or behind `start` and bytes at or before `end`.
pub open spec fn overlaps(sizes: Seq<i64>, i: int, start: int, end: int) -> bool {
    let lo = offset_of(sizes, i);
    let hi = lo + size_at(sizes, i);
    size_at(sizes, i) > 0 && hi > start && lo <= end
}

/// What a range takes of block `i`: block, bytes to skip, bytes to take.
pub open spec fn slice_of(sizes: Seq<i64>, i: int, start: int, end: int) -> (int, int, int) {
    let lo = offset_of(sizes, i);
    let hi = lo + size_at(sizes, i);
    let from = if start > lo {
        start
    } else {
        lo
    };
    let to = if end < hi - 1 {
        end
    } else {
        hi - 1
    };
    (i, from - lo, to - from + 1)
}

/// What a range takes of the first `n` blocks.
pub open spec fn slices(sizes: Seq<i64>, n: int, start: int, end: int) -> Seq<(int, int, int)>
    decreases n,
{
    if n <= 0 {
        seq![]
    } else {
        let front = slices(sizes, n - 1, start, end);
        if overlaps(sizes, n - 1, start, end) {
            front.push(slice_of(sizes, n - 1, start, end))
        } else {
            front
        }
    }
}

/// The range is not turned round within one block.
pub open spec fn sliceable(sizes: Seq<i64>, start: int, end: int) -> bool {
    start <= end || forall|i: int| 0 <= i < sizes.len() ==> !overlaps(sizes, i, start, end)
}

/// The numbers of a slice.
pub open spec fn slice_view(s: (usize, u64, u64)) -> (int, int, int) {
    (s.0 as int, s.1 as int, s.2 as int)
}

/// The numbers of a list of slices.
pub open spec fn slice_views(v: Seq<(usize, u64, u64)>) -> Seq<(int, int, int)> {
    v.map_values(|s: (usize, u64, u64)| slice_view(s))
}

/// Whether a range is in the right order wherever it meets a block.
pub fn can_slice(sizes: &[i64], start: u64, end: u64) -> (r: bool)
    ensures
        r == sliceable(sizes@, start as int, end as int),
{
    if start <= end {
        return true;
    }
    let mut offset: u128 = 0;
    let mut i: usize = 0;
    while i < sizes.len()
        invariant
            i <= sizes@.len(),
            start > end,
            offset == offset_of(sizes@, i as int),
            offset <= 0x8000_0000_0000_0000 * i,
            forall|j: int| 0 <= j < i ==> !overlaps(sizes@, j, start as int, end as int),
        decreases sizes@.len() - i,
    {
        let sz: u128 = if sizes[i] > 0 {
            sizes[i] as u128
        } else {
            0
        };
        if sz > 0 && offset + sz > start as u128 && offset <= end as u128 {
            assert(overlaps(sizes@, i as int, start as int, end as int));
            return false;
        }
        offset = offset + sz;
        i += 1;
    }
    true
}

/// Given ordered block sizes and an inclusive byte range `[start, end]`, returns
/// the blocks that overlap the range as (block_index, skip_front, take_len).
/// Blocks entirely outside the range are omitted so they are never fetched.
pub fn slice_blocks_for_range(sizes: &[i64], start: u64, end: u64) -> (r: Vec<(usize, u64, u64)>)
    requires
        sliceable(sizes@, start as int, end as int),
    ensures
        slice_views(r@) == slices(sizes@, sizes@.len() as int, start as int, end as int),
        forall|i: int| 0 <= i < r@.len() ==> (#[trigger] r@[i]).0 < sizes@.len(),
{
    let mut out: Vec<(usize, u64, u64)> = Vec::new();
    let mut offset: u128 = 0;
    let mut i: usize = 0;
    assert(slice_views(out@) =~= slices(sizes@, 0, start as int, end as int));
    while i < sizes.len()
        invariant
            i <= sizes@.len(),
            sliceable(sizes@, start as int, end as int),
            offset == offset_of(sizes@, i as int),
            offset <= 0x8000_0000_0000_0000 * i,
            slice_views(out@) == slices(sizes@, i as int, start as int, end as int),
            forall|j: int| 0 <= j < out@.len() ==> (#[trigger] out@[j]).0 < sizes@.len(),
        decreases sizes@.len() - i,
    {
        let sz: u128 = if sizes[i] > 0 {
            sizes[i] as u128
        } else {
            0
        };
        let block_start: u128 = offset;
        let block_end: u128 = offset + sz;
        offset = block_end;
        if sz > 0 && block_end > start as u128 && block_start <= end as u128 {
            assert(overlaps(sizes@, i as int, start as int, end as int));
            let from: u128 = if start as u128 > block_start {
                start as u128
            } else {
                block_start
            };
            let to: u128 = if (end as u128) < block_end - 1 {
                end as u128
            } else {
                block_end - 1
            };
            let item: (usize, u64, u64) = (
                i,
                (from - block_start) as u64,
                (to - from + 1) as u64,
            );
            proof {
                assert(slice_view(item) == slice_of(sizes@, i as int, start as int, end as int));
                assert(slice_views(out@.push(item)) =~= slice_views(out@).push(slice_view(item)));
            }
            out.push(item);
        }
        i += 1;
    }
    out
}

/// The part of `data` behind its first `skip` bytes, and of that at most `take` bytes.
pub open spec fn sliced(data: Seq<u8>, skip: int, take: Option<u64>) -> Seq<u8> {
    let rest = if skip < data.len() {
        data.skip(skip)
    } else {
        seq![]
    };
    match take {
        Some(t) => if t < rest.len() {
            rest.take(t as int)
        } else {
            rest
        },
        None => rest,
    }
}

/// Slice already-fetched block bytes for a range request. `Bytes::slice` is
/// O(1) (shared refcount), so this doesn't copy.
pub fn slice_block_bytes(data: Bytes, skip: u64, take: Option<u64>) -> (r: Bytes)
    ensures
        buffers::bytes_seq(r) == sliced(buffers::bytes_seq(data), skip as int, take),
{
    let len: usize = buffers::bytes_len(&data);
    let from: usize = if skip < len as u64 {
        skip as usize
    } else {
        len
    };
    let rest = buffers::bytes_range(&data, from, len);
    let left: usize = len - from;
    let ghost d = buffers::bytes_seq(data);
    assert(buffers::bytes_seq(rest) =~= (if skip < d.len() {
        d.skip(skip as int)
    } else {
        seq![]
    }));
    match take {
        Some(t) => {
            let to: usize = if t < left as u64 {
                t as usize
            } else {
                left
            };
            let r = buffers::bytes_range(&rest, 0, to);
            assert(buffers::bytes_seq(r) =~= sliced(d, skip as int, take));
            r
        },
        None => rest,
    }
}

// ── what a range reads ───────────────────────────────────────────────────────

/// The sizes are those of the blocks.
pub open spec fn sizes_match(sizes: Seq<i64>, blocks: Seq<Seq<u8>>) -> bool {
    &&& sizes.len() == blocks.len()
    &&& forall|i: int| 0 <= i < sizes.len() ==> #[trigger] sizes[i] == blocks[i].len()
}

/// The bytes that a list of slices takes out of the blocks.
pub open spec fn taken(blocks: Seq<Seq<u8>>, parts: Seq<(int, int, int)>) -> Seq<u8>
    decreases parts.len(),
{
    if parts.len() == 0 {
        seq![]
    } else {
        let (i, skip, take) = parts.last();
        taken(blocks, parts.drop_last()) + sliced(blocks[i], skip, Some(take as u64))
    }
}

/// The first `n` blocks end where block `n` starts.
proof fn lemma_offset(sizes: Seq<i64>, blocks: Seq<Seq<u8>>, n: int)
    requires
        sizes_match(sizes, blocks),
        0 <= n <= blocks.len(),
    ensures
        chunking::joined(blocks.take(n)).len() == offset_of(sizes, n),
    decreases n,
{
    if n > 0 {
        lemma_offset(sizes, blocks, n - 1);
        assert(blocks.take(n).drop_last() =~= blocks.take(n - 1));
        assert(sizes[n - 1] == blocks[n - 1].len());
    }
}

/// The part of `body` from `start` to `end`, as far as there is one.
pub open spec fn window(body: Seq<u8>, start: int, end: int) -> Seq<u8> {
    let to = if end + 1 < body.len() {
        end + 1
    } else {
        body.len() as int
    };
    if start < to {
        body.subrange(start, to)
    } else {
        seq![]
    }
}

proof fn lemma_slices_read(sizes: Seq<i64>, blocks: Seq<Seq<u8>>, n: int, start: int, end: int)
    requires
        sizes_match(sizes, blocks),
        0 <= n <= blocks.len(),
        0 <= start <= end,
    ensures
        taken(blocks, slices(sizes, n, start, end)) == window(
            chunking::joined(blocks.take(n)),
            start,
            end,
        ),
    decreases n,
{
    let body = chunking::joined(blocks.take(n));
    if n == 0 {
        assert(taken(blocks, slices(sizes, 0, start, end)) =~= Seq::<u8>::empty());
        assert(window(body, start, end) =~= Seq::<u8>::empty());
    } else {
        lemma_slices_read(sizes, blocks, n - 1, start, end);
        lemma_offset(sizes, blocks, n - 1);
        assert(blocks.take(n).drop_last() =~= blocks.take(n - 1));
        let front = chunking::joined(blocks.take(n - 1));
        let block = blocks[n - 1];
        assert(sizes[n - 1] == block.len());
        assert(body == front + block);
        let before = slices(sizes, n - 1, start, end);
        if overlaps(sizes, n - 1, start, end) {
            let (i, skip, take) = slice_of(sizes, n - 1, start, end);
            assert(slices(sizes, n, start, end).drop_last() =~= before);
            assert(take as u64 == take);
            assert(sliced(block, skip, Some(take as u64)) =~= block.subrange(skip, skip + take));
            assert(window(body, start, end) =~= window(front, start, end) + block.subrange(
                skip,
                skip + take,
            ));
        } else {
            assert(window(body, start, end) =~= window(front, start, end));
        }
    }
}

/// A range reads exactly its bytes: the slices of the blocks, one after the other, are the
/// bytes from `start` to `end` of the object that the blocks make up.
pub proof fn lemma_range_read(sizes: Seq<i64>, blocks: Seq<Seq<u8>>, start: int, end: int)
    requires
        sizes_match(sizes, blocks),
        0 <= start <= end < chunking::joined(blocks).len(),
    ensures
        taken(blocks, slices(sizes, sizes.len() as int, start, end)) == chunking::joined(
            blocks,
        ).subrange(start, end + 1),
{
    lemma_slices_read(sizes, blocks, sizes.len() as int, start, end);
    assert(blocks.take(blocks.len() as int) =~= blocks);
}

/// Every block that a range reads holds at least one byte of it.
pub proof fn lemma_slices_not_empty(sizes: Seq<i64>, n: int, start: int, end: int, k: int)
    requires
        0 <= n <= sizes.len(),
        0 <= start <= end,
        0 <= k < slices(sizes, n, start, end).len(),
    ensures
        ({
            let (i, skip, take) = slices(sizes, n, start, end)[k];
            &&& 0 <= i < n
            &&& 0 <= skip
            &&& take > 0
            &&& skip + take <= size_at(sizes, i)
        }),
    decreases n,
{
    if n > 0 {
        let front = slices(sizes, n - 1, start, end);
        if k < front.len() {
            lemma_slices_not_empty(sizes, n - 1, start, end, k);
            assert(slices(sizes, n, start, end)[k] == front[k]);
        }
    }
}

} // verus!
