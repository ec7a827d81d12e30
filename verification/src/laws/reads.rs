//! Reading objects: which bytes a read sends, and what it says of them.

use vstd::prelude::*;

use crate::blockmeta;
use crate::chunking;
use crate::laws::collection::hash_at;
use crate::ranges;
use crate::ranges::Range;
use crate::rows::BlockRow;
use crate::s3;
use crate::s3::{Principal, S3Code};
use crate::storage;
use crate::storage::GetOutput;
use crate::store;
use crate::store::StoreView;
use crate::text;

verus! {

// ── ranges ───────────────────────────────────────────────────────────────────

/// Some byte of an object of `size` bytes is in the range.
pub open spec fn satisfiable(range: Range, size: int) -> bool {
    match range {
        Range::Int { first, last } => first < size && (last matches Some(l) ==> first <= l),
        Range::Suffix { length } => size > 0 && length > 0,
    }
}

/// The first byte of a range.
pub open spec fn first_byte(range: Range, size: int) -> int {
    match range {
        Range::Int { first, .. } => first as int,
        Range::Suffix { length } => if length >= size {
            0
        } else {
            size - length
        },
    }
}

/// The last byte of a range: the last one asked for, or else of the object.
pub open spec fn last_byte(range: Range, size: int) -> int {
    match range {
        Range::Int { last: Some(l), .. } => if l >= size {
            size - 1
        } else {
            l as int
        },
        _ => size - 1,
    }
}

/// A range comes to the bytes of the object that it names, and to none where it names none.
pub proof fn lemma_resolved(range: Range, size: int)
    requires
        size >= 0,
    ensures
        ranges::resolved(range, size) is Some == satisfiable(range, size),
        satisfiable(range, size) ==> ranges::resolved(range, size) == Some(
            (first_byte(range, size), last_byte(range, size)),
        ) && 0 <= first_byte(range, size) <= last_byte(range, size) < size,
        satisfiable(range, size) ==> (range matches Range::Suffix { length } ==> last_byte(
            range,
            size,
        ) - first_byte(range, size) + 1 == (if length <= size {
            length as int
        } else {
            size
        })),
{
}

// ── the bytes of a read ──────────────────────────────────────────────────────

/// The parts of a body make it up one after the other.
pub proof fn lemma_joined(parts: Seq<Seq<u8>>)
    ensures
        chunking::joined(parts) == parts.flatten(),
    decreases parts.len(),
{
    parts.lemma_flatten_and_flatten_alt_are_equivalent();
    if parts.len() > 0 {
        lemma_joined(parts.drop_last());
        parts.drop_last().lemma_flatten_and_flatten_alt_are_equivalent();
    }
}

/// The bytes that one step of a plan sends, where `held` has the bytes of each hash.
pub open spec fn piece(step: (Vec<u8>, u64, Option<u64>), held: Map<Seq<u8>, Seq<u8>>) -> Seq<u8> {
    match step.2 {
        None => held[step.0@].skip(step.1 as int),
        Some(n) => held[step.0@].subrange(step.1 as int, step.1 + n),
    }
}

/// The bytes that a plan sends.
pub open spec fn sent(
    plan: Seq<(Vec<u8>, u64, Option<u64>)>,
    held: Map<Seq<u8>, Seq<u8>>,
) -> Seq<u8> {
    Seq::new(plan.len(), |i: int| piece(plan[i], held)).flatten()
}

/// Behind the end of a block there is nothing.
pub proof fn lemma_sliced_behind(data: Seq<u8>, skip: int, take: Option<u64>)
    requires
        skip >= data.len(),
    ensures
        ranges::sliced(data, skip, take).len() == 0,
{
}

/// Slicing the bytes of a block skips what is to be skipped, and takes what is to be taken of the
/// rest.
pub proof fn lemma_sliced(data: Seq<u8>, skip: int, n: u64)
    requires
        0 <= skip <= data.len(),
    ensures
        ranges::sliced(data, skip, None) == data.skip(skip),
        skip + n <= data.len() ==> ranges::sliced(data, skip, Some(n)) == data.subrange(
            skip,
            skip + n,
        ),
        skip + n > data.len() ==> ranges::sliced(data, skip, Some(n)) == data.skip(skip),
{
    assert(skip + n <= data.len() ==> data.skip(skip).take(n as int) =~= data.subrange(
        skip,
        skip + n,
    ));
    if skip == data.len() {
        assert(data.skip(skip) =~= Seq::<u8>::empty());
    }
    if skip + n == data.len() {
        assert(data.skip(skip) =~= data.subrange(skip, skip + n));
    }
}

/// The object of this row is made up of `blocks`: its manifest names them in order, their bytes
/// are held under their hashes, their sizes are on record, and its size is that of all of them.
pub open spec fn made_of(
    s: StoreView,
    k: (Seq<char>, Seq<char>),
    blocks: Seq<Seq<u8>>,
    held: Map<Seq<u8>, Seq<u8>>,
) -> bool {
    let row = s.objects[k];
    &&& row.blocks.len() == 32 * blocks.len()
    &&& row.size == blocks.flatten().len()
    &&& forall|i: int|
        0 <= i < blocks.len() ==> held[hash_at(row.blocks, i)] == #[trigger] blocks[i]
            && s.blocks.dom().contains(hash_at(row.blocks, i)) && s.blocks[hash_at(
            row.blocks,
            i,
        )].size == blocks[i].len()
}

/// A read sends exactly the bytes that it was asked for, and says how many and which they are: the
/// whole object where no range was asked for, or else the bytes of the range.
pub proof fn lemma_read(
    s: StoreView,
    bucket: Seq<char>,
    key: Seq<char>,
    range: Option<Range>,
    out: GetOutput,
    blocks: Seq<Seq<u8>>,
    held: Map<Seq<u8>, Seq<u8>>,
)
    requires
        storage::get_answer(s, bucket, key, range, out),
        made_of(s, (bucket, key), blocks, held),
        range matches Some(x) ==> satisfiable(x, blocks.flatten().len() as int),
    ensures
        out.content_length == sent(out.plan@, held).len(),
        out.e_tag@ == seq!['"'] + s.objects[(bucket, key)].etag + seq!['"'],
        match range {
            None => {
                &&& sent(out.plan@, held) == blocks.flatten()
                &&& out.content_range is None
            },
            Some(x) => {
                let size = blocks.flatten().len() as int;
                let a = first_byte(x, size);
                let z = last_byte(x, size);
                &&& sent(out.plan@, held) == blocks.flatten().subrange(a, z + 1)
                &&& out.content_length == z - a + 1
                &&& out.content_range matches Some(t) && t@ == "bytes "@ + text::decimal_text(
                    a as nat,
                ) + "-"@ + text::decimal_text(z as nat) + "/"@ + text::decimal_text(size as nat)
            },
        },
{
    let row = s.objects[(bucket, key)];
    let hashes = store::decoded(row.blocks);
    let plan = out.plan@;
    let steps = storage::steps_view(plan);
    let pieces = Seq::new(plan.len(), |i: int| piece(plan[i], held));
    assert(hashes.len() == blocks.len());
    assert forall|i: int| 0 <= i < blocks.len() implies held[#[trigger] hashes[i]] == blocks[i] by {
        assert(hashes[i] == hash_at(row.blocks, i));
    }
    reveal_strlit("\"");
    assert("\""@ =~= seq!['"']);
    assert(steps.len() == plan.len());
    match range {
        None => {
            assert(steps == storage::whole_plan(hashes));
            assert(storage::whole_plan(hashes).len() == hashes.len());
            assert forall|i: int| 0 <= i < plan.len() implies #[trigger] pieces[i] == blocks[i] by {
                assert(steps[i] == storage::step_view(plan[i]));
                assert(steps[i] == (hashes[i], 0int, None::<int>));
                assert(held[hashes[i]].skip(0) =~= blocks[i]);
            }
            assert(pieces =~= blocks);
        },
        Some(x) => {
            let size = blocks.flatten().len() as int;
            lemma_resolved(x, size);
            let a = first_byte(x, size);
            let z = last_byte(x, size);
            assert((row.size as u64) as int == size);
            let sizes = storage::sizes_of(s, hashes);
            assert forall|i: int| 0 <= i < sizes.len() implies #[trigger] sizes[i]
                == blocks[i].len() by {
                assert(hashes[i] == hash_at(row.blocks, i));
                assert(sizes[i] == blockmeta::size_of(s.blocks, hashes[i]));
                assert(held[hash_at(row.blocks, i)] == blocks[i]);
            }
            lemma_joined(blocks);
            ranges::lemma_range_read(sizes, blocks, a, z);
            let slices = ranges::slices(sizes, sizes.len() as int, a, z);
            assert(steps == storage::range_plan(hashes, sizes, a, z));
            assert(steps.len() == slices.len());
            assert forall|k: int| 0 <= k < slices.len() implies (#[trigger] slices[k]).0 >= 0
                && slices[k].0 < blocks.len() && slices[k].1 >= 0 && slices[k].2 > 0
                && slices[k].1 + slices[k].2 <= blocks[slices[k].0].len() && pieces[k]
                == blocks[slices[k].0].subrange(slices[k].1, slices[k].1 + slices[k].2)
                && slices[k].2 <= u64::MAX by {
                ranges::lemma_slices_not_empty(sizes, sizes.len() as int, a, z, k);
                assert(steps[k] == storage::step_view(plan[k]));
                assert(steps[k] == (hashes[slices[k].0], slices[k].1, Some(slices[k].2)));
                assert(sizes[slices[k].0] == blocks[slices[k].0].len());
            }
            lemma_taken(blocks, slices, pieces, slices.len() as int);
            assert(slices.take(slices.len() as int) =~= slices);
            assert(pieces.take(slices.len() as int) =~= pieces);
        },
    }
}

proof fn lemma_taken(
    blocks: Seq<Seq<u8>>,
    slices: Seq<(int, int, int)>,
    pieces: Seq<Seq<u8>>,
    n: int,
)
    requires
        0 <= n <= slices.len(),
        pieces.len() == slices.len(),
        forall|k: int|
            0 <= k < slices.len() ==> (#[trigger] slices[k]).0 >= 0 && slices[k].0 < blocks.len()
                && slices[k].1 >= 0 && slices[k].2 > 0 && slices[k].1 + slices[k].2
                <= blocks[slices[k].0].len() && pieces[k] == blocks[slices[k].0].subrange(
                slices[k].1,
                slices[k].1 + slices[k].2,
            ) && slices[k].2 <= u64::MAX,
    ensures
        ranges::taken(blocks, slices.take(n)) == pieces.take(n).flatten(),
    decreases n,
{
    pieces.take(n).lemma_flatten_and_flatten_alt_are_equivalent();
    if n > 0 {
        lemma_taken(blocks, slices, pieces, n - 1);
        pieces.take(n - 1).lemma_flatten_and_flatten_alt_are_equivalent();
        assert(slices.take(n).drop_last() =~= slices.take(n - 1));
        assert(pieces.take(n).drop_last() =~= pieces.take(n - 1));
        let t = slices[n - 1];
        assert(slices.take(n).last() == t);
        lemma_sliced(blocks[t.0], t.1, t.2 as u64);
    }
}

/// A read by someone who may read is answered with the object where it is live and the range names
/// bytes of it; a missing or deleted object, and a range beyond the object, are told apart.
pub proof fn lemma_read_refused(
    s: StoreView,
    bucket: Seq<char>,
    key: Seq<char>,
    range: Option<Range>,
)
    requires
        s.objects.dom().contains((bucket, key)) ==> s.objects[(bucket, key)].size >= 0,
    ensures
        ({
            let k = (bucket, key);
            let e = storage::get_error(s, Principal::Trusted, bucket, key, range);
            let there = s.objects.dom().contains(k) && !s.objects[k].deleted;
            &&& !there ==> (e matches Some(x) && x.code == S3Code::NoSuchKey)
            &&& there && (range matches Some(x) && !satisfiable(x, s.objects[k].size as int)) ==> (
            e matches Some(x) && x.code == S3Code::InvalidRange)
            &&& there && (range matches Some(x) ==> satisfiable(x, s.objects[k].size as int))
                ==> e is None
        }),
{
    if s.objects.dom().contains((bucket, key)) {
        match range {
            Some(x) => lemma_resolved(x, s.objects[(bucket, key)].size as int),
            None => {},
        }
    }
}

/// The recorded size of a block; zero where none is recorded.
pub proof fn lemma_size_of(blocks: Map<Seq<u8>, BlockRow>, hash: Seq<u8>)
    ensures
        blocks.dom().contains(hash) ==> blockmeta::size_of(blocks, hash) == blocks[hash].size,
        !blocks.dom().contains(hash) ==> blockmeta::size_of(blocks, hash) == 0,
{
}

// ── what a write gives up ────────────────────────────────────────────────────

/// A write gives up the blocks of the object that it replaces: all that the object names, in
/// order, where there is a live one, and none else.
pub proof fn lemma_released(
    s: StoreView,
    bucket: Seq<char>,
    key: Seq<char>,
    r: Option<s3::References>,
    i: int,
)
    requires
        storage::refers(s, bucket, key, r),
    ensures
        r is Some == (s.objects.dom().contains((bucket, key)) && !s.objects[(bucket, key)].deleted),
        r matches Some(x) ==> {
            let raw = s.objects[(bucket, key)].blocks;
            &&& x.hashes@.len() == raw.len() / 32
            &&& 0 <= i < x.hashes@.len() ==> x.hashes@[i]@ == hash_at(raw, i)
        },
{
    if let Some(x) = r {
        let v = crate::seqs::views(x.hashes@);
        assert(v == store::decoded(s.objects[(bucket, key)].blocks));
        assert(v.len() == x.hashes@.len());
        if 0 <= i < x.hashes@.len() {
            assert(v[i] == x.hashes@[i]@);
        }
    }
}

/// A block of a recorded size below zero has no bytes, and the next block starts where it does; a
/// block of any other size is followed by the next one.
pub proof fn lemma_block_starts(sizes: Seq<i64>, n: int)
    requires
        0 <= n < sizes.len(),
    ensures
        ranges::offset_of(sizes, 0) == 0,
        sizes[n] < 0 ==> ranges::offset_of(sizes, n + 1) == ranges::offset_of(sizes, n),
        sizes[n] >= 0 ==> ranges::offset_of(sizes, n + 1) == ranges::offset_of(sizes, n) + sizes[n],
{
}

/// What a range takes of a block are the bytes of the block that are in the range.
pub proof fn lemma_slice(sizes: Seq<i64>, i: int, start: int, end: int, at: int)
    requires
        0 <= i < sizes.len(),
        start <= end,
    ensures
        ({
            let lo = ranges::offset_of(sizes, i);
            let (block, skip, take) = ranges::slice_of(sizes, i, start, end);
            let inside = lo <= at < ranges::offset_of(sizes, i + 1) && start <= at <= end;
            &&& block == i
            &&& inside ==> ranges::overlaps(sizes, i, start, end)
            &&& ranges::overlaps(sizes, i, start, end) ==> (inside == (lo + skip <= at < lo + skip
                + take))
        }),
        ranges::sliceable(sizes, start, end),
{
}

} // verus!
