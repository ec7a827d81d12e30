//! What a read gives back of a write.

use vstd::prelude::*;

use crate::blockmeta;
use crate::chunking;
use crate::gc;
use crate::multipart::PartInfo;
use crate::parts;
use crate::ranges;
use crate::rows::ObjectView;
use crate::storage;
use crate::storage::Step;
use crate::store;
use crate::store::StoreView;
use crate::upload;

verus! {

/// The bytes that one step of a plan reads, where `held` gives the bytes of each hash.
pub open spec fn read_step(step: Step, held: Map<Seq<u8>, Seq<u8>>) -> Seq<u8> {
    ranges::sliced(
        held[step.0],
        step.1,
        match step.2 {
            Some(n) => Some(n as u64),
            None => None,
        },
    )
}

/// The bytes that a plan reads.
pub open spec fn read(plan: Seq<Step>, held: Map<Seq<u8>, Seq<u8>>) -> Seq<u8>
    decreases plan.len(),
{
    if plan.len() == 0 {
        seq![]
    } else {
        read(plan.drop_last(), held) + read_step(plan.last(), held)
    }
}

/// The bytes of all blocks are held under their digests.
pub open spec fn all_held(held: Map<Seq<u8>, Seq<u8>>, blocks: Seq<Seq<u8>>) -> bool {
    forall|i: int| 0 <= i < blocks.len() ==> held[upload::digests(blocks)[i]] == #[trigger] blocks[i]
}

/// A write at `ts` under this key is the newest there is.
pub open spec fn newest(
    objects: Map<(Seq<char>, Seq<char>), ObjectView>,
    k: (Seq<char>, Seq<char>),
    ts: i64,
) -> bool {
    objects.dom().contains(k) ==> objects[k].updated_at < ts
}

/// The whole of an object reads as its blocks, one after the other.
pub proof fn lemma_whole_read(blocks: Seq<Seq<u8>>, held: Map<Seq<u8>, Seq<u8>>)
    requires
        all_held(held, blocks),
    ensures
        read(storage::whole_plan(upload::digests(blocks)), held) == chunking::joined(blocks),
    decreases blocks.len(),
{
    let plan = storage::whole_plan(upload::digests(blocks));
    if blocks.len() == 0 {
        assert(read(plan, held) =~= chunking::joined(blocks));
    } else {
        let front = blocks.drop_last();
        assert forall|i: int| 0 <= i < front.len() implies held[upload::digests(front)[i]]
            == #[trigger] front[i] by {
            assert(upload::digests(front)[i] == upload::digests(blocks)[i]);
            assert(held[upload::digests(blocks)[i]] == blocks[i]);
        }
        lemma_whole_read(front, held);
        assert(plan.drop_last() =~= storage::whole_plan(upload::digests(front)));
        let n = blocks.len() - 1;
        assert(held[upload::digests(blocks)[n]] == blocks[n]);
        assert(read_step(plan.last(), held) =~= blocks.last());
    }
}

proof fn lemma_plan_takes(
    blocks: Seq<Seq<u8>>,
    held: Map<Seq<u8>, Seq<u8>>,
    slices: Seq<(int, int, int)>,
    plan: Seq<Step>,
)
    requires
        all_held(held, blocks),
        plan.len() == slices.len(),
        forall|k: int|
            0 <= k < slices.len() ==> 0 <= (#[trigger] slices[k]).0 < blocks.len() && plan[k] == (
                upload::digests(blocks)[slices[k].0],
                slices[k].1,
                Some(slices[k].2),
            ),
    ensures
        read(plan, held) == ranges::taken(blocks, slices),
    decreases plan.len(),
{
    if plan.len() > 0 {
        let n = plan.len() - 1;
        let a = slices.drop_last();
        let b = plan.drop_last();
        assert forall|k: int| 0 <= k < a.len() implies 0 <= (#[trigger] a[k]).0 < blocks.len()
            && b[k] == (upload::digests(blocks)[a[k].0], a[k].1, Some(a[k].2)) by {
            assert(a[k] == slices[k]);
        }
        lemma_plan_takes(blocks, held, a, b);
        assert(slices[n] == slices.last());
        assert(held[upload::digests(blocks)[slices[n].0]] == blocks[slices[n].0]);
    }
}

/// A range of an object reads as exactly those bytes.
pub proof fn lemma_part_read(
    blocks: Seq<Seq<u8>>,
    sizes: Seq<i64>,
    held: Map<Seq<u8>, Seq<u8>>,
    start: int,
    end: int,
)
    requires
        all_held(held, blocks),
        ranges::sizes_match(sizes, blocks),
        0 <= start <= end < chunking::joined(blocks).len(),
    ensures
        read(storage::range_plan(upload::digests(blocks), sizes, start, end), held)
            == chunking::joined(blocks).subrange(start, end + 1),
{
    let slices = ranges::slices(sizes, sizes.len() as int, start, end);
    let plan = storage::range_plan(upload::digests(blocks), sizes, start, end);
    assert forall|k: int| 0 <= k < slices.len() implies 0 <= (#[trigger] slices[k]).0
        < blocks.len() && plan[k] == (
        upload::digests(blocks)[slices[k].0],
        slices[k].1,
        Some(slices[k].2),
    ) by {
        ranges::lemma_slices_not_empty(sizes, sizes.len() as int, start, end, k);
    }
    lemma_plan_takes(blocks, held, slices, plan);
    ranges::lemma_range_read(sizes, blocks, start, end);
}

/// What was put is what is got: after the newest write of a key, the key is live, its manifest
/// names the blocks of the body in order, with its size and etag, and reading them gives the
/// body back.
pub proof fn lemma_put_then_get(
    s: StoreView,
    bucket: Seq<char>,
    shard_id: i32,
    key: Seq<char>,
    blocks: Seq<Seq<u8>>,
    size: i64,
    etag: Seq<char>,
    ts: i64,
    held: Map<Seq<u8>, Seq<u8>>,
)
    requires
        store::block_hashes(upload::digests(blocks)),
        newest(s.objects, (bucket, key), ts),
        all_held(held, blocks),
    ensures
        ({
            let t = s.object_inserted(
                bucket,
                shard_id,
                key,
                upload::digests(blocks),
                size,
                etag,
                ts,
            );
            let row = t.objects[(bucket, key)];
            &&& store::live(t.objects, (bucket, key))
            &&& row.size == size
            &&& row.etag == etag
            &&& store::decoded(row.blocks) == upload::digests(blocks)
            &&& read(storage::whole_plan(store::decoded(row.blocks)), held) == chunking::joined(
                blocks,
            )
        }),
{
    store::lemma_blocks_round_trip(upload::digests(blocks));
    lemma_whole_read(blocks, held);
}

/// A range of what was put is that range of the body.
pub proof fn lemma_put_then_get_range(
    s: StoreView,
    bucket: Seq<char>,
    shard_id: i32,
    key: Seq<char>,
    blocks: Seq<Seq<u8>>,
    size: i64,
    etag: Seq<char>,
    ts: i64,
    held: Map<Seq<u8>, Seq<u8>>,
    start: int,
    end: int,
)
    requires
        store::block_hashes(upload::digests(blocks)),
        newest(s.objects, (bucket, key), ts),
        all_held(held, blocks),
        ranges::sizes_match(storage::sizes_of(s, upload::digests(blocks)), blocks),
        0 <= start <= end < chunking::joined(blocks).len(),
    ensures
        ({
            let t = s.object_inserted(
                bucket,
                shard_id,
                key,
                upload::digests(blocks),
                size,
                etag,
                ts,
            );
            let hashes = store::decoded(t.objects[(bucket, key)].blocks);
            read(storage::range_plan(hashes, storage::sizes_of(t, hashes), start, end), held)
                == chunking::joined(blocks).subrange(start, end + 1)
        }),
{
    let hashes = upload::digests(blocks);
    store::lemma_blocks_round_trip(hashes);
    let t = s.object_inserted(bucket, shard_id, key, hashes, size, etag, ts);
    assert(storage::sizes_of(t, hashes) =~= storage::sizes_of(s, hashes));
    lemma_part_read(blocks, storage::sizes_of(s, hashes), held, start, end);
}

/// A block that was stored here is held here, with its size.
pub proof fn lemma_stored_block_held(
    s: StoreView,
    hash: Seq<u8>,
    fid: Seq<u8>,
    size: i64,
    ts: i64,
)
    requires
        !s.blocks.dom().contains(hash),
        !s.locations.dom().contains((hash, s.site)),
    ensures
        ({
            let t = s.block_stored(hash, fid, size, ts);
            &&& blockmeta::size_of(t.blocks, hash) == size
            &&& t.locations.dom().contains((hash, s.site))
            &&& t.locations[(hash, s.site)].fid == fid
        }),
{
}

/// Identical data is stored once: storing a block that is here already, under whatever fid and
/// at whatever time, adds neither a block nor a copy.
pub proof fn lemma_stored_once(
    s: StoreView,
    hash: Seq<u8>,
    fid: Seq<u8>,
    size: i64,
    ts: i64,
    again_fid: Seq<u8>,
    again_size: i64,
    again_ts: i64,
)
    ensures
        ({
            let once = s.block_stored(hash, fid, size, ts);
            let twice = once.block_stored(hash, again_fid, again_size, again_ts);
            twice.blocks.dom() == once.blocks.dom() && twice.locations.dom()
                == once.locations.dom()
        }),
{
    let once = s.block_stored(hash, fid, size, ts);
    let twice = once.block_stored(hash, again_fid, again_size, again_ts);
    assert(twice.blocks.dom() =~= once.blocks.dom());
    assert(twice.locations.dom() =~= once.locations.dom());
}

/// After the newest write is a deletion, the key is gone.
pub proof fn lemma_delete_then_get(s: StoreView, bucket: Seq<char>, key: Seq<char>, ts: i64)
    requires
        newest(s.objects, (bucket, key), ts),
    ensures
        !store::live(s.object_deleted(bucket, key, ts).objects, (bucket, key)),
{
}

/// A put protects the blocks that it names: no sweep reaps one of them.
pub proof fn lemma_put_protects(
    s: StoreView,
    bucket: Seq<char>,
    shard_id: i32,
    key: Seq<char>,
    hashes: Seq<Seq<u8>>,
    size: i64,
    etag: Seq<char>,
    ts: i64,
    i: int,
    now_ms: i64,
    grace_seconds: u64,
    force: bool,
)
    requires
        store::block_hashes(hashes),
        newest(s.objects, (bucket, key), ts),
        0 <= i < hashes.len(),
        s.locations.dom().contains((hashes[i], s.site)),
    ensures
        s.object_inserted(bucket, shard_id, key, hashes, size, etag, ts).swept(
            now_ms,
            grace_seconds,
            force,
        ).locations.dom().contains((hashes[i], s.site)),
{
    let t = s.object_inserted(bucket, shard_id, key, hashes, size, etag, ts);
    store::lemma_blocks_round_trip(hashes);
    assert(store::live(t.objects, (bucket, key)));
    assert(store::decoded(t.objects[(bucket, key)].blocks).contains(hashes[i]));
    assert(blockmeta::named_by_object(t.objects, hashes[i]));
    gc::lemma_live_block_survives(t, hashes[i], now_ms, grace_seconds, force);
}

/// A copy reads like its source: it has the manifest of the source.
pub proof fn lemma_copy_shares_blocks(
    s: StoreView,
    source: (Seq<char>, Seq<char>),
    bucket: Seq<char>,
    shard_id: i32,
    key: Seq<char>,
    ts: i64,
)
    requires
        newest(s.objects, (bucket, key), ts),
    ensures
        ({
            let row = s.objects[source];
            let t = s.object_inserted(
                bucket,
                shard_id,
                key,
                store::decoded(row.blocks),
                row.size,
                row.etag,
                ts,
            );
            let copy = t.objects[(bucket, key)];
            &&& store::live(t.objects, (bucket, key))
            &&& store::decoded(copy.blocks) == store::decoded(row.blocks)
            &&& copy.size == row.size
            &&& copy.etag == row.etag
        }),
{
    let row = s.objects[source];
    store::lemma_blocks_round_trip(store::decoded(row.blocks));
}

/// The blocks of several bodies, one body after the other.
pub open spec fn flattened(bodies: Seq<Seq<Seq<u8>>>) -> Seq<Seq<u8>>
    decreases bodies.len(),
{
    if bodies.len() == 0 {
        seq![]
    } else {
        flattened(bodies.drop_last()) + bodies.last()
    }
}

/// The bodies, one after the other.
pub open spec fn bodies_joined(bodies: Seq<Seq<Seq<u8>>>) -> Seq<u8>
    decreases bodies.len(),
{
    if bodies.len() == 0 {
        seq![]
    } else {
        bodies_joined(bodies.drop_last()) + chunking::joined(bodies.last())
    }
}

/// An object that was put together reads as its parts in the order of their numbers: its
/// blocks are those of the parts, and they make up the bodies of the parts.
pub proof fn lemma_parts_read_in_order(infos: Seq<PartInfo>, bodies: Seq<Seq<Seq<u8>>>)
    requires
        infos.len() == bodies.len(),
        forall|i: int|
            0 <= i < infos.len() ==> (#[trigger] infos[i]).blocks == upload::digests(bodies[i]),
    ensures
        parts::all_blocks(infos) == upload::digests(flattened(bodies)),
        chunking::joined(flattened(bodies)) == bodies_joined(bodies),
    decreases infos.len(),
{
    if infos.len() == 0 {
        assert(parts::all_blocks(infos) =~= upload::digests(flattened(bodies)));
        assert(chunking::joined(flattened(bodies)) =~= bodies_joined(bodies));
    } else {
        let a = infos.drop_last();
        let b = bodies.drop_last();
        let n = infos.len() - 1;
        assert forall|i: int| 0 <= i < a.len() implies (#[trigger] a[i]).blocks
            == upload::digests(b[i]) by {
            assert(a[i] == infos[i]);
        }
        lemma_parts_read_in_order(a, b);
        assert(infos[n].blocks == upload::digests(bodies[n]));
        assert(upload::digests(flattened(bodies)) =~= upload::digests(flattened(b))
            + upload::digests(bodies.last()));
        chunking::lemma_joined_add(flattened(b), bodies.last());
    }
}

} // verus!
