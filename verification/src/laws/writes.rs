//! What a write at this site leaves behind: its row, its record in the log, and nothing else.

use vstd::prelude::*;
use vstd::utf8::*;

use crate::blockmeta;
use crate::chunking;
use crate::codec;
use crate::digest;
use crate::facts;
use crate::hashing;
use crate::laws::collection::hash_at;
use crate::rows::{FactView, ObjectView, RecordView};
use crate::storage;
use crate::store;
use crate::store::StoreError;
use crate::store::StoreView;

verus! {

/// Nothing is stored under the key, or what is stored there is older than `ts`.
pub open spec fn overtakes(
    objects: Map<(Seq<char>, Seq<char>), ObjectView>,
    k: (Seq<char>, Seq<char>),
    ts: i64,
) -> bool {
    !objects.dom().contains(k) || objects[k].updated_at < ts
}

/// The object rows of `a` and `b` are the same but for the one under `k`.
pub open spec fn same_but(
    a: Map<(Seq<char>, Seq<char>), ObjectView>,
    b: Map<(Seq<char>, Seq<char>), ObjectView>,
    k: (Seq<char>, Seq<char>),
) -> bool {
    forall|other: (Seq<char>, Seq<char>)|
        #![trigger a.dom().contains(other)]
        #![trigger b.dom().contains(other)]
        #![trigger b[other]]
        other != k ==> a.dom().contains(other) == b.dom().contains(other) && (a.dom().contains(
            other,
        ) ==> a[other] == b[other])
}

/// The log of `t` is that of `s` and one record more, under the next number.
pub open spec fn logs(s: StoreView, t: StoreView, ts: i64, fact: FactView) -> bool {
    &&& t.last_seq == s.last_seq + 1
    &&& t.log.len() == s.log.len() + 1
    &&& forall|i: int| 0 <= i < s.log.len() ==> t.log[i] == s.log[i]
    &&& t.log[s.log.len() as int].seq == s.last_seq + 1
    &&& t.log[s.log.len() as int].ts == ts
    &&& t.log[s.log.len() as int].fact == fact
}

/// A put writes the manifest of the object, and announces it. It counts where the key holds
/// nothing or something older; every other key keeps what it holds.
pub proof fn lemma_put(
    s: StoreView,
    bucket: Seq<char>,
    shard_id: i32,
    key: Seq<char>,
    hashes: Seq<Seq<u8>>,
    size: i64,
    etag: Seq<char>,
    ts: i64,
)
    requires
        s.last_seq < i64::MAX,
        forall|i: int| 0 <= i < hashes.len() ==> (#[trigger] hashes[i]).len() == 32,
    ensures
        ({
            let k = (bucket, key);
            let t = s.object_inserted(bucket, shard_id, key, hashes, size, etag, ts);
            let row = t.objects[k];
            &&& t.objects.dom().contains(k)
            &&& overtakes(s.objects, k, ts) ==> {
                &&& !row.deleted
                &&& row.size == size
                &&& row.etag == etag
                &&& row.shard_id == shard_id
                &&& row.updated_at == ts
                &&& row.blocks.len() == 32 * hashes.len()
                &&& forall|i: int|
                    0 <= i < hashes.len() ==> #[trigger] hash_at(row.blocks, i) == hashes[i]
            }
            &&& !overtakes(s.objects, k, ts) ==> row == s.objects[k]
            &&& same_but(s.objects, t.objects, k)
            &&& logs(
                s,
                t,
                ts,
                FactView::ObjectPut {
                    bucket,
                    key,
                    blocks: Seq::new(hashes.len(), |i: int| codec::hex_text(hashes[i])),
                    size,
                    etag,
                },
            )
            &&& t == (StoreView { objects: t.objects, log: t.log, last_seq: t.last_seq, ..s })
        }),
{
    store::lemma_blocks_round_trip(hashes);
    let raw = chunking::joined(hashes);
    assert forall|i: int| 0 <= i < hashes.len() implies #[trigger] hash_at(raw, i) == hashes[i] by {
        assert(store::decoded(raw)[i] == hashes[i]);
    }
    assert(store::hex_texts(hashes) =~= Seq::new(
        hashes.len(),
        |i: int| codec::hex_text(hashes[i]),
    ));
}

/// A deletion leaves a tombstone, which names no block, and announces it.
pub proof fn lemma_delete(s: StoreView, bucket: Seq<char>, key: Seq<char>, ts: i64)
    requires
        s.last_seq < i64::MAX,
    ensures
        ({
            let k = (bucket, key);
            let t = s.object_deleted(bucket, key, ts);
            let row = t.objects[k];
            &&& t.objects.dom().contains(k)
            &&& overtakes(s.objects, k, ts) ==> {
                &&& row.deleted
                &&& row.size == 0
                &&& row.etag.len() == 0
                &&& row.blocks.len() == 0
                &&& row.updated_at == ts
                &&& row.shard_id == hashing::shard_of(key)
            }
            &&& !overtakes(s.objects, k, ts) ==> row == s.objects[k]
            &&& same_but(s.objects, t.objects, k)
            &&& logs(s, t, ts, FactView::ObjectDelete { bucket, key })
            &&& t == (StoreView { objects: t.objects, log: t.log, last_seq: t.last_seq, ..s })
        }),
{
}

/// A live object is one that is stored and not deleted.
pub proof fn lemma_live(
    objects: Map<(Seq<char>, Seq<char>), ObjectView>,
    k: (Seq<char>, Seq<char>),
)
    ensures
        store::live(objects, k) == (objects.dom().contains(k) && !objects[k].deleted),
{
}

/// A manifest names its hashes in order: as many as there are whole runs of 32 bytes.
pub proof fn lemma_decoded(raw: Seq<u8>, i: int)
    ensures
        store::decoded(raw).len() == raw.len() / 32,
        0 <= i && 32 * i + 32 <= raw.len() ==> store::decoded(raw)[i] == hash_at(raw, i),
{
}

/// The shard of a key is the first byte of its digest, modulo 64.
pub proof fn lemma_shard(key: Seq<char>)
    ensures
        hashing::shard_of(key) == digest::blake3_digest(encode_utf8(key))[0] as int % 64,
        0 <= hashing::shard_of(key) < 64,
{
}

// ── several deletions ────────────────────────────────────────────────────────

/// How many deletions a log has room for.
pub open spec fn room(s: StoreView, n: nat) -> int {
    if n + s.last_seq <= i64::MAX {
        n as int
    } else {
        i64::MAX - s.last_seq
    }
}

/// DeleteObjects deletes each of the keys that it reports as deleted: none of them is live
/// afterwards, where nothing newer is stored under it. It reports all of them, as far as the log
/// has room. What was not named, or not deleted, keeps the row that it had.
pub proof fn lemma_batch_delete(
    s: StoreView,
    bucket: Seq<char>,
    keys: Seq<Seq<char>>,
    ts: i64,
)
    requires
        forall|i: int|
            0 <= i < keys.len() ==> overtakes(s.objects, (bucket, #[trigger] keys[i]), ts),
    ensures
        ({
            let n = room(s, keys.len());
            let t = storage::after_deletes(s, bucket, keys, ts);
            &&& storage::room_for(s, keys.len() as int) == n
            &&& forall|i: int|
                0 <= i < n ==> t.objects.dom().contains((bucket, #[trigger] keys[i]))
                    && t.objects[(bucket, keys[i])].deleted && t.objects[(
                    bucket,
                    keys[i],
                )].updated_at == ts && t.objects[(bucket, keys[i])].blocks.len() == 0
            &&& forall|k: (Seq<char>, Seq<char>)|
                #![trigger t.objects.dom().contains(k)]
                #![trigger t.objects[k]]
                !(k.0 == bucket && keys.take(n).contains(k.1)) ==> t.objects.dom().contains(k)
                    == s.objects.dom().contains(k) && (s.objects.dom().contains(k)
                    ==> t.objects[k] == s.objects[k])
            &&& t.last_seq == s.last_seq + n
            &&& t.log.len() == s.log.len() + n
            &&& forall|i: int| 0 <= i < s.log.len() ==> t.log[i] == s.log[i]
            &&& forall|i: int|
                0 <= i < n ==> t.log[s.log.len() + i] == (RecordView {
                    seq: (s.last_seq + i + 1) as i64,
                    ts,
                    fact: FactView::ObjectDelete { bucket, key: #[trigger] keys[i] },
                })
            &&& t == (StoreView { objects: t.objects, log: t.log, last_seq: t.last_seq, ..s })
        }),
    decreases keys.len(),
{
    if keys.len() > 0 {
        let front = keys.drop_last();
        assert forall|i: int| 0 <= i < front.len() implies overtakes(
            s.objects,
            (bucket, #[trigger] front[i]),
            ts,
        ) by {
            assert(front[i] == keys[i]);
        }
        lemma_batch_delete(s, bucket, front, ts);
        let m = room(s, front.len());
        let n = room(s, keys.len());
        let mid = storage::after_deletes(s, bucket, front, ts);
        let t = storage::after_deletes(s, bucket, keys, ts);
        if mid.last_seq == i64::MAX {
            assert(m == n);
            assert(keys.take(n) =~= front.take(m));
            assert forall|i: int| 0 <= i < n implies front[i] == #[trigger] keys[i] by {}
        } else {
            assert(n == m + 1 && m == front.len());
            let last = keys.last();
            let k = (bucket, last);
            lemma_delete(mid, bucket, last, ts);
            assert(front.take(m) =~= front);
            assert(keys.take(n) =~= keys);
            assert forall|x: Seq<char>| keys.contains(x) == (front.contains(x) || x == last) by {
                if keys.contains(x) {
                    let i = choose|i: int| 0 <= i < keys.len() && keys[i] == x;
                    if i < front.len() {
                        assert(front[i] == x);
                    }
                }
                if front.contains(x) {
                    let i = choose|i: int| 0 <= i < front.len() && front[i] == x;
                    assert(keys[i] == x);
                }
                assert(keys[keys.len() - 1] == last);
            }
            if front.contains(last) {
                let j = choose|j: int| 0 <= j < front.len() && front[j] == last;
                assert(mid.objects[(bucket, front[j])].deleted);
            } else {
                assert(mid.objects.dom().contains(k) == s.objects.dom().contains(k));
                assert(overtakes(s.objects, (bucket, keys[keys.len() - 1]), ts));
            }
            assert forall|i: int| 0 <= i < n implies t.objects.dom().contains(
                (bucket, #[trigger] keys[i]),
            ) && t.objects[(bucket, keys[i])].deleted && t.objects[(bucket, keys[i])].updated_at
                == ts && t.objects[(bucket, keys[i])].blocks.len() == 0 by {
                if i < m {
                    assert(front[i] == keys[i]);
                }
            }
            assert forall|i: int| 0 <= i < n implies t.log[s.log.len() + i] == (RecordView {
                seq: (s.last_seq + i + 1) as i64,
                ts,
                fact: FactView::ObjectDelete { bucket, key: #[trigger] keys[i] },
            }) by {
                if i < m {
                    assert(front[i] == keys[i]);
                }
            }
        }
    }
}

// ── blocks and users ─────────────────────────────────────────────────────────

/// Storing a block at this site records its size and its copy, and announces both. Each counts
/// where there is no row or an older one; copies at other sites and other blocks stay.
pub proof fn lemma_store_block(s: StoreView, hash: Seq<u8>, fid: Seq<u8>, size: i64, ts: i64)
    requires
        s.last_seq < i64::MAX,
    ensures
        ({
            let k = (hash, s.site);
            let t = s.block_stored(hash, fid, size, ts);
            &&& t.blocks.dom() == s.blocks.dom().insert(hash)
            &&& t.locations.dom() == s.locations.dom().insert(k)
            &&& !s.blocks.dom().contains(hash) || s.blocks[hash].updated_at < ts
                ==> t.blocks[hash].size == size && t.blocks[hash].updated_at == ts
            &&& s.blocks.dom().contains(hash) && s.blocks[hash].updated_at >= ts
                ==> t.blocks[hash] == s.blocks[hash]
            &&& !s.locations.dom().contains(k) || s.locations[k].updated_at < ts
                ==> t.locations[k].fid == fid && t.locations[k].updated_at == ts
            &&& s.locations.dom().contains(k) && s.locations[k].updated_at >= ts
                ==> t.locations[k] == s.locations[k]
            &&& forall|h: Seq<u8>|
                h != hash && s.blocks.dom().contains(h) ==> #[trigger] t.blocks[h] == s.blocks[h]
            &&& forall|x: (Seq<u8>, Seq<char>)|
                x != k && s.locations.dom().contains(x) ==> #[trigger] t.locations[x]
                    == s.locations[x]
            &&& logs(
                s,
                t,
                ts,
                FactView::BlockAnnounce {
                    hash: codec::hex_text(hash),
                    location_id: s.site,
                    fid: codec::hex_text(fid),
                    size,
                },
            )
            &&& t == (StoreView {
                blocks: t.blocks,
                locations: t.locations,
                log: t.log,
                last_seq: t.last_seq,
                ..s
            })
        }),
{
    let t = s.block_stored(hash, fid, size, ts);
    assert(t.blocks.dom() =~= s.blocks.dom().insert(hash));
    assert(t.locations.dom() =~= s.locations.dom().insert((hash, s.site)));
}

/// Creating a user records their secret and policy, and announces both. It counts where the
/// access key has no user or an older one; other users stay.
pub proof fn lemma_create_user(
    s: StoreView,
    access_key: Seq<char>,
    secret_key: Seq<char>,
    policy: Seq<char>,
    ts: i64,
)
    requires
        s.last_seq < i64::MAX,
    ensures
        ({
            let t = s.user_created(access_key, secret_key, policy, ts);
            &&& t.users.dom() == s.users.dom().insert(access_key)
            &&& !s.users.dom().contains(access_key) || s.users[access_key].updated_at < ts
                ==> t.users[access_key].secret_key == secret_key && t.users[access_key].policy
                == policy && t.users[access_key].updated_at == ts
            &&& s.users.dom().contains(access_key) && s.users[access_key].updated_at >= ts
                ==> t.users[access_key] == s.users[access_key]
            &&& forall|u: Seq<char>|
                u != access_key && s.users.dom().contains(u) ==> #[trigger] t.users[u] == s.users[u]
            &&& logs(s, t, ts, FactView::UserPut { access_key, secret_key, policy })
            &&& t == (StoreView { users: t.users, log: t.log, last_seq: t.last_seq, ..s })
        }),
{
    let t = s.user_created(access_key, secret_key, policy, ts);
    assert(t.users.dom() =~= s.users.dom().insert(access_key));
}

/// The administrator is made once: one that is there keeps its secret and its policy.
pub proof fn lemma_administrator(
    s: StoreView,
    after: StoreView,
    password: Seq<char>,
    policy: Seq<char>,
    ts: i64,
    r: Result<bool, StoreError>,
)
    requires
        facts::bootstrapped(s, after, password, policy, ts, r),
    ensures
        s.users.dom().contains("admin"@) ==> after == s && r == Ok::<bool, StoreError>(false),
        !s.users.dom().contains("admin"@) && s.last_seq < i64::MAX ==> {
            &&& r == Ok::<bool, StoreError>(true)
            &&& after.users.dom().contains("admin"@)
            &&& after.users["admin"@].secret_key == password
            &&& after.users["admin"@].policy == policy
            &&& after.users["admin"@].updated_at == ts
            &&& after.last_seq == s.last_seq + 1
        },
        !s.users.dom().contains("admin"@) && s.last_seq == i64::MAX ==> after == s && r == Err::<
            bool,
            StoreError,
        >(StoreError::LogFull),
{
}

/// Another site that holds a block is recorded with its own copy; the size of the block stays, and
/// so does every other location.
pub proof fn lemma_location(
    s: StoreView,
    hash: Seq<u8>,
    site: Seq<char>,
    fid: Seq<u8>,
    ts: i64,
    other: (Seq<u8>, Seq<char>),
)
    ensures
        ({
            let t = blockmeta::with_location(s, hash, site, fid, ts);
            let k = (hash, site);
            &&& t.locations.dom().contains(k)
            &&& !s.locations.dom().contains(k) || s.locations[k].updated_at < ts
                ==> t.locations[k].fid == fid && t.locations[k].updated_at == ts
            &&& s.locations.dom().contains(k) && s.locations[k].updated_at >= ts
                ==> t.locations[k] == s.locations[k]
            &&& other != k ==> t.locations.dom().contains(other) == s.locations.dom().contains(
                other,
            ) && (s.locations.dom().contains(other) ==> t.locations[other] == s.locations[other])
            &&& s.blocks.dom().contains(hash) ==> t.blocks[hash].size == s.blocks[hash].size
            &&& t == (StoreView { locations: t.locations, blocks: t.blocks, ..s })
        }),
{
}

} // verus!
