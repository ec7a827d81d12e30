//! Per-site metadata store.
//!
//! Each site owns its store; cross-site convergence is an LWW fact log layered on top. Every
//! mutating row carries an `updated_at` micros timestamp from the cluster clock. Writes are
//! last-write-wins: an incoming write only wins if its timestamp is newer than what is stored.
//!
//! A method that stamps what it writes takes the time from the clock of the store. Beside it
//! stands a method whose name ends in `_at` and which takes the time as an argument.

use std::time::SystemTime;

use vstd::prelude::*;

use crate::chunking;
use crate::clock::ClusterClock;
use crate::codec;
use crate::hashing;
use crate::lww;
use crate::rows::{
    BlockRow, Fact, FactLog, FactView, LocationRow, LocationView, NodeRow, NodeView, ObjectRow,
    ObjectView, PartRow, PartView, QueueRow, RecordView, UserRow, UserView,
};
use crate::seqs;
use crate::table::Table;

verus! {

/// The contents of a store: its tables as maps from their primary keys, and its fact log.
#[verifier::ext_equal]
pub struct StoreView {
    /// By bucket and key.
    pub objects: Map<(Seq<char>, Seq<char>), ObjectView>,
    /// By hash.
    pub blocks: Map<Seq<u8>, BlockRow>,
    /// By hash and site.
    pub locations: Map<(Seq<u8>, Seq<char>), LocationView>,
    /// By hash: the earliest time, in milliseconds, at which an orphan may be reaped.
    pub pending: Map<Seq<u8>, i64>,
    /// By access key.
    pub users: Map<Seq<char>, UserView>,
    /// The key of an upload, by bucket and upload id.
    pub uploads: Map<(Seq<char>, Seq<char>), Seq<char>>,
    /// By bucket and upload id, and part number.
    pub parts: Map<((Seq<char>, Seq<char>), i32), PartView>,
    /// By site.
    pub nodes: Map<Seq<char>, NodeView>,
    /// By target site and hash.
    pub queue: Map<(Seq<char>, Seq<u8>), QueueRow>,
    /// By peer.
    pub cursors: Map<Seq<char>, i64>,
    pub log: Seq<RecordView>,
    pub last_seq: i64,
    /// The id of this site.
    pub site: Seq<char>,
}

/// Why the store refused a request.
#[derive(PartialEq, Eq, Structural, Clone, Copy, Debug)]
pub enum StoreError {
    /// The fact log has given out its last sequence number.
    LogFull,
    /// A hash or fid in a fact is not hexadecimal.
    BadHex,
    /// A sum of sizes leaves the 64-bit range.
    SumOverflow,
}

/// Embedded metadata store.
pub struct Store {
    pub objects: Table<(String, String), ObjectRow>,
    pub blocks: Table<Vec<u8>, BlockRow>,
    pub block_locations: Table<(Vec<u8>, String), LocationRow>,
    pub pending_deletions: Table<Vec<u8>, i64>,
    pub users: Table<String, UserRow>,
    pub multipart_uploads: Table<(String, String), String>,
    pub parts: Table<((String, String), i32), PartRow>,
    pub nodes: Table<String, NodeRow>,
    pub replication_queue: Table<(String, Vec<u8>), QueueRow>,
    pub replication_cursors: Table<String, i64>,
    pub fact_log: FactLog,
    pub local_location_id: String,
    pub clock: ClusterClock,
}

impl View for Store {
    type V = StoreView;

    open spec fn view(&self) -> StoreView {
        StoreView {
            objects: self.objects@,
            blocks: self.blocks@,
            locations: self.block_locations@,
            pending: self.pending_deletions@,
            users: self.users@,
            uploads: self.multipart_uploads@,
            parts: self.parts@,
            nodes: self.nodes@,
            queue: self.replication_queue@,
            cursors: self.replication_cursors@,
            log: self.fact_log.log(),
            last_seq: self.fact_log.last(),
            site: self.local_location_id@,
        }
    }
}

// ── block hash lists ─────────────────────────────────────────────────────────

/// The 32-byte block hashes that a stored manifest names. A stray rest that is shorter than a
/// hash is dropped.
pub open spec fn decoded(raw: Seq<u8>) -> Seq<Seq<u8>> {
    Seq::new(raw.len() / 32, |i: int| raw.subrange(32 * i, 32 * i + 32))
}

/// The raw concatenation of a manifest: every block hash is exactly 32 bytes, so the
/// list splits cleanly without a length prefix.
pub fn encode_blocks(blocks: &Vec<Vec<u8>>) -> (r: Vec<u8>)
    ensures
        r@ == chunking::joined(seqs::views(blocks@)),
{
    let mut out: Vec<u8> = Vec::new();
    let mut i: usize = 0;
    let ghost all = seqs::views(blocks@);
    assert(chunking::joined(all.take(0)) =~= Seq::<u8>::empty());
    while i < blocks.len()
        invariant
            i <= blocks@.len(),
            all == seqs::views(blocks@),
            out@ == chunking::joined(all.take(i as int)),
        decreases blocks@.len() - i,
    {
        let ghost before = out@;
        out.extend_from_slice(blocks[i].as_slice());
        proof {
            assert(out@ =~= before + blocks@[i as int]@);
            assert(all.take(i + 1) =~= all.take(i as int).push(all[i as int]));
            chunking::lemma_joined_push(all.take(i as int), all[i as int]);
        }
        i += 1;
    }
    assert(all.take(all.len() as int) =~= all);
    out
}

/// The block hashes of a stored manifest.
pub fn decode_blocks(raw: &[u8]) -> (r: Vec<Vec<u8>>)
    ensures
        seqs::views(r@) == decoded(raw@),
{
    let mut out: Vec<Vec<u8>> = Vec::new();
    let len: usize = raw.len();
    let n: usize = len / 32;
    let mut i: usize = 0;
    assert(seqs::views(out@) =~= decoded(raw@).take(0));
    while i < n
        invariant
            i <= n,
            len == raw@.len(),
            n == len / 32,
            seqs::views(out@) == decoded(raw@).take(i as int),
        decreases n - i,
    {
        assert(i * 32 + 32 <= len);
        let piece = vstd::slice::slice_subrange(raw, i * 32, i * 32 + 32);
        let hash = vstd::slice::slice_to_vec(piece);
        proof {
            seqs::lemma_views_push(out@, hash);
            assert(decoded(raw@).take(i + 1) =~= decoded(raw@).take(i as int).push(hash@));
        }
        out.push(hash);
        i += 1;
    }
    assert(decoded(raw@).take(n as int) =~= decoded(raw@));
    out
}

/// All of `hashes` are 32 bytes long.
pub open spec fn block_hashes(hashes: Seq<Seq<u8>>) -> bool {
    forall|i: int| 0 <= i < hashes.len() ==> (#[trigger] hashes[i]).len() == 32
}

/// A stored manifest gives back the block hashes that it was made of.
pub proof fn lemma_blocks_round_trip(hashes: Seq<Seq<u8>>)
    requires
        block_hashes(hashes),
    ensures
        decoded(chunking::joined(hashes)) == hashes,
        chunking::joined(hashes).len() == 32 * hashes.len(),
    decreases hashes.len(),
{
    let raw = chunking::joined(hashes);
    if hashes.len() == 0 {
        assert(decoded(raw) =~= hashes);
    } else {
        let front = hashes.drop_last();
        let n = front.len() as int;
        lemma_blocks_round_trip(front);
        let head = chunking::joined(front);
        assert(raw == head + hashes.last());
        assert(hashes[n].len() == 32);
        assert(raw.len() / 32 == n + 1);
        assert forall|i: int| 0 <= i < hashes.len() implies #[trigger] decoded(raw)[i]
            == hashes[i] by {
            if i < n {
                assert(decoded(head)[i] == front[i]);
                assert(raw.subrange(32 * i, 32 * i + 32) =~= head.subrange(32 * i, 32 * i + 32));
            } else {
                assert(raw.subrange(32 * i, 32 * i + 32) =~= hashes.last());
            }
        }
        assert(decoded(raw) =~= hashes);
    }
}

// ── state transitions ────────────────────────────────────────────────────────

/// The hexadecimal texts of `hashes`.
pub open spec fn hex_texts(hashes: Seq<Seq<u8>>) -> Seq<Seq<char>> {
    hashes.map_values(|h: Seq<u8>| codec::hex_text(h))
}

/// The row of a live object.
pub open spec fn manifest(
    hashes: Seq<Seq<u8>>,
    size: i64,
    etag: Seq<char>,
    shard_id: i32,
    ts: i64,
) -> ObjectView {
    ObjectView {
        blocks: chunking::joined(hashes),
        size,
        etag,
        shard_id,
        updated_at: ts,
        deleted: false,
    }
}

/// The row of a deleted object.
pub open spec fn tombstone(key: Seq<char>, ts: i64) -> ObjectView {
    ObjectView {
        blocks: seq![],
        size: 0,
        etag: seq![],
        shard_id: hashing::shard_of(key),
        updated_at: ts,
        deleted: true,
    }
}

impl StoreView {
    /// With `fact` appended to the log.
    pub open spec fn logged(self, ts: i64, fact: FactView) -> StoreView {
        let seq = (self.last_seq + 1) as i64;
        StoreView { log: self.log.push(RecordView { seq, ts, fact }), last_seq: seq, ..self }
    }

    /// With a last-write-wins write of an object row.
    pub open spec fn with_object(
        self,
        bucket: Seq<char>,
        key: Seq<char>,
        row: ObjectView,
    ) -> StoreView {
        StoreView { objects: lww::lww(self.objects, (bucket, key), row), ..self }
    }

    /// With a last-write-wins write of a block row and of the location of a copy.
    pub open spec fn with_block(
        self,
        hash: Seq<u8>,
        location_id: Seq<char>,
        fid: Seq<u8>,
        size: i64,
        ts: i64,
    ) -> StoreView {
        StoreView {
            blocks: lww::lww(self.blocks, hash, BlockRow { size, updated_at: ts }),
            locations: lww::lww(
                self.locations,
                (hash, location_id),
                LocationView { fid, updated_at: ts },
            ),
            ..self
        }
    }

    /// With a last-write-wins write of a user row.
    pub open spec fn with_user(
        self,
        access_key: Seq<char>,
        secret_key: Seq<char>,
        policy: Seq<char>,
        ts: i64,
    ) -> StoreView {
        StoreView {
            users: lww::lww(
                self.users,
                access_key,
                UserView { secret_key, policy, updated_at: ts },
            ),
            ..self
        }
    }

    /// With a pending replication of `hash` to `target`, unless there is one already.
    pub open spec fn with_pull(self, target: Seq<char>, hash: Seq<u8>, now_ms: i64) -> StoreView {
        if self.queue.dom().contains((target, hash)) {
            self
        } else {
            StoreView {
                queue: self.queue.insert(
                    (target, hash),
                    QueueRow { next_attempt_at: 0, attempts: 0, enqueued_at: now_ms },
                ),
                ..self
            }
        }
    }

    /// After an object was stored here.
    pub open spec fn object_inserted(
        self,
        bucket: Seq<char>,
        shard_id: i32,
        key: Seq<char>,
        hashes: Seq<Seq<u8>>,
        size: i64,
        etag: Seq<char>,
        ts: i64,
    ) -> StoreView {
        self.with_object(bucket, key, manifest(hashes, size, etag, shard_id, ts)).logged(
            ts,
            FactView::ObjectPut { bucket, key, blocks: hex_texts(hashes), size, etag },
        )
    }

    /// After an object was deleted here.
    pub open spec fn object_deleted(self, bucket: Seq<char>, key: Seq<char>, ts: i64) -> StoreView {
        self.with_object(bucket, key, tombstone(key, ts)).logged(
            ts,
            FactView::ObjectDelete { bucket, key },
        )
    }

    /// After a block was stored at this site.
    pub open spec fn block_stored(
        self,
        hash: Seq<u8>,
        fid: Seq<u8>,
        size: i64,
        ts: i64,
    ) -> StoreView {
        self.with_block(hash, self.site, fid, size, ts).logged(
            ts,
            FactView::BlockAnnounce {
                hash: codec::hex_text(hash),
                location_id: self.site,
                fid: codec::hex_text(fid),
                size,
            },
        )
    }

    /// After a user was created here.
    pub open spec fn user_created(
        self,
        access_key: Seq<char>,
        secret_key: Seq<char>,
        policy: Seq<char>,
        ts: i64,
    ) -> StoreView {
        self.with_user(access_key, secret_key, policy, ts).logged(
            ts,
            FactView::UserPut { access_key, secret_key, policy },
        )
    }
}

// ── helpers ──────────────────────────────────────────────────────────────────

fn object_key(bucket: &str, key: &str) -> (r: (String, String))
    ensures
        r@ == (bucket@, key@),
{
    (bucket.to_string(), key.to_string())
}

fn hex_list(hashes: &Vec<Vec<u8>>) -> (r: Vec<String>)
    ensures
        seqs::views(r@) == hex_texts(seqs::views(hashes@)),
{
    let mut out: Vec<String> = Vec::new();
    let ghost all = hex_texts(seqs::views(hashes@));
    let mut i: usize = 0;
    assert(seqs::views(out@) =~= all.take(0));
    while i < hashes.len()
        invariant
            i <= hashes@.len(),
            all == hex_texts(seqs::views(hashes@)),
            seqs::views(out@) == all.take(i as int),
        decreases hashes@.len() - i,
    {
        let t = codec::hex_encode(hashes[i].as_slice());
        proof {
            seqs::lemma_views_push(out@, t);
            assert(all.take(i + 1) =~= all.take(i as int).push(t@));
        }
        out.push(t);
        i += 1;
    }
    assert(all.take(all.len() as int) =~= all);
    out
}

impl Store {
    /// An empty store for the site `local_location_id`.
    pub fn new(local_location_id: String, clock: ClusterClock) -> (r: Self)
        ensures
            r@ == (StoreView {
                objects: Map::empty(),
                blocks: Map::empty(),
                locations: Map::empty(),
                pending: Map::empty(),
                users: Map::empty(),
                uploads: Map::empty(),
                parts: Map::empty(),
                nodes: Map::empty(),
                queue: Map::empty(),
                cursors: Map::empty(),
                log: Seq::empty(),
                last_seq: 0,
                site: local_location_id@,
            }),
            r.clock == clock,
    {
        Store {
            objects: Table::new(),
            blocks: Table::new(),
            block_locations: Table::new(),
            pending_deletions: Table::new(),
            users: Table::new(),
            multipart_uploads: Table::new(),
            parts: Table::new(),
            nodes: Table::new(),
            replication_queue: Table::new(),
            replication_cursors: Table::new(),
            fact_log: FactLog::new(),
            local_location_id,
            clock,
        }
    }

    /// Appends a fact to this site's own log.
    fn append_fact(&mut self, ts: i64, fact: Fact)
        requires
            old(self)@.last_seq < i64::MAX,
        ensures
            final(self)@ == old(self)@.logged(ts, fact@),
            final(self).clock == old(self).clock,
    {
        self.fact_log.append(ts, fact);
    }

    // ── objects ──────────────────────────────────────────────────────────────

    /// LWW upsert of one object row (no fact logged).
    fn put_object_row(&mut self, bucket: &str, key: &str, row: ObjectRow)
        ensures
            final(self)@ == old(self)@.with_object(bucket@, key@, row@),
            final(self).clock == old(self).clock,
    {
        lww::lww_put(&mut self.objects, object_key(bucket, key), row);
    }

    /// Stores an object manifest at time `ts` and announces it. Both happen, or neither where
    /// the log is full.
    pub fn insert_object_at(
        &mut self,
        bucket: &str,
        shard_id: i32,
        key: &str,
        blocks: Vec<Vec<u8>>,
        size: i64,
        etag: &str,
        ts: i64,
    ) -> (r: Result<(), StoreError>)
        ensures
            final(self).clock == old(self).clock,
            old(self)@.last_seq == i64::MAX ==> r == Err::<(), StoreError>(StoreError::LogFull)
                && final(self)@ == old(self)@,
            old(self)@.last_seq < i64::MAX ==> r is Ok && final(self)@ == old(
                self,
            )@.object_inserted(bucket@, shard_id, key@, seqs::views(blocks@), size, etag@, ts),
    {
        if self.fact_log.last_seq() == i64::MAX {
            return Err(StoreError::LogFull);
        }
        let encoded = encode_blocks(&blocks);
        let names = hex_list(&blocks);
        self.put_object_row(
            bucket,
            key,
            ObjectRow {
                blocks: encoded,
                size,
                etag: etag.to_string(),
                shard_id,
                updated_at: ts,
                deleted: false,
            },
        );
        self.append_fact(
            ts,
            Fact::ObjectPut {
                bucket: bucket.to_string(),
                key: key.to_string(),
                blocks: names,
                size,
                etag: etag.to_string(),
            },
        );
        Ok(())
    }

    pub fn insert_object(
        &mut self,
        bucket: &str,
        shard_id: i32,
        key: &str,
        blocks: Vec<Vec<u8>>,
        size: i64,
        etag: &str,
    ) -> (r: Result<(), StoreError>)
        ensures
            final(self).clock == old(self).clock,
            old(self)@.last_seq == i64::MAX ==> r == Err::<(), StoreError>(StoreError::LogFull)
                && final(self)@ == old(self)@,
            old(self)@.last_seq < i64::MAX ==> r is Ok && exists|t: SystemTime|
                final(self)@ == old(self)@.object_inserted(
                    bucket@,
                    shard_id,
                    key@,
                    seqs::views(blocks@),
                    size,
                    etag@,
                    #[trigger] old(self).clock.micros(t),
                ),
    {
        let ts: i64 = self.clock.now_micros();
        self.insert_object_at(bucket, shard_id, key, blocks, size, etag, ts)
    }

    /// The block hashes, size and etag of a live object.
    pub fn get_object(&self, bucket: &str, key: &str) -> (r: Option<(Vec<Vec<u8>>, i64, String)>)
        ensures
            r is Some == live(self@.objects, (bucket@, key@)),
            r matches Some((hashes, size, etag)) ==> {
                let row = self@.objects[(bucket@, key@)];
                seqs::views(hashes@) == decoded(row.blocks) && size == row.size && etag@
                    == row.etag
            },
    {
        match self.objects.get(&object_key(bucket, key)) {
            Some(row) => if row.deleted {
                None
            } else {
                Some((decode_blocks(row.blocks.as_slice()), row.size, row.etag.clone()))
            },
            None => None,
        }
    }

    /// LWW delete: writes a tombstone stamped `ts` and announces it, rather than removing the
    /// row. A concurrent older put then loses on timestamp instead of resurrecting the key.
    /// The block list is cleared — a tombstone references no blocks, freeing them for GC.
    pub fn delete_object_at(&mut self, bucket: &str, key: &str, ts: i64) -> (r: Result<
        (),
        StoreError,
    >)
        ensures
            final(self).clock == old(self).clock,
            old(self)@.last_seq == i64::MAX ==> r == Err::<(), StoreError>(StoreError::LogFull)
                && final(self)@ == old(self)@,
            old(self)@.last_seq < i64::MAX ==> r is Ok && final(self)@ == old(
                self,
            )@.object_deleted(bucket@, key@, ts),
    {
        if self.fact_log.last_seq() == i64::MAX {
            return Err(StoreError::LogFull);
        }
        let shard_id: i32 = hashing::compute_shard_id(key);
        let row = ObjectRow {
            blocks: Vec::new(),
            size: 0,
            etag: String::new(),
            shard_id,
            updated_at: ts,
            deleted: true,
        };
        assert(row@ == tombstone(key@, ts)) by {
            assert(row@.blocks =~= Seq::<u8>::empty());
            assert(row@.etag =~= Seq::<char>::empty());
        }
        self.put_object_row(bucket, key, row);
        self.append_fact(
            ts,
            Fact::ObjectDelete { bucket: bucket.to_string(), key: key.to_string() },
        );
        Ok(())
    }

    pub fn delete_object(&mut self, bucket: &str, key: &str) -> (r: Result<(), StoreError>)
        ensures
            final(self).clock == old(self).clock,
            old(self)@.last_seq == i64::MAX ==> r == Err::<(), StoreError>(StoreError::LogFull)
                && final(self)@ == old(self)@,
            old(self)@.last_seq < i64::MAX ==> r is Ok && exists|t: SystemTime|
                final(self)@ == old(self)@.object_deleted(
                    bucket@,
                    key@,
                    #[trigger] old(self).clock.micros(t),
                ),
    {
        let ts: i64 = self.clock.now_micros();
        self.delete_object_at(bucket, key, ts)
    }
}

/// A live object is stored under `k`.
pub open spec fn live(
    objects: Map<(Seq<char>, Seq<char>), ObjectView>,
    k: (Seq<char>, Seq<char>),
) -> bool {
    objects.dom().contains(k) && !objects[k].deleted
}

} // verus!
