//! The rows of the metadata store and the facts that sites exchange.

use vstd::prelude::*;

use crate::seqs;

verus! {

/// A row with a last-write-wins timestamp.
pub trait Stamped: Sized {
    spec fn stamp(self) -> i64;
}

/// A run-time row whose view is stamped.
pub trait StampedRow: View where Self::V: Stamped {
    fn stamp_of(&self) -> (r: i64)
        ensures
            r == self@.stamp(),
    ;
}

/// An object manifest, or the tombstone of a deleted object.
pub struct ObjectRow {
    /// The 32-byte block hashes, one after the other.
    pub blocks: Vec<u8>,
    pub size: i64,
    pub etag: String,
    pub shard_id: i32,
    pub updated_at: i64,
    pub deleted: bool,
}

pub struct ObjectView {
    pub blocks: Seq<u8>,
    pub size: i64,
    pub etag: Seq<char>,
    pub shard_id: i32,
    pub updated_at: i64,
    pub deleted: bool,
}

impl View for ObjectRow {
    type V = ObjectView;

    open spec fn view(&self) -> ObjectView {
        ObjectView {
            blocks: self.blocks@,
            size: self.size,
            etag: self.etag@,
            shard_id: self.shard_id,
            updated_at: self.updated_at,
            deleted: self.deleted,
        }
    }
}

impl Stamped for ObjectView {
    open spec fn stamp(self) -> i64 {
        self.updated_at
    }
}

impl StampedRow for ObjectRow {
    fn stamp_of(&self) -> (r: i64) {
        self.updated_at
    }
}

/// Size of a block.
#[derive(Clone, Copy)]
pub struct BlockRow {
    pub size: i64,
    pub updated_at: i64,
}

impl View for BlockRow {
    type V = BlockRow;

    open spec fn view(&self) -> BlockRow {
        *self
    }
}

impl Stamped for BlockRow {
    open spec fn stamp(self) -> i64 {
        self.updated_at
    }
}

impl StampedRow for BlockRow {
    fn stamp_of(&self) -> (r: i64) {
        self.updated_at
    }
}

/// Where a block lives at one site.
pub struct LocationRow {
    pub fid: Vec<u8>,
    pub updated_at: i64,
}

pub struct LocationView {
    pub fid: Seq<u8>,
    pub updated_at: i64,
}

impl View for LocationRow {
    type V = LocationView;

    open spec fn view(&self) -> LocationView {
        LocationView { fid: self.fid@, updated_at: self.updated_at }
    }
}

impl Stamped for LocationView {
    open spec fn stamp(self) -> i64 {
        self.updated_at
    }
}

impl StampedRow for LocationRow {
    fn stamp_of(&self) -> (r: i64) {
        self.updated_at
    }
}

/// A user. The policy is kept as the JSON text that it travels as.
pub struct UserRow {
    pub secret_key: String,
    pub policy: String,
    pub updated_at: i64,
}

pub struct UserView {
    pub secret_key: Seq<char>,
    pub policy: Seq<char>,
    pub updated_at: i64,
}

impl View for UserRow {
    type V = UserView;

    open spec fn view(&self) -> UserView {
        UserView {
            secret_key: self.secret_key@,
            policy: self.policy@,
            updated_at: self.updated_at,
        }
    }
}

impl Stamped for UserView {
    open spec fn stamp(self) -> i64 {
        self.updated_at
    }
}

impl StampedRow for UserRow {
    fn stamp_of(&self) -> (r: i64) {
        self.updated_at
    }
}

/// A part of a multipart upload in progress.
pub struct PartRow {
    pub blocks: Vec<u8>,
    pub size: i64,
    pub etag: String,
}

pub struct PartView {
    pub blocks: Seq<u8>,
    pub size: i64,
    pub etag: Seq<char>,
}

impl View for PartRow {
    type V = PartView;

    open spec fn view(&self) -> PartView {
        PartView { blocks: self.blocks@, size: self.size, etag: self.etag@ }
    }
}

/// A known node.
pub struct NodeRow {
    pub api_url: String,
    pub last_heartbeat: i64,
}

pub struct NodeView {
    pub api_url: Seq<char>,
    pub last_heartbeat: i64,
}

impl View for NodeRow {
    type V = NodeView;

    open spec fn view(&self) -> NodeView {
        NodeView { api_url: self.api_url@, last_heartbeat: self.last_heartbeat }
    }
}

/// Schedule of one pending replication.
#[derive(Clone, Copy)]
pub struct QueueRow {
    pub next_attempt_at: i64,
    pub attempts: i32,
    pub enqueued_at: i64,
}

impl View for QueueRow {
    type V = QueueRow;

    open spec fn view(&self) -> QueueRow {
        *self
    }
}

// ── facts ────────────────────────────────────────────────────────────────────

/// One replicated metadata mutation. Every variant is a non-conflicting CRDT
/// operation resolved by the accompanying `ts` (last-write-wins): object manifests
/// and the user table are LWW registers, block announcements are a grow-only set,
/// and deletes are LWW tombstones. Hashes and fids travel hex-encoded.
#[derive(Clone, Debug)]
pub enum Fact {
    ObjectPut {
        bucket: String,
        key: String,
        /// Hex block hashes, in order.
        blocks: Vec<String>,
        size: i64,
        etag: String,
    },
    ObjectDelete { bucket: String, key: String },
    BlockAnnounce { hash: String, location_id: String, fid: String, size: i64 },
    UserPut { access_key: String, secret_key: String, policy: String },
}

pub enum FactView {
    ObjectPut {
        bucket: Seq<char>,
        key: Seq<char>,
        blocks: Seq<Seq<char>>,
        size: i64,
        etag: Seq<char>,
    },
    ObjectDelete { bucket: Seq<char>, key: Seq<char> },
    BlockAnnounce { hash: Seq<char>, location_id: Seq<char>, fid: Seq<char>, size: i64 },
    UserPut { access_key: Seq<char>, secret_key: Seq<char>, policy: Seq<char> },
}

impl View for Fact {
    type V = FactView;

    open spec fn view(&self) -> FactView {
        match self {
            Fact::ObjectPut { bucket, key, blocks, size, etag } => FactView::ObjectPut {
                bucket: bucket@,
                key: key@,
                blocks: seqs::views(blocks@),
                size: *size,
                etag: etag@,
            },
            Fact::ObjectDelete { bucket, key } => FactView::ObjectDelete {
                bucket: bucket@,
                key: key@,
            },
            Fact::BlockAnnounce { hash, location_id, fid, size } => FactView::BlockAnnounce {
                hash: hash@,
                location_id: location_id@,
                fid: fid@,
                size: *size,
            },
            Fact::UserPut { access_key, secret_key, policy } => FactView::UserPut {
                access_key: access_key@,
                secret_key: secret_key@,
                policy: policy@,
            },
        }
    }
}

/// A copy of a list of texts.
pub fn duplicate_texts(v: &Vec<String>) -> (r: Vec<String>)
    ensures
        seqs::views(r@) == seqs::views(v@),
{
    let mut out: Vec<String> = Vec::new();
    let mut i: usize = 0;
    while i < v.len()
        invariant
            i <= v@.len(),
            seqs::views(out@) == seqs::views(v@).take(i as int),
        decreases v@.len() - i,
    {
        let s: String = v[i].clone();
        proof {
            seqs::lemma_views_push(out@, s);
            assert(seqs::views(v@).take(i as int).push(s@) =~= seqs::views(v@).take(i + 1));
        }
        out.push(s);
        i += 1;
    }
    assert(seqs::views(v@).take(v@.len() as int) =~= seqs::views(v@));
    out
}

impl Fact {
    /// The name of the kind of fact, as the log stores it.
    pub fn kind_str(&self) -> (r: &'static str)
        ensures
            r@ == (match self@ {
                FactView::ObjectPut { .. } => "object_put"@,
                FactView::ObjectDelete { .. } => "object_delete"@,
                FactView::BlockAnnounce { .. } => "block_announce"@,
                FactView::UserPut { .. } => "user_put"@,
            }),
    {
        match self {
            Fact::ObjectPut { .. } => "object_put",
            Fact::ObjectDelete { .. } => "object_delete",
            Fact::BlockAnnounce { .. } => "block_announce",
            Fact::UserPut { .. } => "user_put",
        }
    }

    /// A second fact with the same contents.
    pub fn duplicate(&self) -> (r: Fact)
        ensures
            r@ == self@,
    {
        match self {
            Fact::ObjectPut { bucket, key, blocks, size, etag } => Fact::ObjectPut {
                bucket: bucket.clone(),
                key: key.clone(),
                blocks: duplicate_texts(blocks),
                size: *size,
                etag: etag.clone(),
            },
            Fact::ObjectDelete { bucket, key } => Fact::ObjectDelete {
                bucket: bucket.clone(),
                key: key.clone(),
            },
            Fact::BlockAnnounce { hash, location_id, fid, size } => Fact::BlockAnnounce {
                hash: hash.clone(),
                location_id: location_id.clone(),
                fid: fid.clone(),
                size: *size,
            },
            Fact::UserPut { access_key, secret_key, policy } => Fact::UserPut {
                access_key: access_key.clone(),
                secret_key: secret_key.clone(),
                policy: policy.clone(),
            },
        }
    }
}

/// A fact as served to peers: its origin-local sequence number, its LWW timestamp,
/// and the fact itself. Peers track the high-water `seq` they've consumed per peer.
#[derive(Clone, Debug)]
pub struct FactRecord {
    pub seq: i64,
    pub ts: i64,
    pub fact: Fact,
}

pub struct RecordView {
    pub seq: i64,
    pub ts: i64,
    pub fact: FactView,
}

impl View for FactRecord {
    type V = RecordView;

    open spec fn view(&self) -> RecordView {
        RecordView { seq: self.seq, ts: self.ts, fact: self.fact@ }
    }
}

/// The sequence numbers of a log ascend strictly, from one up to `last_seq`.
pub open spec fn log_ordered(log: Seq<RecordView>, last_seq: i64) -> bool {
    &&& 0 <= last_seq
    &&& forall|i: int| 0 <= i < log.len() ==> 0 < (#[trigger] log[i]).seq <= last_seq
    &&& forall|i: int, j: int|
        0 <= i < j < log.len() ==> (#[trigger] log[i]).seq < (#[trigger] log[j]).seq
}

/// The records of a log behind sequence number `after`.
pub open spec fn behind(after: i64) -> spec_fn(RecordView) -> bool {
    |r: RecordView| r.seq > after
}

/// The log of the facts that originated at this site.
pub struct FactLog {
    records: Vec<FactRecord>,
    last_seq: i64,
}

impl FactLog {
    pub closed spec fn log(&self) -> Seq<RecordView> {
        seqs::views(self.records@)
    }

    /// The highest sequence number given out so far.
    pub closed spec fn last(&self) -> i64 {
        self.last_seq
    }

    #[verifier::type_invariant]
    spec fn in_order(&self) -> bool {
        log_ordered(seqs::views(self.records@), self.last_seq)
    }

    pub fn new() -> (r: FactLog)
        ensures
            r.log() == Seq::<RecordView>::empty(),
            r.last() == 0,
    {
        let r = FactLog { records: Vec::new(), last_seq: 0 };
        assert(r.log() =~= Seq::<RecordView>::empty());
        r
    }

    /// The highest sequence number given out so far.
    pub fn last_seq(&self) -> (r: i64)
        ensures
            r == self.last(),
            r >= 0,
            log_ordered(self.log(), r),
    {
        proof {
            use_type_invariant(self);
        }
        self.last_seq
    }

    /// The number of records.
    pub fn len(&self) -> (r: usize)
        ensures
            r == self.log().len(),
    {
        self.records.len()
    }

    /// Puts a record behind the others, as it was stored. Refused where its sequence number
    /// is not behind theirs.
    pub fn restore(&mut self, record: FactRecord) -> (r: bool)
        ensures
            r == (record.seq > old(self).last()),
            r ==> final(self).log() == old(self).log().push(record@) && final(self).last()
                == record.seq,
            !r ==> *final(self) == *old(self),
    {
        proof {
            use_type_invariant(&*self);
        }
        if record.seq <= self.last_seq {
            return false;
        }
        let seq: i64 = record.seq;
        let ghost before = self.log();
        let ghost rec = record@;
        let mut records: Vec<FactRecord> = Vec::new();
        std::mem::swap(&mut records, &mut self.records);
        self.last_seq = seq;
        proof {
            seqs::lemma_views_push(records@, record);
        }
        records.push(record);
        proof {
            assert(log_ordered(before.push(rec), seq));
        }
        self.records = records;
        true
    }

    /// Appends a fact under the next sequence number.
    pub fn append(&mut self, ts: i64, fact: Fact)
        requires
            old(self).last() < i64::MAX,
        ensures
            final(self).last() == old(self).last() + 1,
            final(self).log() == old(self).log().push(
                (RecordView { seq: (old(self).last() + 1) as i64, ts, fact: fact@ }),
            ),
    {
        let seq: i64 = self.last_seq + 1;
        self.restore(FactRecord { seq, ts, fact });
    }

    /// The records behind `after`, in order, at most `limit` of them; all of them where
    /// `limit` is negative.
    pub fn since(&self, after: i64, limit: i64) -> (r: Vec<FactRecord>)
        ensures
            seqs::views(r@) == (if limit < 0 {
                self.log().filter(behind(after))
            } else {
                seqs::at_most(self.log().filter(behind(after)), limit as int)
            }),
            forall|i: int, j: int|
                0 <= i < j < r@.len() ==> (#[trigger] r@[i]).seq < (#[trigger] r@[j]).seq,
            forall|i: int| 0 <= i < r@.len() ==> (#[trigger] r@[i]).seq > after,
    {
        proof {
            use_type_invariant(self);
        }
        let ghost all = self.log();
        let ghost p = behind(after);
        let mut out: Vec<FactRecord> = Vec::new();
        let mut i: usize = 0;
        proof {
            seqs::lemma_filter_none(all, p);
            assert(seqs::views(out@) =~= all.take(0).filter(p));
        }
        while i < self.records.len() && (limit < 0 || (out.len() as u64) < limit as u64)
            invariant
                i <= self.records@.len(),
                all == self.log(),
                p == behind(after),
                log_ordered(all, self.last_seq),
                seqs::views(out@) == all.take(i as int).filter(p),
                limit >= 0 ==> out@.len() <= limit,
                forall|x: int, y: int|
                    0 <= x < y < out@.len() ==> (#[trigger] out@[x]).seq < (#[trigger] out@[y]).seq,
                forall|x: int|
                    0 <= x < out@.len() ==> after < (#[trigger] out@[x]).seq,
                forall|x: int, y: int|
                    0 <= x < out@.len() && i <= y < all.len() ==> (#[trigger] out@[x]).seq < (
                    #[trigger] all[y]).seq,
            decreases self.records@.len() - i,
        {
            let rec = &self.records[i];
            proof {
                seqs::lemma_filter_take(all, p, i as int);
                assert(all[i as int] == rec@);
            }
            if rec.seq > after {
                let copy = FactRecord { seq: rec.seq, ts: rec.ts, fact: rec.fact.duplicate() };
                proof {
                    seqs::lemma_views_push(out@, copy);
                }
                out.push(copy);
            }
            i += 1;
        }
        proof {
            let full = all.filter(p);
            assert(all.take(i as int) + all.skip(i as int) =~= all);
            Seq::filter_distributes_over_add(all.take(i as int), all.skip(i as int), p);
            if i == all.len() {
                assert(all.take(i as int) =~= all);
            }
            assert(full.take(out@.len() as int) =~= seqs::views(out@));
        }
        out
    }
}

} // verus!
