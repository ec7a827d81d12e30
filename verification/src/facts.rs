//! Replaying facts: how a site merges what its peers wrote.

use std::time::SystemTime;

use vstd::prelude::*;

use crate::blockmeta;
use crate::codec;
use crate::hashing;
use crate::lww;
use crate::rows;
use crate::rows::{
    BlockRow, Fact, FactRecord, FactView, LocationView, ObjectRow, ObjectView, RecordView, UserRow,
    UserView,
};
use crate::seqs;
use crate::store;
use crate::store::{Store, StoreError, StoreView};
use crate::table;
use crate::text;

verus! {

/// All of `texts` are hexadecimal.
pub open spec fn all_hex(texts: Seq<Seq<char>>) -> bool {
    forall|i: int| 0 <= i < texts.len() ==> codec::is_hex(#[trigger] texts[i])
}

/// The byte strings that `texts` stand for.
pub open spec fn all_hex_bytes(texts: Seq<Seq<char>>) -> Seq<Seq<u8>> {
    texts.map_values(|t: Seq<char>| codec::hex_bytes(t))
}

/// The hashes and fids of a fact are hexadecimal.
pub open spec fn readable(fact: FactView) -> bool {
    match fact {
        FactView::ObjectPut { blocks, .. } => all_hex(blocks),
        FactView::ObjectDelete { .. } => true,
        FactView::BlockAnnounce { hash, fid, .. } => codec::is_hex(hash) && codec::is_hex(fid),
        FactView::UserPut { .. } => true,
    }
}

impl StoreView {
    /// After a peer's fact was merged at time `now_ms`. An announcement of a block that this
    /// site does not hold also queues a pull of a copy.
    pub open spec fn fact_applied(self, rec: RecordView, now_ms: i64) -> StoreView {
        let ts = rec.ts;
        match rec.fact {
            FactView::ObjectPut { bucket, key, blocks, size, etag } => self.with_object(
                bucket,
                key,
                store::manifest(all_hex_bytes(blocks), size, etag, hashing::shard_of(key), ts),
            ),
            FactView::ObjectDelete { bucket, key } => self.with_object(
                bucket,
                key,
                store::tombstone(key, ts),
            ),
            FactView::BlockAnnounce { hash, location_id, fid, size } => {
                let h = codec::hex_bytes(hash);
                let s = self.with_block(h, location_id, codec::hex_bytes(fid), size, ts);
                if !s.locations.dom().contains((h, self.site)) && location_id != self.site {
                    s.with_pull(self.site, h, now_ms)
                } else {
                    s
                }
            },
            FactView::UserPut { access_key, secret_key, policy } => self.with_user(
                access_key,
                secret_key,
                policy,
                ts,
            ),
        }
    }

    /// With the cursor of a peer advanced to `last_seq`. It never moves backward.
    pub open spec fn with_cursor(self, peer: Seq<char>, last_seq: i64) -> StoreView {
        if self.cursors.dom().contains(peer) && last_seq <= self.cursors[peer] {
            self
        } else {
            StoreView { cursors: self.cursors.insert(peer, last_seq), ..self }
        }
    }

    /// Last consumed seq for a peer's fact log; 0 if never synced.
    pub open spec fn cursor(self, peer: Seq<char>) -> i64 {
        if self.cursors.dom().contains(peer) {
            self.cursors[peer]
        } else {
            0
        }
    }
}

/// The byte strings that `texts` stand for, where all of them are hexadecimal.
fn decode_all(texts: &Vec<String>) -> (r: Option<Vec<Vec<u8>>>)
    ensures
        r is Some == all_hex(seqs::views(texts@)),
        r matches Some(v) ==> seqs::views(v@) == all_hex_bytes(seqs::views(texts@)),
{
    let ghost all = all_hex_bytes(seqs::views(texts@));
    let mut out: Vec<Vec<u8>> = Vec::new();
    let mut i: usize = 0;
    assert(seqs::views(out@) =~= all.take(0));
    while i < texts.len()
        invariant
            i <= texts@.len(),
            all == all_hex_bytes(seqs::views(texts@)),
            forall|j: int| 0 <= j < i ==> codec::is_hex(#[trigger] seqs::views(texts@)[j]),
            seqs::views(out@) == all.take(i as int),
        decreases texts@.len() - i,
    {
        assert(seqs::views(texts@)[i as int] == texts@[i as int]@);
        match codec::hex_decode(texts[i].as_str()) {
            Some(b) => {
                proof {
                    seqs::lemma_views_push(out@, b);
                    assert(all.take(i + 1) =~= all.take(i as int).push(b@));
                }
                out.push(b);
            },
            None => {
                return None;
            },
        }
        i += 1;
    }
    assert(all.take(all.len() as int) =~= all);
    Some(out)
}

impl Store {
    /// This site's own-originated facts with `seq > after`, in order, bounded.
    /// Served to peers, who replay them into their own stores.
    pub fn facts_since(&self, after: i64, limit: i64) -> (r: Vec<FactRecord>)
        ensures
            seqs::views(r@) == log_page(self@.log, after, limit),
            forall|i: int, j: int|
                0 <= i < j < r@.len() ==> (#[trigger] r@[i]).seq < (#[trigger] r@[j]).seq,
            forall|i: int| 0 <= i < r@.len() ==> (#[trigger] r@[i]).seq > after,
    {
        self.fact_log.since(after, limit)
    }

    /// Last consumed seq for a peer's fact log; 0 if never synced.
    pub fn get_cursor(&self, peer: &str) -> (r: i64)
        ensures
            r == self@.cursor(peer@),
    {
        match self.replication_cursors.get(&peer.to_string()) {
            Some(seq) => *seq,
            None => 0,
        }
    }

    /// Advances a peer's cursor (monotonic — never moves backward).
    pub fn set_cursor(&mut self, peer: &str, last_seq: i64)
        ensures
            final(self)@ == old(self)@.with_cursor(peer@, last_seq),
            final(self).clock == old(self).clock,
    {
        let k = peer.to_string();
        let advances = match self.replication_cursors.get(&k) {
            Some(seq) => last_seq > *seq,
            None => true,
        };
        if advances {
            self.replication_cursors.insert(k, last_seq);
        }
    }

    /// LWW upsert of one user row (no fact logged).
    fn put_user_row(&mut self, access_key: &str, secret_key: &str, policy_json: &str, ts: i64)
        ensures
            final(self)@ == old(self)@.with_user(access_key@, secret_key@, policy_json@, ts),
            final(self).clock == old(self).clock,
    {
        lww::lww_put(
            &mut self.users,
            access_key.to_string(),
            UserRow {
                secret_key: secret_key.to_string(),
                policy: policy_json.to_string(),
                updated_at: ts,
            },
        );
    }

    /// Applies a peer-originated fact with LWW merge, at time `now_ms`. Does NOT append to
    /// our own fact log (each site pulls from every other site directly, so re-logging
    /// would fan out duplicates). For an announcement of a block we don't yet
    /// hold, enqueues a self-pull so the drainer fetches a local copy.
    pub fn apply_fact_at(&mut self, rec: &FactRecord, now_ms: i64) -> (r: Result<(), StoreError>)
        ensures
            final(self).clock == old(self).clock,
            readable(rec.fact@) ==> r is Ok && final(self)@ == old(self)@.fact_applied(
                rec@,
                now_ms,
            ),
            !readable(rec.fact@) ==> r == Err::<(), StoreError>(StoreError::BadHex)
                && final(self)@ == old(self)@,
    {
        let ts: i64 = rec.ts;
        match &rec.fact {
            Fact::ObjectPut { bucket, key, blocks, size, etag } => {
                match decode_all(blocks) {
                    Some(decoded) => {
                        let encoded = store::encode_blocks(&decoded);
                        let shard_id: i32 = hashing::compute_shard_id(key.as_str());
                        let row = ObjectRow {
                            blocks: encoded,
                            size: *size,
                            etag: etag.clone(),
                            shard_id,
                            updated_at: ts,
                            deleted: false,
                        };
                        lww::lww_put(&mut self.objects, (bucket.clone(), key.clone()), row);
                        Ok(())
                    },
                    None => Err(StoreError::BadHex),
                }
            },
            Fact::ObjectDelete { bucket, key } => {
                let shard_id: i32 = hashing::compute_shard_id(key.as_str());
                let row = ObjectRow {
                    blocks: Vec::new(),
                    size: 0,
                    etag: String::new(),
                    shard_id,
                    updated_at: ts,
                    deleted: true,
                };
                assert(row@ == store::tombstone(key@, ts)) by {
                    assert(row@.blocks =~= Seq::<u8>::empty());
                    assert(row@.etag =~= Seq::<char>::empty());
                }
                lww::lww_put(&mut self.objects, (bucket.clone(), key.clone()), row);
                Ok(())
            },
            Fact::BlockAnnounce { hash, location_id, fid, size } => {
                let hash_b = match codec::hex_decode(hash.as_str()) {
                    Some(b) => b,
                    None => {
                        return Err(StoreError::BadHex);
                    },
                };
                let fid_b = match codec::hex_decode(fid.as_str()) {
                    Some(b) => b,
                    None => {
                        return Err(StoreError::BadHex);
                    },
                };
                self.upsert_block_location(
                    hash_b.as_slice(),
                    location_id.as_str(),
                    fid_b.as_slice(),
                    *size,
                    ts,
                );
                let have_local = self.get_local_block_fid(hash_b.as_slice()).is_some();
                let need_pull = !have_local && !text::same_text(
                    location_id.as_str(),
                    self.local_location_id.as_str(),
                );
                if need_pull {
                    let ghost mid = self@;
                    let mut targets: Vec<String> = Vec::new();
                    targets.push(self.local_location_id.clone());
                    proof {
                        let t = seqs::views(targets@);
                        assert(t.drop_last() =~= Seq::<Seq<char>>::empty());
                        assert(t.last() == mid.site);
                        reveal_with_fuel(StoreView::with_pulls, 2);
                    }
                    self.enqueue_replication_at(hash_b.as_slice(), &targets, now_ms);
                }
                Ok(())
            },
            Fact::UserPut { access_key, secret_key, policy } => {
                self.put_user_row(access_key.as_str(), secret_key.as_str(), policy.as_str(), ts);
                Ok(())
            },
        }
    }

    pub fn apply_fact(&mut self, rec: &FactRecord) -> (r: Result<(), StoreError>)
        ensures
            final(self).clock == old(self).clock,
            readable(rec.fact@) ==> r is Ok && exists|t: SystemTime|
                final(self)@ == old(self)@.fact_applied(
                    rec@,
                    #[trigger] old(self).clock.millis(t),
                ),
            !readable(rec.fact@) ==> r == Err::<(), StoreError>(StoreError::BadHex)
                && final(self)@ == old(self)@,
    {
        let now: i64 = self.clock.now_millis();
        self.apply_fact_at(rec, now)
    }

    /// Creates a user at time `ts` and announces it.
    pub fn create_user_at(
        &mut self,
        access_key: &str,
        secret_key: &str,
        policy_json: &str,
        ts: i64,
    ) -> (r: Result<(), StoreError>)
        ensures
            final(self).clock == old(self).clock,
            old(self)@.last_seq == i64::MAX ==> r == Err::<(), StoreError>(StoreError::LogFull)
                && final(self)@ == old(self)@,
            old(self)@.last_seq < i64::MAX ==> r is Ok && final(self)@ == old(self)@.user_created(
                access_key@,
                secret_key@,
                policy_json@,
                ts,
            ),
    {
        if self.fact_log.last_seq() == i64::MAX {
            return Err(StoreError::LogFull);
        }
        self.put_user_row(access_key, secret_key, policy_json, ts);
        self.fact_log.append(
            ts,
            Fact::UserPut {
                access_key: access_key.to_string(),
                secret_key: secret_key.to_string(),
                policy: policy_json.to_string(),
            },
        );
        Ok(())
    }

    pub fn create_user(&mut self, access_key: &str, secret_key: &str, policy_json: &str) -> (r:
        Result<(), StoreError>)
        ensures
            final(self).clock == old(self).clock,
            old(self)@.last_seq == i64::MAX ==> r == Err::<(), StoreError>(StoreError::LogFull)
                && final(self)@ == old(self)@,
            old(self)@.last_seq < i64::MAX ==> r is Ok && exists|t: SystemTime|
                final(self)@ == old(self)@.user_created(
                    access_key@,
                    secret_key@,
                    policy_json@,
                    #[trigger] old(self).clock.micros(t),
                ),
    {
        let ts: i64 = self.clock.now_micros();
        self.create_user_at(access_key, secret_key, policy_json, ts)
    }

    /// Creates the user `admin` at time `ts`, where there is none yet. Says whether it did.
    pub fn bootstrap_admin_user_at(&mut self, password: &str, policy_json: &str, ts: i64) -> (r:
        Result<bool, StoreError>)
        ensures
            final(self).clock == old(self).clock,
            bootstrapped(old(self)@, final(self)@, password@, policy_json@, ts, r),
    {
        if self.get_user("admin").is_some() {
            return Ok(false);
        }
        match self.create_user_at("admin", password, policy_json, ts) {
            Ok(()) => Ok(true),
            Err(e) => Err(e),
        }
    }

    /// Creates the user `admin`, where there is none yet. Says whether it did.
    pub fn bootstrap_admin_user(&mut self, password: &str, policy_json: &str) -> (r: Result<
        bool,
        StoreError,
    >)
        ensures
            final(self).clock == old(self).clock,
            exists|t: SystemTime|
                bootstrapped(
                    old(self)@,
                    final(self)@,
                    password@,
                    policy_json@,
                    #[trigger] old(self).clock.micros(t),
                    r,
                ),
    {
        let ts: i64 = self.clock.now_micros();
        self.bootstrap_admin_user_at(password, policy_json, ts)
    }

    /// Secret key and policy of a user, the policy as JSON text.
    pub fn get_user(&self, access_key: &str) -> (r: Option<(String, String)>)
        ensures
            is_user(self@, access_key@, r),
    {
        match self.users.get(&access_key.to_string()) {
            Some(row) => Some((row.secret_key.clone(), row.policy.clone())),
            None => None,
        }
    }
}

// ── statistics ───────────────────────────────────────────────────────────────

/// Local health snapshot.
pub struct StoreStats {
    pub live_objects: u64,
    pub local_blocks: u64,
    pub local_block_bytes: i64,
    pub pending_deletions: u64,
    pub pending_pulls: u64,
    pub fact_count: u64,
}

/// The administrator is made, unless there is one.
pub open spec fn bootstrapped(
    s: StoreView,
    after: StoreView,
    password: Seq<char>,
    policy: Seq<char>,
    ts: i64,
    r: Result<bool, StoreError>,
) -> bool {
    if s.users.dom().contains("admin"@) {
        r == Ok::<bool, StoreError>(false) && after == s
    } else if s.last_seq == i64::MAX {
        r == Err::<bool, StoreError>(StoreError::LogFull) && after == s
    } else {
        r == Ok::<bool, StoreError>(true) && after == s.user_created(
            "admin"@,
            password,
            policy,
            ts,
        )
    }
}

/// The records of a log behind a number, at most so many; all of them where the limit is negative.
pub open spec fn log_page(log: Seq<RecordView>, after: i64, limit: i64) -> Seq<RecordView> {
    if limit < 0 {
        log.filter(rows::behind(after))
    } else {
        seqs::at_most(log.filter(rows::behind(after)), limit as int)
    }
}

/// `r` is the secret and the policy of a user, where there is one.
pub open spec fn is_user(s: StoreView, access_key: Seq<char>, r: Option<(String, String)>) -> bool {
    &&& r is Some == s.users.dom().contains(access_key)
    &&& r matches Some((secret, policy)) ==> secret@ == s.users[access_key].secret_key && policy@
        == s.users[access_key].policy
}

/// The live objects.
pub open spec fn alive() -> spec_fn(((Seq<char>, Seq<char>), ObjectView)) -> bool {
    |e: ((Seq<char>, Seq<char>), ObjectView)| !e.1.deleted
}

/// The counts of a store.
pub open spec fn counted(s: StoreView, r: Result<StoreStats, StoreError>) -> bool {
    let held = blockmeta::held_at(s.locations, s.site);
    let total = blockmeta::total_size(s.blocks, held);
    &&& i64::MIN <= total <= i64::MAX <==> r is Ok
    &&& r is Err ==> r == Err::<StoreStats, StoreError>(StoreError::SumOverflow)
    &&& r matches Ok(t) ==> {
        &&& t.live_objects == table::ordered(s.objects).filter(alive()).len()
        &&& t.local_blocks == held.len()
        &&& t.local_block_bytes == total
        &&& t.pending_deletions == s.pending.dom().len()
        &&& t.pending_pulls == table::ordered(s.queue).filter(
            crate::replication::queued_for(s.site),
        ).len()
        &&& t.fact_count == s.log.len()
    }
}

impl Store {
    fn live_objects(&self) -> (r: usize)
        ensures
            r == table::ordered(self@.objects).filter(alive()).len(),
    {
        let n: usize = self.objects.len();
        let ghost s = table::ordered(self@.objects);
        let ghost p = alive();
        let mut count: usize = 0;
        let mut i: usize = 0;
        proof {
            seqs::lemma_filter_none(s, p);
        }
        while i < n
            invariant
                i <= n,
                n == s.len(),
                s == table::ordered(self@.objects),
                p == alive(),
                count <= i,
                count == s.take(i as int).filter(p).len(),
            decreases n - i,
        {
            proof {
                seqs::lemma_filter_take(s, p, i as int);
            }
            if !self.objects.value_at(i).deleted {
                count += 1;
            }
            i += 1;
        }
        assert(s.take(n as int) =~= s);
        count
    }

    /// A snapshot of local counts.
    pub fn stats(&self) -> (r: Result<StoreStats, StoreError>)
        ensures
            counted(self@, r),
    {
        let local_block_bytes: i64 = match self.local_block_bytes() {
            Ok(n) => n,
            Err(e) => {
                return Err(e);
            },
        };
        let live: usize = self.live_objects();
        let hashes = self.list_local_block_hashes();
        let local: usize = hashes.len();
        assert(seqs::views(hashes@).len() == local);
        let pending: usize = self.pending_deletions.len();
        let pulls: usize = self.pending_pulls();
        let facts: usize = self.fact_log.len();
        Ok(
            StoreStats {
                live_objects: live as u64,
                local_blocks: local as u64,
                local_block_bytes,
                pending_deletions: pending as u64,
                pending_pulls: pulls as u64,
                fact_count: facts as u64,
            },
        )
    }
}

// ── convergence ──────────────────────────────────────────────────────────────

/// The object rows that facts write.
pub open spec fn object_writes(recs: Seq<RecordView>) -> Seq<((Seq<char>, Seq<char>), ObjectView)>
    decreases recs.len(),
{
    if recs.len() == 0 {
        seq![]
    } else {
        let front = object_writes(recs.drop_last());
        match recs.last().fact {
            FactView::ObjectPut { bucket, key, blocks, size, etag } => front.push(
                (
                    (bucket, key),
                    store::manifest(
                        all_hex_bytes(blocks),
                        size,
                        etag,
                        hashing::shard_of(key),
                        recs.last().ts,
                    ),
                ),
            ),
            FactView::ObjectDelete { bucket, key } => front.push(
                ((bucket, key), store::tombstone(key, recs.last().ts)),
            ),
            _ => front,
        }
    }
}

/// The user rows that facts write.
pub open spec fn user_writes(recs: Seq<RecordView>) -> Seq<(Seq<char>, UserView)>
    decreases recs.len(),
{
    if recs.len() == 0 {
        seq![]
    } else {
        let front = user_writes(recs.drop_last());
        match recs.last().fact {
            FactView::UserPut { access_key, secret_key, policy } => front.push(
                (access_key, UserView { secret_key, policy, updated_at: recs.last().ts }),
            ),
            _ => front,
        }
    }
}

/// The block rows that facts write.
pub open spec fn block_writes(recs: Seq<RecordView>) -> Seq<(Seq<u8>, BlockRow)>
    decreases recs.len(),
{
    if recs.len() == 0 {
        seq![]
    } else {
        let front = block_writes(recs.drop_last());
        match recs.last().fact {
            FactView::BlockAnnounce { hash, size, .. } => front.push(
                (codec::hex_bytes(hash), BlockRow { size, updated_at: recs.last().ts }),
            ),
            _ => front,
        }
    }
}

/// The location rows that facts write.
pub open spec fn location_writes(recs: Seq<RecordView>) -> Seq<
    ((Seq<u8>, Seq<char>), LocationView),
>
    decreases recs.len(),
{
    if recs.len() == 0 {
        seq![]
    } else {
        let front = location_writes(recs.drop_last());
        match recs.last().fact {
            FactView::BlockAnnounce { hash, location_id, fid, .. } => front.push(
                (
                    (codec::hex_bytes(hash), location_id),
                    LocationView { fid: codec::hex_bytes(fid), updated_at: recs.last().ts },
                ),
            ),
            _ => front,
        }
    }
}

impl StoreView {
    /// After the facts `recs` were merged, in order.
    pub open spec fn facts_applied(self, recs: Seq<RecordView>, now_ms: i64) -> StoreView
        decreases recs.len(),
    {
        if recs.len() == 0 {
            self
        } else {
            self.facts_applied(recs.drop_last(), now_ms).fact_applied(recs.last(), now_ms)
        }
    }
}

proof fn lemma_replay(s: StoreView, recs: Seq<RecordView>, now_ms: i64)
    ensures
        ({
            let t = s.facts_applied(recs, now_ms);
            &&& t.objects == lww::lww_all(s.objects, object_writes(recs))
            &&& t.users == lww::lww_all(s.users, user_writes(recs))
            &&& t.blocks == lww::lww_all(s.blocks, block_writes(recs))
            &&& t.locations == lww::lww_all(s.locations, location_writes(recs))
            &&& t.site == s.site
            &&& t.log == s.log
        }),
    decreases recs.len(),
{
    if recs.len() > 0 {
        let front = recs.drop_last();
        lemma_replay(s, front, now_ms);
        match recs.last().fact {
            FactView::ObjectPut { .. } => {
                let w = object_writes(recs);
                assert(w.drop_last() =~= object_writes(front));
            },
            FactView::ObjectDelete { .. } => {
                let w = object_writes(recs);
                assert(w.drop_last() =~= object_writes(front));
            },
            FactView::BlockAnnounce { .. } => {
                let w = block_writes(recs);
                assert(w.drop_last() =~= block_writes(front));
                let v = location_writes(recs);
                assert(v.drop_last() =~= location_writes(front));
            },
            FactView::UserPut { .. } => {
                let w = user_writes(recs);
                assert(w.drop_last() =~= user_writes(front));
            },
        }
    }
}

/// No two of the writes of a history contend for a row at the same time.
pub open spec fn uncontended(s: StoreView, recs: Seq<RecordView>) -> bool {
    &&& lww::distinct_stamps(s.objects, object_writes(recs))
    &&& lww::distinct_stamps(s.users, user_writes(recs))
    &&& lww::distinct_stamps(s.blocks, block_writes(recs))
    &&& lww::distinct_stamps(s.locations, location_writes(recs))
}

/// Convergence of sites: two sites that merged the same facts hold the same objects, users,
/// blocks and locations, in whatever order and however often each merged them, and at
/// whatever times. Writes of one row at the same instant are left out: of those the first to
/// arrive stays.
pub proof fn lemma_sites_converge(
    s: StoreView,
    a: Seq<RecordView>,
    b: Seq<RecordView>,
    now_a: i64,
    now_b: i64,
)
    requires
        forall|r: RecordView| a.contains(r) == b.contains(r),
        uncontended(s, a),
    ensures
        s.facts_applied(a, now_a).objects == s.facts_applied(b, now_b).objects,
        s.facts_applied(a, now_a).users == s.facts_applied(b, now_b).users,
        s.facts_applied(a, now_a).blocks == s.facts_applied(b, now_b).blocks,
        s.facts_applied(a, now_a).locations == s.facts_applied(b, now_b).locations,
{
    lemma_replay(s, a, now_a);
    lemma_replay(s, b, now_b);
    lemma_writes_included(a, b);
    lemma_writes_included(b, a);
    lww::lemma_lww_converges(s.objects, object_writes(a), object_writes(b));
    lww::lemma_lww_converges(s.users, user_writes(a), user_writes(b));
    lww::lemma_lww_converges(s.blocks, block_writes(a), block_writes(b));
    lww::lemma_lww_converges(s.locations, location_writes(a), location_writes(b));
}

/// What a single record writes is among the writes of a history that has it.
proof fn lemma_write_listed(recs: Seq<RecordView>, i: int)
    requires
        0 <= i < recs.len(),
    ensures
        match recs[i].fact {
            FactView::ObjectPut { bucket, key, blocks, size, etag } => object_writes(recs).contains(
                (
                    (bucket, key),
                    store::manifest(
                        all_hex_bytes(blocks),
                        size,
                        etag,
                        hashing::shard_of(key),
                        recs[i].ts,
                    ),
                ),
            ),
            FactView::ObjectDelete { bucket, key } => object_writes(recs).contains(
                ((bucket, key), store::tombstone(key, recs[i].ts)),
            ),
            FactView::BlockAnnounce { hash, location_id, fid, size } => block_writes(
                recs,
            ).contains((codec::hex_bytes(hash), BlockRow { size, updated_at: recs[i].ts }))
                && location_writes(recs).contains(
                (
                    (codec::hex_bytes(hash), location_id),
                    LocationView { fid: codec::hex_bytes(fid), updated_at: recs[i].ts },
                ),
            ),
            FactView::UserPut { access_key, secret_key, policy } => user_writes(recs).contains(
                (access_key, UserView { secret_key, policy, updated_at: recs[i].ts }),
            ),
        },
    decreases recs.len(),
{
    let front = recs.drop_last();
    let o = object_writes(recs);
    let u = user_writes(recs);
    let b = block_writes(recs);
    let l = location_writes(recs);
    if i == recs.len() - 1 {
        match recs[i].fact {
            FactView::ObjectPut { .. } => {
                assert(o[o.len() - 1] == o.last());
            },
            FactView::ObjectDelete { .. } => {
                assert(o[o.len() - 1] == o.last());
            },
            FactView::BlockAnnounce { .. } => {
                assert(b[b.len() - 1] == b.last());
                assert(l[l.len() - 1] == l.last());
            },
            FactView::UserPut { .. } => {
                assert(u[u.len() - 1] == u.last());
            },
        }
    } else {
        lemma_write_listed(front, i);
        assert(front[i] == recs[i]);
        assert forall|w: ((Seq<char>, Seq<char>), ObjectView)|
            object_writes(front).contains(w) implies o.contains(w) by {
            let j = choose|j: int|
                0 <= j < object_writes(front).len() && object_writes(front)[j] == w;
            assert(o[j] == w);
        }
        assert forall|w: (Seq<char>, UserView)| user_writes(front).contains(w) implies u.contains(
            w,
        ) by {
            let j = choose|j: int| 0 <= j < user_writes(front).len() && user_writes(front)[j] == w;
            assert(u[j] == w);
        }
        assert forall|w: (Seq<u8>, BlockRow)| block_writes(front).contains(w) implies b.contains(
            w,
        ) by {
            let j = choose|j: int|
                0 <= j < block_writes(front).len() && block_writes(front)[j] == w;
            assert(b[j] == w);
        }
        assert forall|w: ((Seq<u8>, Seq<char>), LocationView)|
            location_writes(front).contains(w) implies l.contains(w) by {
            let j = choose|j: int|
                0 <= j < location_writes(front).len() && location_writes(front)[j] == w;
            assert(l[j] == w);
        }
    }
}

/// A history writes what any part of it writes.
proof fn lemma_writes_included(a: Seq<RecordView>, b: Seq<RecordView>)
    requires
        forall|r: RecordView| a.contains(r) ==> b.contains(r),
    ensures
        forall|w: ((Seq<char>, Seq<char>), ObjectView)|
            object_writes(a).contains(w) ==> object_writes(b).contains(w),
        forall|w: (Seq<char>, UserView)|
            user_writes(a).contains(w) ==> user_writes(b).contains(w),
        forall|w: (Seq<u8>, BlockRow)|
            block_writes(a).contains(w) ==> block_writes(b).contains(w),
        forall|w: ((Seq<u8>, Seq<char>), LocationView)|
            location_writes(a).contains(w) ==> location_writes(b).contains(w),
    decreases a.len(),
{
    if a.len() > 0 {
        let front = a.drop_last();
        assert forall|r: RecordView| front.contains(r) implies b.contains(r) by {
            let i = choose|i: int| 0 <= i < front.len() && front[i] == r;
            assert(a[i] == r);
        }
        lemma_writes_included(front, b);
        assert(a[a.len() - 1] == a.last());
        assert(b.contains(a.last()));
        let i = choose|i: int| 0 <= i < b.len() && b[i] == a.last();
        lemma_write_listed(b, i);
        lemma_pushed_members(object_writes(front), object_writes(a));
        lemma_pushed_members(user_writes(front), user_writes(a));
        lemma_pushed_members(block_writes(front), block_writes(a));
        lemma_pushed_members(location_writes(front), location_writes(a));
    }
}

proof fn lemma_pushed_members<W>(front: Seq<W>, all: Seq<W>)
    requires
        all == front || (all.len() > 0 && all == front.push(all.last())),
    ensures
        forall|w: W| all.contains(w) ==> front.contains(w) || w == all.last(),
        all.len() != front.len() + 1 ==> all == front,
{
    assert forall|w: W| all.contains(w) implies front.contains(w) || w == all.last() by {
        let i = choose|i: int| 0 <= i < all.len() && all[i] == w;
        if i < front.len() {
            assert(front[i] == w);
        }
    }
}

/// Merging a fact again changes nothing.
pub proof fn lemma_fact_idempotent(s: StoreView, rec: RecordView, now_1: i64, now_2: i64)
    ensures
        s.fact_applied(rec, now_1).fact_applied(rec, now_2) == s.fact_applied(rec, now_1),
{
    assert(s.fact_applied(rec, now_1).fact_applied(rec, now_2) =~= s.fact_applied(rec, now_1));
}

/// A tombstone, or any other newer write, is not undone by an older put that arrives late.
pub proof fn lemma_older_write_loses(
    s: StoreView,
    rec: RecordView,
    now_ms: i64,
    bucket: Seq<char>,
    key: Seq<char>,
)
    requires
        s.objects.dom().contains((bucket, key)),
        rec.ts <= s.objects[(bucket, key)].updated_at,
    ensures
        s.fact_applied(rec, now_ms).objects.dom().contains((bucket, key)),
        s.fact_applied(rec, now_ms).objects[(bucket, key)] == s.objects[(bucket, key)],
{
}

/// The cursor of a peer never moves backward.
pub proof fn lemma_cursor_monotone(s: StoreView, peer: Seq<char>, last_seq: i64, other: Seq<char>)
    requires
        s.cursors.dom().contains(other),
    ensures
        s.with_cursor(peer, last_seq).cursor(other) >= s.cursor(other),
        peer == other ==> s.with_cursor(peer, last_seq).cursor(other) >= last_seq,
{
}

/// What a site logs of a write is a fact that another site can read, and which writes there
/// the row that was written here.
pub proof fn lemma_logged_put_replays(
    s: StoreView,
    t: StoreView,
    bucket: Seq<char>,
    key: Seq<char>,
    hashes: Seq<Seq<u8>>,
    size: i64,
    etag: Seq<char>,
    ts: i64,
    now_ms: i64,
)
    requires
        s.last_seq < i64::MAX,
    ensures
        ({
            let here = s.object_inserted(
                bucket,
                hashing::shard_of(key),
                key,
                hashes,
                size,
                etag,
                ts,
            );
            let rec = here.log.last();
            &&& readable(rec.fact)
            &&& rec.ts == ts
            &&& t.fact_applied(rec, now_ms) == t.with_object(
                bucket,
                key,
                store::manifest(hashes, size, etag, hashing::shard_of(key), ts),
            )
        }),
{
    let texts = store::hex_texts(hashes);
    assert forall|i: int| 0 <= i < texts.len() implies codec::is_hex(#[trigger] texts[i]) by {
        codec::lemma_hex_round_trip(hashes[i]);
    }
    assert forall|i: int| 0 <= i < hashes.len() implies #[trigger] all_hex_bytes(texts)[i]
        == hashes[i] by {
        codec::lemma_hex_round_trip(hashes[i]);
    }
    assert(all_hex_bytes(texts) =~= hashes);
}

/// The announcement of a block reaches a site that lacks the block as exactly one pending
/// pull.
pub proof fn lemma_announce_queues_pull(
    s: StoreView,
    t: StoreView,
    hash: Seq<u8>,
    fid: Seq<u8>,
    size: i64,
    ts: i64,
    now_ms: i64,
)
    requires
        s.last_seq < i64::MAX,
        s.site != t.site,
        !t.locations.dom().contains((hash, t.site)),
    ensures
        ({
            let rec = s.block_stored(hash, fid, size, ts).log.last();
            let after = t.fact_applied(rec, now_ms);
            &&& readable(rec.fact)
            &&& after.locations.dom().contains((hash, s.site))
            &&& after.queue.dom() == t.queue.dom().insert((t.site, hash))
        }),
{
    codec::lemma_hex_round_trip(hash);
    codec::lemma_hex_round_trip(fid);
    let rec = s.block_stored(hash, fid, size, ts).log.last();
    let after = t.fact_applied(rec, now_ms);
    assert(after.queue.dom() =~= t.queue.dom().insert((t.site, hash)));
}

} // verus!
