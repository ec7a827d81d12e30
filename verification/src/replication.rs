//! Replication between sites: peers, the pull queue, the fact log and its cursors.

use std::time::SystemTime;

use vstd::arithmetic::power2::*;
use vstd::prelude::*;

use crate::db::{EntryView, ReplicationEntry, REPLICATION_STUCK_ATTEMPTS};
use crate::order::TableKey;
use crate::rows::{NodeRow, NodeView, QueueRow};
use crate::seqs;
use crate::store::{Store, StoreView};
use crate::table;
use crate::text;

verus! {

// ── backoff ──────────────────────────────────────────────────────────────────

/// Retry backoff: one minute at first.
pub const REPLICATION_BACKOFF_BASE_MS: i64 = 60_000;

/// Retry backoff: six hours at most.
pub const REPLICATION_BACKOFF_CAP_MS: i64 = 21_600_000;

/// How many queue entries one drain looks at.
pub const REPLICATION_DRAIN_PAGE: usize = 500;

/// One minute, doubled per attempt, capped at six hours.
pub open spec fn backoff(attempts: int) -> int {
    let doubled = 60_000 * pow2(if attempts <= 0 {
        0
    } else {
        attempts as nat
    });
    if doubled < 21_600_000 {
        doubled as int
    } else {
        21_600_000
    }
}

pub fn replication_backoff_ms(attempts: i32) -> (r: i64)
    ensures
        r == backoff(attempts as int),
        60_000 <= r <= 21_600_000,
{
    let mut ms: i64 = REPLICATION_BACKOFF_BASE_MS;
    let mut i: i32 = 0;
    proof {
        lemma2_to64();
    }
    while i < attempts && ms < REPLICATION_BACKOFF_CAP_MS
        invariant
            0 <= i,
            i <= attempts || i == 0,
            60_000 <= ms < 43_200_000,
            ms == 60_000 * pow2(i as nat),
        decreases attempts - i,
    {
        proof {
            lemma_pow2_unfold((i + 1) as nat);
        }
        ms = ms * 2;
        i += 1;
    }
    proof {
        if i < attempts {
            lemma_pow2_strictly_increases(i as nat, attempts as nat);
        }
    }
    if ms < REPLICATION_BACKOFF_CAP_MS {
        ms
    } else {
        REPLICATION_BACKOFF_CAP_MS
    }
}

/// The backoff never shrinks as attempts add up, and doubles with each until it is capped.
pub proof fn lemma_backoff_grows(a: int, b: int)
    requires
        a <= b,
    ensures
        backoff(a) <= backoff(b),
        a >= 0 && backoff(a + 1) < 21_600_000 ==> backoff(a + 1) == 2 * backoff(a),
{
    lemma2_to64();
    let x: nat = if a <= 0 {
        0
    } else {
        a as nat
    };
    let y: nat = if b <= 0 {
        0
    } else {
        b as nat
    };
    if x < y {
        lemma_pow2_strictly_increases(x, y);
    }
    if a >= 0 {
        lemma_pow2_unfold((a + 1) as nat);
    }
}

// ── nodes ────────────────────────────────────────────────────────────────────

/// Id and address of a node.
pub open spec fn id_and_url() -> spec_fn((Seq<char>, NodeView)) -> (Seq<char>, Seq<char>) {
    |e: (Seq<char>, NodeView)| (e.0, e.1.api_url)
}

/// Every node.
pub open spec fn any_node() -> spec_fn((Seq<char>, NodeView)) -> bool {
    |e: (Seq<char>, NodeView)| true
}

/// Every node but `site`.
pub open spec fn other_than(site: Seq<char>) -> spec_fn((Seq<char>, NodeView)) -> bool {
    |e: (Seq<char>, NodeView)| e.0 != site
}

/// The known peers of a site, in order, each with its address.
pub open spec fn peers_of(nodes: Map<Seq<char>, NodeView>, site: Seq<char>) -> Seq<
    (Seq<char>, Seq<char>),
> {
    seqs::pick(table::ordered(nodes), other_than(site), id_and_url())
}

impl StoreView {
    /// With the address of a node recorded.
    pub open spec fn with_node(self, id: Seq<char>, api_url: Seq<char>, now_ms: i64) -> StoreView {
        StoreView {
            nodes: self.nodes.insert(id, NodeView { api_url, last_heartbeat: now_ms }),
            ..self
        }
    }

    /// With the address of a peer recorded. This site itself is left as it is.
    pub open spec fn with_peer(self, id: Seq<char>, api_url: Seq<char>, now_ms: i64) -> StoreView {
        if id == self.site {
            self
        } else {
            self.with_node(id, api_url, now_ms)
        }
    }

    /// With a pending replication to each of `targets`.
    pub open spec fn with_pulls(
        self,
        targets: Seq<Seq<char>>,
        hash: Seq<u8>,
        now_ms: i64,
    ) -> StoreView
        decreases targets.len(),
    {
        if targets.len() == 0 {
            self
        } else {
            self.with_pulls(targets.drop_last(), hash, now_ms).with_pull(
                targets.last(),
                hash,
                now_ms,
            )
        }
    }

    /// With the entry for `hash` rescheduled after a failure. The entry stays in the queue.
    pub open spec fn with_deferral(self, hash: Seq<u8>, attempts: i32, now_ms: i64) -> StoreView {
        let k = (self.site, hash);
        if self.queue.dom().contains(k) {
            let row = self.queue[k];
            StoreView {
                queue: self.queue.insert(
                    k,
                    QueueRow {
                        next_attempt_at: (now_ms + backoff(attempts as int)) as i64,
                        attempts: if row.attempts < i32::MAX {
                            (row.attempts + 1) as i32
                        } else {
                            row.attempts
                        },
                        enqueued_at: row.enqueued_at,
                    },
                ),
                ..self
            }
        } else {
            self
        }
    }
}

impl Store {
    fn upsert_node(&mut self, location_id: &str, api_url: &str, now_ms: i64)
        ensures
            final(self)@ == old(self)@.with_node(location_id@, api_url@, now_ms),
            final(self).clock == old(self).clock,
    {
        self.nodes.insert(
            location_id.to_string(),
            NodeRow { api_url: api_url.to_string(), last_heartbeat: now_ms },
        );
    }

    /// Records this node's own advertised internal address in the local registry.
    pub fn register_node_at(&mut self, api_url: &str, now_ms: i64)
        ensures
            final(self)@ == old(self)@.with_node(old(self)@.site, api_url@, now_ms),
            final(self).clock == old(self).clock,
    {
        let id = self.local_location_id.clone();
        self.upsert_node(id.as_str(), api_url, now_ms);
    }

    pub fn register_node(&mut self, api_url: &str)
        ensures
            exists|t: SystemTime|
                final(self)@ == old(self)@.with_node(
                    old(self)@.site,
                    api_url@,
                    #[trigger] old(self).clock.millis(t),
                ),
            final(self).clock == old(self).clock,
    {
        let now: i64 = self.clock.now_millis();
        self.register_node_at(api_url, now);
    }

    /// Records a peer's address (idempotent; ignores attempts to record self with
    /// a different address — self is owned by register_node). Used by the join
    /// handshake and the membership-gossip merge so the mesh discovers itself.
    pub fn record_peer_at(&mut self, location_id: &str, api_url: &str, now_ms: i64)
        ensures
            final(self)@ == old(self)@.with_peer(location_id@, api_url@, now_ms),
            final(self).clock == old(self).clock,
    {
        if text::same_text(location_id, self.local_location_id.as_str()) {
            return ;
        }
        self.upsert_node(location_id, api_url, now_ms);
    }

    pub fn record_peer(&mut self, location_id: &str, api_url: &str)
        ensures
            exists|t: SystemTime|
                final(self)@ == old(self)@.with_peer(
                    location_id@,
                    api_url@,
                    #[trigger] old(self).clock.millis(t),
                ),
            final(self).clock == old(self).clock,
    {
        let now: i64 = self.clock.now_millis();
        self.record_peer_at(location_id, api_url, now);
    }

    fn nodes_except(&self, site: Option<&str>) -> (r: Vec<(String, String)>)
        ensures
            site is None ==> seqs::views(r@) == seqs::pick(
                table::ordered(self@.nodes),
                any_node(),
                id_and_url(),
            ),
            site matches Some(x) ==> seqs::views(r@) == peers_of(self@.nodes, x@),
            table::enumerates(table::ordered(self@.nodes), self@.nodes),
    {
        let n: usize = self.nodes.len();
        let ghost s = table::ordered(self@.nodes);
        let ghost p = match site {
            Some(x) => other_than(x@),
            None => any_node(),
        };
        let ghost f = id_and_url();
        let mut out: Vec<(String, String)> = Vec::new();
        let mut i: usize = 0;
        proof {
            seqs::lemma_pick_none(s, p, f);
            assert(seqs::views(out@) =~= seqs::pick(s.take(0), p, f));
        }
        while i < n
            invariant
                i <= n,
                n == s.len(),
                s == table::ordered(self@.nodes),
                p == (match site {
                    Some(x) => other_than(x@),
                    None => any_node(),
                }),
                f == id_and_url(),
                seqs::views(out@) == seqs::pick(s.take(i as int), p, f),
            decreases n - i,
        {
            let id = self.nodes.key_at(i);
            let keep = match site {
                Some(x) => !text::same_text(id.as_str(), x),
                None => true,
            };
            proof {
                seqs::lemma_pick_step(s, p, f, i as int);
                assert(keep == p(s[i as int]));
            }
            if keep {
                let item = (id.clone(), self.nodes.value_at(i).api_url.clone());
                proof {
                    seqs::lemma_views_push(out@, item);
                }
                out.push(item);
            }
            i += 1;
        }
        proof {
            seqs::lemma_pick_none(s, p, f);
        }
        out
    }

    /// Every known node including self, as (location_id, api_url). Served to peers
    /// so membership gossips to convergence (a leaf learns other leaves via the
    /// node it joined).
    pub fn all_nodes(&self) -> (r: Vec<(String, String)>)
        ensures
            seqs::views(r@) == seqs::pick(table::ordered(self@.nodes), any_node(), id_and_url()),
    {
        self.nodes_except(None)
    }

    /// All known peers (excluding self) as (location_id, api_url).
    pub fn get_peers(&self) -> (r: Vec<(String, String)>)
        ensures
            seqs::views(r@) == peers_of(self@.nodes, self@.site),
            table::enumerates(table::ordered(self@.nodes), self@.nodes),
    {
        self.nodes_except(Some(self.local_location_id.as_str()))
    }

    /// Known peers (excluding self), each once, with the address of each. No liveness filter:
    /// peer liveness isn't tracked centrally, so all known peers are attempted and connect
    /// failures / replication backoff handle the dead ones gracefully.
    pub fn get_peers_with_urls(&self) -> (r: Vec<(String, String)>)
        ensures
            seqs::views(r@) == peers_of(self@.nodes, self@.site),
    {
        self.get_peers()
    }
}

/// The peers of a site are the other known nodes, with their addresses.
pub proof fn lemma_peers(
    nodes: Map<Seq<char>, NodeView>,
    site: Seq<char>,
    id: Seq<char>,
    url: Seq<char>,
)
    requires
        table::enumerates(table::ordered(nodes), nodes),
    ensures
        peers_of(nodes, site).contains((id, url)) == (id != site && nodes.dom().contains(id)
            && nodes[id].api_url == url),
{
    let s = table::ordered(nodes);
    let p = other_than(site);
    let f = id_and_url();
    seqs::lemma_pick_members(s, p, f, (id, url));
    if id != site && nodes.dom().contains(id) && nodes[id].api_url == url {
        let i = choose|i: int| 0 <= i < s.len() && (#[trigger] s[i]).0 == id;
        assert(p(s[i]) && f(s[i]) == (id, url));
    }
}

// ── queue ────────────────────────────────────────────────────────────────────

/// A queue row with its key: target and hash.
pub type QueueEntry = ((Seq<char>, Seq<u8>), QueueRow);

/// The entries for `site` that are due.
pub open spec fn due(site: Seq<char>, now_ms: i64) -> spec_fn(QueueEntry) -> bool {
    |e: QueueEntry| e.0.0 == site && e.1.next_attempt_at <= now_ms
}

/// A queue row as an entry, by the time of its next attempt.
pub open spec fn by_time() -> spec_fn(QueueEntry) -> (i64, EntryView) {
    |e: QueueEntry|
        (
            e.1.next_attempt_at,
            EntryView {
                hash: e.0.1,
                next_attempt_at: e.1.next_attempt_at,
                attempts: e.1.attempts,
                enqueued_at: e.1.enqueued_at,
            },
        )
}

/// The due entries in the order of their next attempt, as many as one drain looks at.
pub open spec fn drain_page(
    queue: Map<(Seq<char>, Seq<u8>), QueueRow>,
    site: Seq<char>,
    now_ms: i64,
) -> Seq<(i64, EntryView)> {
    seqs::at_most(
        table::stable_sort(seqs::pick(table::ordered(queue), due(site, now_ms), by_time())),
        REPLICATION_DRAIN_PAGE as int,
    )
}

/// The entries for `site` that have failed often.
pub open spec fn stuck(site: Seq<char>) -> spec_fn(QueueEntry) -> bool {
    |e: QueueEntry| e.0.0 == site && e.1.attempts >= REPLICATION_STUCK_ATTEMPTS
}

/// Hash, attempts and enqueue time of an entry.
pub open spec fn stuck_info() -> spec_fn(QueueEntry) -> (Seq<u8>, i32, i64) {
    |e: QueueEntry| (e.0.1, e.1.attempts, e.1.enqueued_at)
}

impl Store {
    fn enqueue_one(&mut self, hash: &[u8], target: &str, now_ms: i64)
        ensures
            final(self)@ == old(self)@.with_pull(target@, hash@, now_ms),
            final(self).clock == old(self).clock,
    {
        let k = (target.to_string(), vstd::slice::slice_to_vec(hash));
        if !self.replication_queue.contains(&k) {
            self.replication_queue.insert(
                k,
                QueueRow { next_attempt_at: 0, attempts: 0, enqueued_at: now_ms },
            );
        }
    }

    /// Queues a block for each of the targets, unless it is queued already.
    pub fn enqueue_replication_at(&mut self, hash: &[u8], target_ids: &Vec<String>, now_ms: i64)
        ensures
            final(self)@ == old(self)@.with_pulls(seqs::views(target_ids@), hash@, now_ms),
            final(self).clock == old(self).clock,
    {
        let ghost all = seqs::views(target_ids@);
        let ghost before = self@;
        let mut i: usize = 0;
        assert(before.with_pulls(all.take(0), hash@, now_ms) == before);
        while i < target_ids.len()
            invariant
                i <= target_ids@.len(),
                all == seqs::views(target_ids@),
                self@ == before.with_pulls(all.take(i as int), hash@, now_ms),
                self.clock == old(self).clock,
            decreases target_ids@.len() - i,
        {
            proof {
                assert(all.take(i + 1).drop_last() =~= all.take(i as int));
                assert(all.take(i + 1).last() == target_ids@[i as int]@);
            }
            self.enqueue_one(hash, target_ids[i].as_str(), now_ms);
            i += 1;
        }
        assert(all.take(all.len() as int) =~= all);
    }

    pub fn enqueue_replication(&mut self, hash: &[u8], target_ids: &Vec<String>)
        ensures
            exists|t: SystemTime|
                final(self)@ == old(self)@.with_pulls(
                    seqs::views(target_ids@),
                    hash@,
                    #[trigger] old(self).clock.millis(t),
                ),
            final(self).clock == old(self).clock,
    {
        let now: i64 = self.clock.now_millis();
        self.enqueue_replication_at(hash, target_ids, now);
    }

    /// Ready/overdue entries for this site (next attempt not after `now_ms`), time-ordered.
    pub fn get_replication_queue_at(&self, now_ms: i64) -> (r: Vec<ReplicationEntry>)
        ensures
            seqs::views(r@) == drain_page(self@.queue, self@.site, now_ms).map_values(
                |e: (i64, EntryView)| e.1,
            ),
    {
        let n: usize = self.replication_queue.len();
        let ghost s = table::ordered(self@.queue);
        let ghost p = due(self@.site, now_ms);
        let ghost f = by_time();
        let mut ready: Vec<(i64, ReplicationEntry)> = Vec::new();
        let mut i: usize = 0;
        proof {
            seqs::lemma_pick_none(s, p, f);
            assert(seqs::views(ready@) =~= table::stable_sort(seqs::pick(s.take(0), p, f)));
        }
        while i < n
            invariant
                i <= n,
                n == s.len(),
                s == table::ordered(self@.queue),
                p == due(self@.site, now_ms),
                f == by_time(),
                seqs::views(ready@) == table::stable_sort(seqs::pick(s.take(i as int), p, f)),
                table::sorted(seqs::views(ready@)),
            decreases n - i,
        {
            let k = self.replication_queue.key_at(i);
            let row = self.replication_queue.value_at(i);
            let hit = text::same_text(k.0.as_str(), self.local_location_id.as_str())
                && row.next_attempt_at <= now_ms;
            proof {
                seqs::lemma_pick_step(s, p, f, i as int);
                assert(hit == p(s[i as int]));
            }
            if hit {
                let entry = ReplicationEntry {
                    hash: k.1.duplicate(),
                    next_attempt_at: row.next_attempt_at,
                    attempts: row.attempts,
                    enqueued_at: row.enqueued_at,
                };
                proof {
                    let a = seqs::pick(s.take(i as int), p, f);
                    let b = seqs::pick(s.take(i + 1), p, f);
                    assert(b.drop_last() =~= a);
                    assert(b.last() == (row.next_attempt_at@, entry@));
                }
                table::insert_sorted(&mut ready, row.next_attempt_at, entry);
            }
            i += 1;
        }
        proof {
            seqs::lemma_pick_none(s, p, f);
        }
        let ghost all = seqs::views(ready@);
        let kept: usize = if ready.len() > REPLICATION_DRAIN_PAGE {
            REPLICATION_DRAIN_PAGE
        } else {
            ready.len()
        };
        let mut out: Vec<ReplicationEntry> = Vec::new();
        let ghost g = |e: (i64, EntryView)| e.1;
        let mut j: usize = 0;
        assert(seqs::views(out@) =~= all.take(0).map_values(g));
        while j < kept
            invariant
                j <= kept <= ready@.len(),
                all == seqs::views(ready@),
                g == (|e: (i64, EntryView)| e.1),
                seqs::views(out@) == all.take(j as int).map_values(g),
            decreases kept - j,
        {
            let e = &ready[j].1;
            let copy = ReplicationEntry {
                hash: e.hash.duplicate(),
                next_attempt_at: e.next_attempt_at,
                attempts: e.attempts,
                enqueued_at: e.enqueued_at,
            };
            proof {
                seqs::lemma_views_push(out@, copy);
                assert(all[j as int] == ready@[j as int]@);
                assert(all.take(j + 1).map_values(g) =~= all.take(j as int).map_values(g).push(
                    copy@,
                ));
            }
            out.push(copy);
            j += 1;
        }
        assert(all.take(kept as int) =~= seqs::at_most(all, REPLICATION_DRAIN_PAGE as int));
        out
    }

    pub fn get_replication_queue(&self) -> (r: Vec<ReplicationEntry>)
        ensures
            exists|t: SystemTime|
                seqs::views(r@) == (drain_page(
                    self@.queue,
                    self@.site,
                    #[trigger] self.clock.millis(t),
                )).map_values(|e: (i64, EntryView)| e.1),
    {
        let now: i64 = self.clock.now_millis();
        self.get_replication_queue_at(now)
    }

    /// Removes the entry for a block.
    pub fn dequeue_replication(&mut self, hash: &[u8], _next_attempt_at: i64)
        ensures
            final(self)@ == (StoreView {
                queue: old(self)@.queue.remove((old(self)@.site, hash@)),
                ..old(self)@
            }),
            final(self).clock == old(self).clock,
    {
        let k = (self.local_location_id.clone(), vstd::slice::slice_to_vec(hash));
        self.replication_queue.remove(&k);
    }

    /// Reschedules a failed entry with exponential backoff from `now_ms`.
    pub fn defer_replication_at(&mut self, entry: &ReplicationEntry, now_ms: i64)
        requires
            now_ms <= i64::MAX - REPLICATION_BACKOFF_CAP_MS,
        ensures
            final(self)@ == old(self)@.with_deferral(entry.hash@, entry.attempts, now_ms),
            final(self).clock == old(self).clock,
    {
        let wait: i64 = replication_backoff_ms(entry.attempts);
        let k = (self.local_location_id.clone(), entry.hash.duplicate());
        let held: Option<QueueRow> = match self.replication_queue.get(&k) {
            Some(row) => Some(*row),
            None => None,
        };
        match held {
            Some(row) => {
                let attempts: i32 = if row.attempts < i32::MAX {
                    row.attempts + 1
                } else {
                    row.attempts
                };
                self.replication_queue.insert(
                    k,
                    QueueRow {
                        next_attempt_at: now_ms + wait,
                        attempts,
                        enqueued_at: row.enqueued_at,
                    },
                );
            },
            None => {},
        }
    }

    pub fn defer_replication(&mut self, entry: &ReplicationEntry)
        ensures
            exists|t: SystemTime|
                final(self)@ == old(self)@.with_deferral(
                    entry.hash@,
                    entry.attempts,
                    #[trigger] old(self).clock.millis(t),
                ),
            final(self).clock == old(self).clock,
    {
        let now: i64 = self.clock.now_millis();
        self.defer_replication_at(entry, now);
    }

    /// Blocks queued for this site that have failed often: hash, attempts, enqueue time.
    pub fn get_stuck_replications(&self) -> (r: Vec<(Vec<u8>, i32, i64)>)
        ensures
            seqs::views(r@) == seqs::pick(
                table::ordered(self@.queue),
                stuck(self@.site),
                stuck_info(),
            ),
    {
        let n: usize = self.replication_queue.len();
        let ghost s = table::ordered(self@.queue);
        let ghost p = stuck(self@.site);
        let ghost f = stuck_info();
        let mut out: Vec<(Vec<u8>, i32, i64)> = Vec::new();
        let mut i: usize = 0;
        proof {
            seqs::lemma_pick_none(s, p, f);
            assert(seqs::views(out@) =~= seqs::pick(s.take(0), p, f));
        }
        while i < n
            invariant
                i <= n,
                n == s.len(),
                s == table::ordered(self@.queue),
                p == stuck(self@.site),
                f == stuck_info(),
                seqs::views(out@) == seqs::pick(s.take(i as int), p, f),
            decreases n - i,
        {
            let k = self.replication_queue.key_at(i);
            let row = self.replication_queue.value_at(i);
            let hit = text::same_text(k.0.as_str(), self.local_location_id.as_str())
                && row.attempts >= REPLICATION_STUCK_ATTEMPTS;
            proof {
                seqs::lemma_pick_step(s, p, f, i as int);
                assert(hit == p(s[i as int]));
            }
            if hit {
                let item = (k.1.duplicate(), row.attempts, row.enqueued_at);
                proof {
                    seqs::lemma_views_push(out@, item);
                }
                out.push(item);
            }
            i += 1;
        }
        proof {
            seqs::lemma_pick_none(s, p, f);
        }
        out
    }

    /// How many blocks are queued for this site.
    pub fn pending_pulls(&self) -> (r: usize)
        ensures
            r == table::ordered(self@.queue).filter(queued_for(self@.site)).len(),
    {
        let n: usize = self.replication_queue.len();
        let ghost s = table::ordered(self@.queue);
        let ghost p = queued_for(self@.site);
        let mut count: usize = 0;
        let mut i: usize = 0;
        proof {
            seqs::lemma_filter_none(s, p);
        }
        while i < n
            invariant
                i <= n,
                n == s.len(),
                s == table::ordered(self@.queue),
                p == queued_for(self@.site),
                count <= i,
                count == s.take(i as int).filter(p).len(),
            decreases n - i,
        {
            let k = self.replication_queue.key_at(i);
            proof {
                seqs::lemma_filter_take(s, p, i as int);
            }
            if text::same_text(k.0.as_str(), self.local_location_id.as_str()) {
                count += 1;
            }
            i += 1;
        }
        assert(s.take(n as int) =~= s);
        count
    }
}

/// The entries for `site`.
pub open spec fn queued_for(site: Seq<char>) -> spec_fn(QueueEntry) -> bool {
    |e: QueueEntry| e.0.0 == site
}

/// A failed attempt never evicts an entry, and keeps its enqueue time.
pub proof fn lemma_deferral_keeps_entry(s: StoreView, hash: Seq<u8>, attempts: i32, now_ms: i64)
    requires
        s.queue.dom().contains((s.site, hash)),
        now_ms <= i64::MAX - REPLICATION_BACKOFF_CAP_MS,
    ensures
        s.with_deferral(hash, attempts, now_ms).queue.dom() == s.queue.dom(),
        s.with_deferral(hash, attempts, now_ms).queue[(s.site, hash)].enqueued_at
            == s.queue[(s.site, hash)].enqueued_at,
        s.with_deferral(hash, attempts, now_ms).queue[(s.site, hash)].next_attempt_at > now_ms,
{
    lemma2_to64();
    if attempts >= 0 {
        lemma_backoff_grows(0, attempts as int);
    } else {
        lemma_backoff_grows(attempts as int, 0);
    }
    assert(s.with_deferral(hash, attempts, now_ms).queue.dom() =~= s.queue.dom());
}

} // verus!
