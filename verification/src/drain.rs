//! Where to get a block from, and what to do with the blocks queued for this site.

use vstd::prelude::*;

use crate::blockmeta;
use crate::codec;
use crate::db::{EntryView, ReplicationEntry};
use crate::replication;
use crate::replication::REPLICATION_BACKOFF_CAP_MS;
use crate::seqs;
use crate::store::{Store, StoreView};
use crate::text;

verus! {

/// What the drainer should do with one queue entry, decided from metadata alone
/// (no network I/O).
#[derive(Debug, PartialEq, Eq)]
pub enum ReplicationPlan {
    /// Remove the entry: the block is gone globally, or we already hold it.
    Drop,
    /// No reachable peer holds the block; back off and retry later.
    Defer,
    /// Attempt to fetch from these `(location_id, url)` candidates, in order.
    FetchFrom(Vec<(String, String)>),
}

/// The contents of a plan.
pub enum PlanView {
    Drop,
    Defer,
    FetchFrom(Seq<(Seq<char>, Seq<char>)>),
}

impl View for ReplicationPlan {
    type V = PlanView;

    open spec fn view(&self) -> PlanView {
        match self {
            ReplicationPlan::Drop => PlanView::Drop,
            ReplicationPlan::Defer => PlanView::Defer,
            ReplicationPlan::FetchFrom(c) => PlanView::FetchFrom(seqs::views(c@)),
        }
    }
}

/// A copy is listed at `site`.
pub open spec fn listed_at(locations: Seq<(Seq<char>, Seq<u8>)>, site: Seq<char>) -> bool {
    exists|i: int| 0 <= i < locations.len() && (#[trigger] locations[i]).0 == site
}

/// The peers that hold a copy.
pub open spec fn holder(locations: Seq<(Seq<char>, Seq<u8>)>) -> spec_fn(
    (Seq<char>, Seq<char>),
) -> bool {
    |p: (Seq<char>, Seq<char>)| listed_at(locations, p.0)
}

/// The decision for one entry: drop it where the block has no copy left or one is here; fetch
/// it from the peers that hold one; back off where none does.
pub open spec fn plan(
    locations: Seq<(Seq<char>, Seq<u8>)>,
    local_id: Seq<char>,
    peers: Seq<(Seq<char>, Seq<char>)>,
) -> PlanView {
    let candidates = peers.filter(holder(locations));
    if locations.len() == 0 || listed_at(locations, local_id) {
        PlanView::Drop
    } else if candidates.len() == 0 {
        PlanView::Defer
    } else {
        PlanView::FetchFrom(candidates)
    }
}

fn is_listed(locations: &Vec<(String, Vec<u8>)>, site: &str) -> (r: bool)
    ensures
        r == listed_at(seqs::views(locations@), site@),
{
    let ghost all = seqs::views(locations@);
    let mut i: usize = 0;
    while i < locations.len()
        invariant
            i <= locations@.len(),
            all == seqs::views(locations@),
            forall|j: int| 0 <= j < i ==> (#[trigger] all[j]).0 != site@,
        decreases locations@.len() - i,
    {
        assert(all[i as int] == locations@[i as int]@);
        if text::same_text(locations[i].0.as_str(), site) {
            assert(all[i as int].0 == site@);
            return true;
        }
        i += 1;
    }
    false
}

/// The peers that hold a copy, in order.
fn holders(locations: &Vec<(String, Vec<u8>)>, peers: &Vec<(String, String)>) -> (r: Vec<
    (String, String),
>)
    ensures
        seqs::views(r@) == seqs::views(peers@).filter(holder(seqs::views(locations@))),
{
    let ghost all = seqs::views(peers@);
    let ghost p = holder(seqs::views(locations@));
    let mut out: Vec<(String, String)> = Vec::new();
    let mut i: usize = 0;
    proof {
        seqs::lemma_filter_none(all, p);
        assert(seqs::views(out@) =~= all.take(0).filter(p));
    }
    while i < peers.len()
        invariant
            i <= peers@.len(),
            all == seqs::views(peers@),
            p == holder(seqs::views(locations@)),
            seqs::views(out@) == all.take(i as int).filter(p),
        decreases peers@.len() - i,
    {
        proof {
            seqs::lemma_filter_take(all, p, i as int);
            assert(all[i as int] == peers@[i as int]@);
        }
        if is_listed(locations, peers[i].0.as_str()) {
            let item = (peers[i].0.clone(), peers[i].1.clone());
            proof {
                seqs::lemma_views_push(out@, item);
            }
            out.push(item);
        }
        i += 1;
    }
    assert(all.take(all.len() as int) =~= all);
    out
}

/// Pure decision for one replication entry.
///
/// * `Drop`  — the block has no locations (deleted), or `local_id` already
///   appears in its locations (we hold it).
/// * `FetchFrom` — at least one live peer is listed in the block's locations;
///   returns those peers as fetch candidates.
/// * `Defer` — the block exists elsewhere but no *live* peer holds it (the
///   source site is down or not in the peer set), so retry later.
pub fn plan_replication(
    _entry: &ReplicationEntry,
    locations: &Vec<(String, Vec<u8>)>,
    local_id: &str,
    peers: &Vec<(String, String)>,
) -> (r: ReplicationPlan)
    ensures
        r@ == plan(seqs::views(locations@), local_id@, seqs::views(peers@)),
{
    if locations.len() == 0 || is_listed(locations, local_id) {
        return ReplicationPlan::Drop;
    }
    let candidates = holders(locations, peers);
    if candidates.len() == 0 {
        ReplicationPlan::Defer
    } else {
        ReplicationPlan::FetchFrom(candidates)
    }
}

/// The entry for `hash` is taken off the queue.
pub open spec fn dequeued(s: StoreView, hash: Seq<u8>) -> StoreView {
    StoreView { queue: s.queue.remove((s.site, hash)), ..s }
}

/// The plan for a queued block.
pub open spec fn plan_for(
    s: StoreView,
    hash: Seq<u8>,
    peers: Seq<(Seq<char>, Seq<char>)>,
) -> PlanView {
    plan(blockmeta::copies(s.locations, hash), s.site, peers)
}

/// Where the bytes of a block are.
pub enum BlockSource {
    /// Here, under this fid.
    Local(Vec<u8>),
    /// Nowhere in the cluster.
    Unknown,
    /// At other sites; these known peers are among them.
    Remote(Vec<(String, String)>),
}

/// Where a block is to be had.
pub open spec fn located(s: StoreView, hash: Seq<u8>, r: BlockSource) -> bool {
    let copies = blockmeta::copies(s.locations, hash);
    let k = (hash, s.site);
    if s.locations.dom().contains(k) {
        r matches BlockSource::Local(fid) && fid@ == s.locations[k].fid
    } else if copies.len() == 0 {
        r is Unknown
    } else {
        r matches BlockSource::Remote(c) && seqs::views(c@) == replication::peers_of(
            s.nodes,
            s.site,
        ).filter(holder(copies))
    }
}

/// With an entry of the queue settled: gone where the block is stored, put off where it is not.
pub open spec fn settled(s: StoreView, entry: EntryView, stored: bool, now_ms: i64) -> StoreView {
    if stored {
        dequeued(s, entry.hash)
    } else {
        s.with_deferral(entry.hash, entry.attempts, now_ms)
    }
}

/// Work on an entry of the queue starts with `r`, the peers to ask.
pub open spec fn entry_started(
    s: StoreView,
    after: StoreView,
    entry: EntryView,
    peers: Seq<(Seq<char>, Seq<char>)>,
    now_ms: i64,
    r: Option<Vec<(String, String)>>,
) -> bool {
    match plan_for(s, entry.hash, peers) {
        PlanView::Drop => r is None && after == dequeued(s, entry.hash),
        PlanView::Defer => r is None && after == s.with_deferral(
            entry.hash,
            entry.attempts,
            now_ms,
        ),
        PlanView::FetchFrom(c) => after == s && (r matches Some(v) && seqs::views(v@) == c),
    }
}

impl Store {
    /// Starts on one queue entry: what needs no fetch is settled at once. Gives the sources to
    /// try, in order, where a fetch is needed.
    pub fn start_entry_at(
        &mut self,
        entry: &ReplicationEntry,
        peers: &Vec<(String, String)>,
        now_ms: i64,
    ) -> (r: Option<Vec<(String, String)>>)
        requires
            now_ms <= i64::MAX - REPLICATION_BACKOFF_CAP_MS,
        ensures
            entry_started(old(self)@, final(self)@, entry@, seqs::views(peers@), now_ms, r),
            final(self).clock == old(self).clock,
    {
        let locations = match self.get_block_fids(entry.hash.as_slice()) {
            Some(v) => v,
            None => Vec::new(),
        };
        assert(seqs::views(locations@) =~= blockmeta::copies(self@.locations, entry.hash@));
        let local = self.local_location_id.clone();
        match plan_replication(entry, &locations, local.as_str(), peers) {
            ReplicationPlan::Drop => {
                self.dequeue_replication(entry.hash.as_slice(), entry.next_attempt_at);
                None
            },
            ReplicationPlan::Defer => {
                self.defer_replication_at(entry, now_ms);
                None
            },
            ReplicationPlan::FetchFrom(c) => Some(c),
        }
    }

    /// Ends the work on one queue entry: it leaves the queue where the block was fetched and
    /// stored here, and is rescheduled where that failed. It is never evicted, so it converges
    /// once a source becomes reachable.
    pub fn settle_entry_at(&mut self, entry: &ReplicationEntry, stored: bool, now_ms: i64)
        requires
            now_ms <= i64::MAX - REPLICATION_BACKOFF_CAP_MS,
        ensures
            final(self)@ == settled(old(self)@, entry@, stored, now_ms),
            final(self).clock == old(self).clock,
    {
        if stored {
            self.dequeue_replication(entry.hash.as_slice(), entry.next_attempt_at);
        } else {
            self.defer_replication_at(entry, now_ms);
        }
    }

    /// Where to read a block: the local copy first, then the known peers that hold one.
    pub fn locate_block(&self, hash: &[u8]) -> (r: BlockSource)
        ensures
            located(self@, hash@, r),
    {
        match self.get_local_block_fid(hash) {
            Some(fid) => {
                return BlockSource::Local(fid);
            },
            None => {},
        }
        match self.get_block_fids(hash) {
            None => BlockSource::Unknown,
            Some(locations) => {
                let peers = self.get_peers_with_urls();
                BlockSource::Remote(holders(&locations, &peers))
            },
        }
    }
}

/// What is reported of a block that no site holds.
pub fn not_in_cluster(hash: &[u8]) -> (r: String)
    ensures
        r@ == "Block "@ + codec::hex_text(hash@) + " not found in cluster"@,
{
    let hex = codec::hex_encode(hash);
    text::join3("Block ", hex.as_str(), " not found in cluster")
}

/// What is reported of a block that could not be fetched from any site that holds it.
pub fn not_reachable(hash: &[u8]) -> (r: String)
    ensures
        r@ == "Block "@ + codec::hex_text(hash@) + " missing at all reachable locations"@,
{
    let hex = codec::hex_encode(hash);
    text::join3("Block ", hex.as_str(), " missing at all reachable locations")
}

/// Where the bytes of a block lie below the root of a block directory.
pub open spec fn shard_path(hash: Seq<u8>) -> Seq<char> {
    let hex = codec::hex_text(hash);
    hex.subrange(0, 2) + "/"@ + hex.subrange(2, 4) + "/"@ + hex
}

/// The path of a block below the root of a block directory: `aa/bb/<full-hex>`, sharded by
/// the first two hash bytes so no directory holds the whole corpus.
pub fn block_path(hash: &[u8]) -> (r: String)
    requires
        hash@.len() >= 2,
    ensures
        r@ == shard_path(hash@),
{
    let hex = codec::hex_encode(hash);
    let v = text::chars_of(hex.as_str());
    let first = text::text_of(v.as_slice(), 0, 2);
    let second = text::text_of(v.as_slice(), 2, 4);
    let mut out = text::join4(first.as_str(), "/", second.as_str(), "/");
    text::push_text(&mut out, hex.as_str());
    out
}

// ── what a plan keeps ────────────────────────────────────────────────────────

/// A copy here takes precedence over any source.
pub proof fn lemma_local_copy_drops(
    locations: Seq<(Seq<char>, Seq<u8>)>,
    local_id: Seq<char>,
    peers: Seq<(Seq<char>, Seq<char>)>,
)
    requires
        listed_at(locations, local_id),
    ensures
        plan(locations, local_id, peers) is Drop,
{
}

/// A block is only fetched from known peers that hold it, and from all of them.
pub proof fn lemma_candidates_hold(
    locations: Seq<(Seq<char>, Seq<u8>)>,
    local_id: Seq<char>,
    peers: Seq<(Seq<char>, Seq<char>)>,
    peer: (Seq<char>, Seq<char>),
)
    requires
        plan(locations, local_id, peers) is FetchFrom,
    ensures
        plan(locations, local_id, peers)->0.contains(peer) == (peers.contains(peer) && listed_at(
            locations,
            peer.0,
        )),
{
    seqs::lemma_filter_members(peers, holder(locations), peer);
}

/// While a copy exists elsewhere and none is here, an entry is never dropped.
pub proof fn lemma_outstanding_entry_kept(
    s: StoreView,
    hash: Seq<u8>,
    site: Seq<char>,
    peers: Seq<(Seq<char>, Seq<char>)>,
)
    requires
        crate::table::enumerates(crate::table::ordered(s.locations), s.locations),
        s.locations.dom().contains((hash, site)),
        !s.locations.dom().contains((hash, s.site)),
    ensures
        !(plan_for(s, hash, peers) is Drop),
{
    let c = blockmeta::copies(s.locations, hash);
    blockmeta::lemma_copies(s.locations, hash, site, s.locations[(hash, site)].fid);
    if listed_at(c, s.site) {
        let i = choose|i: int| 0 <= i < c.len() && (#[trigger] c[i]).0 == s.site;
        assert(c.contains(c[i]));
        blockmeta::lemma_copies(s.locations, hash, s.site, c[i].1);
    }
}

} // verus!
