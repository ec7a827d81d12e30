//! Keeping up with the peers: fact pages, membership, link state.

use std::time::SystemTime;

use vstd::prelude::*;

use crate::facts;
use crate::internal::FACT_SYNC_BATCH;
use crate::replication;
use crate::rows::{FactRecord, RecordView};
use crate::seqs;
use crate::store::{Store, StoreView};
use crate::table::Table;
use crate::text;

verus! {

// ── fact sync ────────────────────────────────────────────────────────────────

/// The records whose hashes and fids can be read.
pub open spec fn readable_record() -> spec_fn(RecordView) -> bool {
    |r: RecordView| facts::readable(r.fact)
}

/// The largest sequence number among `recs` and `after`.
pub open spec fn max_seq(after: i64, recs: Seq<RecordView>) -> i64
    decreases recs.len(),
{
    if recs.len() == 0 {
        after
    } else {
        let m = max_seq(after, recs.drop_last());
        if recs.last().seq > m {
            recs.last().seq
        } else {
            m
        }
    }
}

impl StoreView {
    /// After a page of a peer's facts was merged: what cannot be read is skipped, and the
    /// cursor moves to the last that was merged.
    pub open spec fn page_applied(
        self,
        peer: Seq<char>,
        recs: Seq<RecordView>,
        now_ms: i64,
    ) -> StoreView {
        let good = recs.filter(readable_record());
        self.facts_applied(good, now_ms).with_cursor(peer, max_seq(self.cursor(peer), good))
    }
}

impl Store {
    /// Merges a page of a peer's facts. Says whether there may be more: a short page means we
    /// have caught up, a full page means keep draining. An empty page changes nothing.
    pub fn apply_page_at(&mut self, peer: &str, page: &Vec<FactRecord>, now_ms: i64) -> (r: bool)
        ensures
            final(self)@ == page_merged(old(self)@, peer@, seqs::views(page@), now_ms),
            r == is_full_page(page@.len()),
            final(self).clock == old(self).clock,
    {
        if page.len() == 0 {
            return false;
        }
        let ghost before = self@;
        let ghost all = seqs::views(page@);
        let ghost p = readable_record();
        let after: i64 = self.get_cursor(peer);
        let mut last: i64 = after;
        let mut i: usize = 0;
        proof {
            seqs::lemma_filter_none(all, p);
            assert(all.take(0).filter(p) =~= Seq::<RecordView>::empty());
        }
        while i < page.len()
            invariant
                i <= page@.len(),
                all == seqs::views(page@),
                p == readable_record(),
                self@ == before.facts_applied(all.take(i as int).filter(p), now_ms),
                last == max_seq(after, all.take(i as int).filter(p)),
                self.clock == old(self).clock,
            decreases page@.len() - i,
        {
            let rec = &page[i];
            let ghost done = all.take(i as int).filter(p);
            proof {
                seqs::lemma_filter_take(all, p, i as int);
                assert(all[i as int] == rec@);
            }
            match self.apply_fact_at(rec, now_ms) {
                Ok(()) => {
                    proof {
                        assert(done.push(rec@).drop_last() =~= done);
                    }
                    if rec.seq > last {
                        last = rec.seq;
                    }
                },
                Err(_) => {},
            }
            i += 1;
        }
        proof {
            assert(all.take(all.len() as int) =~= all);
        }
        self.set_cursor(peer, last);
        page.len() as u64 >= FACT_SYNC_BATCH as u64
    }

    /// Merges a page of a peer's facts.
    pub fn apply_page(&mut self, peer: &str, page: &Vec<FactRecord>) -> (r: bool)
        ensures
            exists|t: SystemTime|
                final(self)@ == page_merged(
                    old(self)@,
                    peer@,
                    seqs::views(page@),
                    #[trigger] old(self).clock.millis(t),
                ),
            r == is_full_page(page@.len()),
            final(self).clock == old(self).clock,
    {
        let now: i64 = self.clock.now_millis();
        self.apply_page_at(peer, page, now)
    }

    /// Records the nodes that a peer knows.
    pub fn merge_members_at(&mut self, nodes: &Vec<(String, String)>, now_ms: i64)
        ensures
            final(self)@ == members_merged(old(self)@, seqs::views(nodes@), now_ms),
            final(self).clock == old(self).clock,
    {
        let ghost before = self@;
        let ghost all = seqs::views(nodes@);
        let mut i: usize = 0;
        while i < nodes.len()
            invariant
                i <= nodes@.len(),
                all == seqs::views(nodes@),
                self@ == members_merged(before, all.take(i as int), now_ms),
                self.clock == old(self).clock,
            decreases nodes@.len() - i,
        {
            proof {
                assert(all.take(i + 1).drop_last() =~= all.take(i as int));
                assert(all.take(i + 1).last() == nodes@[i as int]@);
            }
            self.record_peer_at(nodes[i].0.as_str(), nodes[i].1.as_str(), now_ms);
            i += 1;
        }
        assert(all.take(all.len() as int) =~= all);
    }

    /// Records the nodes that a peer knows, at the time of the cluster clock.
    pub fn merge_members(&mut self, nodes: &Vec<(String, String)>)
        ensures
            exists|t: SystemTime|
                final(self)@ == members_merged(
                    old(self)@,
                    seqs::views(nodes@),
                    #[trigger] old(self).clock.millis(t),
                ),
            final(self).clock == old(self).clock,
    {
        let now: i64 = self.clock.now_millis();
        self.merge_members_at(nodes, now);
    }
}

/// With a page of the log of a peer applied; an empty page says nothing.
pub open spec fn page_merged(
    s: StoreView,
    peer: Seq<char>,
    recs: Seq<RecordView>,
    now_ms: i64,
) -> StoreView {
    if recs.len() == 0 {
        s
    } else {
        s.page_applied(peer, recs, now_ms)
    }
}

/// A page of so many records is full, so that there may be more behind it.
pub open spec fn is_full_page(records: nat) -> bool {
    records >= FACT_SYNC_BATCH
}

/// After the nodes of a list were recorded, one by one.
pub open spec fn members_merged(
    s: StoreView,
    nodes: Seq<(Seq<char>, Seq<char>)>,
    now_ms: i64,
) -> StoreView
    decreases nodes.len(),
{
    if nodes.len() == 0 {
        s
    } else {
        members_merged(s, nodes.drop_last(), now_ms).with_peer(
            nodes.last().0,
            nodes.last().1,
            now_ms,
        )
    }
}

/// Gossip loses no member: what was known stays known, every other node of the list is known
/// afterwards, and nobody can change the address of this site.
pub proof fn lemma_gossip_grows(s: StoreView, nodes: Seq<(Seq<char>, Seq<char>)>, now_ms: i64)
    ensures
        s.nodes.dom().subset_of(members_merged(s, nodes, now_ms).nodes.dom()),
        forall|i: int|
            0 <= i < nodes.len() && (#[trigger] nodes[i]).0 != s.site ==> members_merged(
                s,
                nodes,
                now_ms,
            ).nodes.dom().contains(nodes[i].0),
        s.nodes.dom().contains(s.site) ==> members_merged(s, nodes, now_ms).nodes[s.site]
            == s.nodes[s.site],
        members_merged(s, nodes, now_ms).site == s.site,
    decreases nodes.len(),
{
    if nodes.len() > 0 {
        let front = nodes.drop_last();
        lemma_gossip_grows(s, front, now_ms);
        assert forall|i: int|
            0 <= i < nodes.len() && (#[trigger] nodes[i]).0 != s.site implies members_merged(
            s,
            nodes,
            now_ms,
        ).nodes.dom().contains(nodes[i].0) by {
            if i < front.len() {
                assert(front[i] == nodes[i]);
            }
        }
    }
}

proof fn lemma_max_seq(after: i64, recs: Seq<RecordView>)
    ensures
        max_seq(after, recs) >= after,
        forall|i: int| 0 <= i < recs.len() ==> (#[trigger] recs[i]).seq <= max_seq(after, recs),
    decreases recs.len(),
{
    if recs.len() > 0 {
        let front = recs.drop_last();
        lemma_max_seq(after, front);
        assert forall|i: int| 0 <= i < recs.len() implies (#[trigger] recs[i]).seq <= max_seq(
            after,
            recs,
        ) by {
            if i < front.len() {
                assert(front[i] == recs[i]);
            }
        }
    }
}

/// Syncing makes progress: after a page with a readable fact behind the cursor, the cursor has
/// moved on.
pub proof fn lemma_page_advances(
    s: StoreView,
    peer: Seq<char>,
    recs: Seq<RecordView>,
    now_ms: i64,
    i: int,
)
    requires
        0 <= i < recs.len(),
        facts::readable(recs[i].fact),
        recs[i].seq > s.cursor(peer),
    ensures
        s.page_applied(peer, recs, now_ms).cursor(peer) >= recs[i].seq,
{
    let good = recs.filter(readable_record());
    assert(recs.contains(recs[i]));
    seqs::lemma_filter_members(recs, readable_record(), recs[i]);
    lemma_max_seq(s.cursor(peer), good);
    let j = choose|j: int| 0 <= j < good.len() && good[j] == recs[i];
    assert(good[j].seq <= max_seq(s.cursor(peer), good));
    lemma_facts_keep_cursors(s, good, now_ms);
}

/// Applying facts moves no cursor: only the page that brought them does.
pub proof fn lemma_facts_keep_cursors(s: StoreView, recs: Seq<RecordView>, now_ms: i64)
    ensures
        s.facts_applied(recs, now_ms).cursors == s.cursors,
    decreases recs.len(),
{
    if recs.len() > 0 {
        lemma_facts_keep_cursors(s, recs.drop_last(), now_ms);
    }
}

// ── drawing a peer ───────────────────────────────────────────────────────────

/// `SliceRandom::choose` with the generator of the thread: one of the peers, where there is
/// any. Which one is left to chance.
#[verifier::external_body]
fn choose_peer(peers: &Vec<(String, String)>) -> (r: Option<(String, String)>)
    ensures
        r is Some == (peers@.len() > 0),
        r matches Some(p) ==> exists|i: int| 0 <= i < peers@.len() && p@ == (#[trigger] peers@[i])@,
{
    rand::seq::SliceRandom::choose(peers.as_slice(), &mut rand::thread_rng()).cloned()
}

impl Store {
    /// The peer to take the time from in this round: any of the known ones.
    pub fn draw_peer(&self) -> (r: Option<(String, String)>)
        ensures
            r is Some == (replication::peers_of(self@.nodes, self@.site).len() > 0),
            r matches Some(p) ==> replication::peers_of(self@.nodes, self@.site).contains(p@),
    {
        let peers = self.get_peers();
        let ghost all = seqs::views(peers@);
        let drawn = choose_peer(&peers);
        proof {
            if drawn is Some {
                let i = choose|i: int|
                    0 <= i < peers@.len() && drawn.unwrap()@ == (#[trigger] peers@[i])@;
                assert(all[i] == drawn.unwrap()@);
            }
        }
        drawn
    }
}

// ── joining ──────────────────────────────────────────────────────────────────

/// What a node asks for to join.
pub open spec fn join_request(id: Seq<char>, addr: Seq<char>) -> Seq<char> {
    "/internal/join?id="@ + id + "&addr="@ + addr
}

/// The path at which a node registers itself with a peer.
pub fn register_path(location_id: &str, advertise_addr: &str) -> (r: String)
    ensures
        r@ == join_request(location_id@, advertise_addr@),
{
    text::join4("/internal/join?id=", location_id, "&addr=", advertise_addr)
}

/// The name of a peer: what it calls itself, else its address.
pub open spec fn name_of(reported: Seq<char>, url: Seq<char>) -> Seq<char> {
    if reported.len() == 0 {
        url
    } else {
        reported
    }
}

/// The id to record for the peer that was dialled: its self-reported id, or else the URL that
/// was dialled.
pub fn peer_id(reported: &str, peer_url: &str) -> (r: String)
    ensures
        r@ == name_of(reported@, peer_url@),
{
    proof {
        reveal_strlit("");
        assert(reported@.len() == 0 ==> reported@ =~= ""@);
    }
    if text::same_text(reported, "") {
        peer_url.to_string()
    } else {
        reported.to_string()
    }
}

/// What a node asks for to get the log of a peer behind a number.
pub open spec fn facts_request(after: i64) -> Seq<char> {
    "/internal/facts/"@ + text::signed_text(after as int)
}

/// The path of a page of facts.
pub fn facts_path(after: i64) -> (r: String)
    ensures
        r@ == facts_request(after),
{
    let n = text::signed_decimal(after);
    text::join2("/internal/facts/", n.as_str())
}

/// What a node asks for to get a block.
pub open spec fn block_request(hash: Seq<u8>) -> Seq<char> {
    "/internal/blocks/"@ + crate::codec::hex_text(hash)
}

/// The path of the bytes of a block.
pub fn block_request_path(hash: &[u8]) -> (r: String)
    ensures
        r@ == block_request(hash@),
{
    let hex = crate::codec::hex_encode(hash);
    text::join2("/internal/blocks/", hex.as_str())
}

// ── link state ───────────────────────────────────────────────────────────────

/// Per-peer link state for edge-triggered logging: periodic loops (membership
/// gossip, fact sync, clock sync) report once when a peer becomes unreachable and
/// once when it recovers, instead of on every heartbeat.
pub struct PeerLinks {
    up: Table<String, bool>,
}

impl View for PeerLinks {
    type V = Map<Seq<char>, bool>;

    closed spec fn view(&self) -> Map<Seq<char>, bool> {
        self.up@
    }
}

impl PeerLinks {
    pub fn new() -> (r: PeerLinks)
        ensures
            r@ == Map::<Seq<char>, bool>::empty(),
    {
        PeerLinks { up: Table::new() }
    }

    /// Whether the last word on a peer is that it is down.
    fn is_down(&self, peer_id: &str) -> (r: bool)
        ensures
            r == (self@.dom().contains(peer_id@) && !self@[peer_id@]),
    {
        match self.up.get(&peer_id.to_string()) {
            Some(up) => !*up,
            None => false,
        }
    }
}

/// The link to a peer is known to be down.
pub open spec fn is_down(links: Map<Seq<char>, bool>, peer: Seq<char>) -> bool {
    links.dom().contains(peer) && !links[peer]
}

/// Notes that a peer could not be reached. Says whether that is news.
pub fn peer_link_failed(links: &mut PeerLinks, peer_id: &str) -> (r: bool)
    ensures
        final(links)@ == old(links)@.insert(peer_id@, false),
        r == !is_down(old(links)@, peer_id@),
{
    let was_down = links.is_down(peer_id);
    links.up.insert(peer_id.to_string(), false);
    !was_down
}

/// Notes that a peer was reached. Says whether it has recovered with that.
pub fn peer_link_ok(links: &mut PeerLinks, peer_id: &str) -> (r: bool)
    ensures
        final(links)@ == old(links)@.insert(peer_id@, true),
        r == is_down(old(links)@, peer_id@),
{
    let was_down = links.is_down(peer_id);
    links.up.insert(peer_id.to_string(), true);
    was_down
}

/// Each outage is reported once, and so is its end: a second failure in a row is no news, and
/// a success is news exactly where the word before it was a failure.
pub proof fn lemma_edges_reported_once(links: Map<Seq<char>, bool>, peer: Seq<char>)
    ensures
        ({
            let down = links.insert(peer, false);
            let up = links.insert(peer, true);
            &&& down.dom().contains(peer) && !down[peer]
            &&& !(up.dom().contains(peer) && !up[peer])
        }),
{
}

} // verus!
