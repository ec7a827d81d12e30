//! Merging what peers wrote: what a fact of a peer changes here, and how far a page brings a site.

use vstd::prelude::*;

use crate::codec;
use crate::facts;
use crate::hashing;
use crate::laws::collection::hash_at;
use crate::laws::writes::{overtakes, same_but};
use crate::order::KeyOrder;
use crate::peers;
use crate::replication;
use crate::rows;
use crate::rows::{FactView, QueueRow, RecordView};
use crate::seqs;
use crate::store;
use crate::store::StoreView;
use crate::table;

verus! {

/// A fact can be read where its hashes and fids are hexadecimal.
pub proof fn lemma_readable(rec: RecordView)
    ensures
        facts::readable(rec.fact) == (match rec.fact {
            FactView::ObjectPut { blocks, .. } => forall|i: int|
                0 <= i < blocks.len() ==> codec::is_hex(#[trigger] blocks[i]),
            FactView::BlockAnnounce { hash, fid, .. } => codec::is_hex(hash) && codec::is_hex(fid),
            _ => true,
        }),
{
}

/// The put of a peer writes the row that it announces: size, etag and the hashes, in order. It
/// counts where the key holds nothing or something older, and is not announced again.
pub proof fn lemma_merge_put(
    s: StoreView,
    rec: RecordView,
    now_ms: i64,
    bucket: Seq<char>,
    key: Seq<char>,
    blocks: Seq<Seq<char>>,
    size: i64,
    etag: Seq<char>,
)
    requires
        rec.fact == (FactView::ObjectPut { bucket, key, blocks, size, etag }),
        forall|i: int| 0 <= i < blocks.len() ==> (#[trigger] blocks[i]).len() == 64,
    ensures
        ({
            let k = (bucket, key);
            let t = s.fact_applied(rec, now_ms);
            let row = t.objects[k];
            &&& t.objects.dom().contains(k)
            &&& overtakes(s.objects, k, rec.ts) ==> {
                &&& !row.deleted
                &&& row.size == size
                &&& row.etag == etag
                &&& row.updated_at == rec.ts
                &&& row.shard_id == hashing::shard_of(key)
                &&& row.blocks.len() == 32 * blocks.len()
                &&& forall|i: int|
                    0 <= i < blocks.len() ==> #[trigger] hash_at(row.blocks, i)
                        == codec::hex_bytes(blocks[i])
            }
            &&& !overtakes(s.objects, k, rec.ts) ==> row == s.objects[k]
            &&& same_but(s.objects, t.objects, k)
            &&& t == (StoreView { objects: t.objects, ..s })
        }),
{
    let hashes = facts::all_hex_bytes(blocks);
    assert forall|i: int| 0 <= i < hashes.len() implies (#[trigger] hashes[i]).len() == 32 by {
        assert(blocks[i].len() == 64);
    }
    store::lemma_blocks_round_trip(hashes);
    let raw = crate::chunking::joined(hashes);
    assert forall|i: int| 0 <= i < blocks.len() implies #[trigger] hash_at(raw, i)
        == codec::hex_bytes(blocks[i]) by {
        assert(store::decoded(raw)[i] == hashes[i]);
    }
}

/// The deletion of a peer leaves a tombstone here too.
pub proof fn lemma_merge_delete(
    s: StoreView,
    rec: RecordView,
    now_ms: i64,
    bucket: Seq<char>,
    key: Seq<char>,
)
    requires
        rec.fact == (FactView::ObjectDelete { bucket, key }),
    ensures
        ({
            let k = (bucket, key);
            let t = s.fact_applied(rec, now_ms);
            let row = t.objects[k];
            &&& t.objects.dom().contains(k)
            &&& overtakes(s.objects, k, rec.ts) ==> row.deleted && row.size == 0
                && row.blocks.len() == 0 && row.etag.len() == 0 && row.updated_at == rec.ts
                && row.shard_id == hashing::shard_of(key)
            &&& !overtakes(s.objects, k, rec.ts) ==> row == s.objects[k]
            &&& same_but(s.objects, t.objects, k)
            &&& t == (StoreView { objects: t.objects, ..s })
        }),
{
}

/// The user of a peer is a user here, unless a newer one has the access key.
pub proof fn lemma_merge_user(
    s: StoreView,
    rec: RecordView,
    now_ms: i64,
    access_key: Seq<char>,
    secret_key: Seq<char>,
    policy: Seq<char>,
)
    requires
        rec.fact == (FactView::UserPut { access_key, secret_key, policy }),
    ensures
        ({
            let t = s.fact_applied(rec, now_ms);
            &&& t.users.dom() == s.users.dom().insert(access_key)
            &&& !s.users.dom().contains(access_key) || s.users[access_key].updated_at < rec.ts
                ==> t.users[access_key].secret_key == secret_key && t.users[access_key].policy
                == policy && t.users[access_key].updated_at == rec.ts
            &&& s.users.dom().contains(access_key) && s.users[access_key].updated_at >= rec.ts
                ==> t.users[access_key] == s.users[access_key]
            &&& forall|u: Seq<char>|
                u != access_key && s.users.dom().contains(u) ==> #[trigger] t.users[u] == s.users[u]
            &&& t == (StoreView { users: t.users, ..s })
        }),
{
    assert(s.fact_applied(rec, now_ms).users.dom() =~= s.users.dom().insert(access_key));
}

/// The announcement of a block by another site records where its copy is, and queues a pull where
/// this site has no copy and none is queued: due at once, without failures.
pub proof fn lemma_merge_announcement(
    s: StoreView,
    rec: RecordView,
    now_ms: i64,
    hash: Seq<char>,
    location_id: Seq<char>,
    fid: Seq<char>,
    size: i64,
)
    requires
        rec.fact == (FactView::BlockAnnounce { hash, location_id, fid, size }),
    ensures
        ({
            let h = codec::hex_bytes(hash);
            let k = (h, location_id);
            let q = (s.site, h);
            let t = s.fact_applied(rec, now_ms);
            &&& t.blocks.dom() == s.blocks.dom().insert(h)
            &&& t.locations.dom() == s.locations.dom().insert(k)
            &&& !s.blocks.dom().contains(h) || s.blocks[h].updated_at < rec.ts
                ==> t.blocks[h].size == size && t.blocks[h].updated_at == rec.ts
            &&& s.blocks.dom().contains(h) && s.blocks[h].updated_at >= rec.ts ==> t.blocks[h]
                == s.blocks[h]
            &&& !s.locations.dom().contains(k) || s.locations[k].updated_at < rec.ts
                ==> t.locations[k].fid == codec::hex_bytes(fid) && t.locations[k].updated_at
                == rec.ts
            &&& s.locations.dom().contains(k) && s.locations[k].updated_at >= rec.ts
                ==> t.locations[k] == s.locations[k]
            &&& forall|x: Seq<u8>|
                x != h && s.blocks.dom().contains(x) ==> #[trigger] t.blocks[x] == s.blocks[x]
            &&& forall|x: (Seq<u8>, Seq<char>)|
                x != k && s.locations.dom().contains(x) ==> #[trigger] t.locations[x]
                    == s.locations[x]
            &&& t.queue == (if s.locations.dom().contains((h, s.site)) || location_id == s.site
                || s.queue.dom().contains(q) {
                s.queue
            } else {
                s.queue.insert(
                    q,
                    QueueRow { next_attempt_at: 0, attempts: 0, enqueued_at: now_ms },
                )
            })
            &&& t == (StoreView {
                blocks: t.blocks,
                locations: t.locations,
                queue: t.queue,
                ..s
            })
        }),
{
    let h = codec::hex_bytes(hash);
    let t = s.fact_applied(rec, now_ms);
    assert(t.blocks.dom() =~= s.blocks.dom().insert(h));
    assert(t.locations.dom() =~= s.locations.dom().insert((h, location_id)));
}

/// Merging several facts is merging each of them, one after the other.
pub proof fn lemma_merge_one_by_one(
    s: StoreView,
    recs: Seq<RecordView>,
    rec: RecordView,
    now_ms: i64,
)
    ensures
        s.facts_applied(Seq::empty(), now_ms) == s,
        s.facts_applied(recs.push(rec), now_ms) == s.facts_applied(recs, now_ms).fact_applied(
            rec,
            now_ms,
        ),
{
    assert(recs.push(rec).drop_last() =~= recs);
}

/// A page of facts is merged but for what cannot be read, and moves the cursor of the peer to the
/// highest number that was merged, and never back. Cursors of other peers stay.
pub proof fn lemma_page(s: StoreView, peer: Seq<char>, recs: Seq<RecordView>, now_ms: i64)
    ensures
        ({
            let good = recs.filter(|r: RecordView| facts::readable(r.fact));
            let all = s.facts_applied(good, now_ms);
            let t = s.page_applied(peer, recs, now_ms);
            let was = if s.cursors.dom().contains(peer) {
                s.cursors[peer]
            } else {
                0
            };
            &&& t == (StoreView { cursors: t.cursors, ..all })
            &&& t.cursors.dom() == s.cursors.dom().insert(peer)
            &&& t.cursors[peer] >= was
            &&& forall|i: int| 0 <= i < good.len() ==> t.cursors[peer] >= (#[trigger] good[i]).seq
            &&& t.cursors[peer] == was || exists|i: int|
                0 <= i < good.len() && t.cursors[peer] == (#[trigger] good[i]).seq
            &&& forall|other: Seq<char>|
                other != peer && s.cursors.dom().contains(other) ==> #[trigger] t.cursors[other]
                    == s.cursors[other]
        }),
{
    let good = recs.filter(|r: RecordView| facts::readable(r.fact));
    crate::laws::pulls::lemma_same_filter(
        recs,
        peers::readable_record(),
        |r: RecordView| facts::readable(r.fact),
    );
    peers::lemma_facts_keep_cursors(s, good, now_ms);
    lemma_max(s.cursor(peer), good);
    let t = s.page_applied(peer, recs, now_ms);
    assert(t.cursors.dom() =~= s.cursors.dom().insert(peer));
}

proof fn lemma_max(after: i64, recs: Seq<RecordView>)
    ensures
        peers::max_seq(after, recs) >= after,
        forall|i: int|
            0 <= i < recs.len() ==> peers::max_seq(after, recs) >= (#[trigger] recs[i]).seq,
        peers::max_seq(after, recs) == after || exists|i: int|
            0 <= i < recs.len() && peers::max_seq(after, recs) == (#[trigger] recs[i]).seq,
    decreases recs.len(),
{
    if recs.len() > 0 {
        let front = recs.drop_last();
        lemma_max(after, front);
        let m = peers::max_seq(after, front);
        if recs.last().seq > m {
            assert(recs[recs.len() - 1].seq == peers::max_seq(after, recs));
        } else if m != after {
            let i = choose|i: int| 0 <= i < front.len() && m == (#[trigger] front[i]).seq;
            assert(recs[i].seq == peers::max_seq(after, recs));
        }
        assert forall|i: int| 0 <= i < recs.len() implies peers::max_seq(after, recs) >= (
        #[trigger] recs[i]).seq by {
            if i < front.len() {
                assert(front[i] == recs[i]);
            }
        }
    }
}

/// The cursor of a peer is where it was set last, if that was ahead; zero where it never was set.
pub proof fn lemma_cursor(s: StoreView, peer: Seq<char>, last_seq: i64, other: Seq<char>)
    ensures
        s.cursor(peer) == (if s.cursors.dom().contains(peer) {
            s.cursors[peer]
        } else {
            0
        }),
        ({
            let t = s.with_cursor(peer, last_seq);
            &&& t.cursors.dom() == s.cursors.dom().insert(peer)
            &&& !s.cursors.dom().contains(peer) || s.cursors[peer] < last_seq ==> t.cursors[peer]
                == last_seq
            &&& s.cursors.dom().contains(peer) && s.cursors[peer] >= last_seq ==> t.cursors[peer]
                == s.cursors[peer]
            &&& other != peer && s.cursors.dom().contains(other) ==> t.cursors[other]
                == s.cursors[other]
            &&& t == (StoreView { cursors: t.cursors, ..s })
        }),
{
    assert(s.with_cursor(peer, last_seq).cursors.dom() =~= s.cursors.dom().insert(peer));
}

/// What a site serves of its log is what is behind the given number: every such record, in the
/// order of the log, up to the limit.
pub proof fn lemma_served(log: Seq<RecordView>, after: i64, limit: int, r: RecordView)
    requires
        limit >= 0,
    ensures
        log.filter(rows::behind(after)).contains(r) == (log.contains(r) && r.seq > after),
        seqs::at_most(log.filter(rows::behind(after)), limit).len() <= limit,
        log.filter(rows::behind(after)).len() <= limit ==> seqs::at_most(
            log.filter(rows::behind(after)),
            limit,
        ) == log.filter(rows::behind(after)),
        forall|i: int|
            0 <= i < seqs::at_most(log.filter(rows::behind(after)), limit).len() ==> seqs::at_most(
                log.filter(rows::behind(after)),
                limit,
            )[i] == #[trigger] log.filter(rows::behind(after))[i],
        log.filter(rows::behind(after)).len() > limit ==> seqs::at_most(
            log.filter(rows::behind(after)),
            limit,
        ).len() == limit,
{
    seqs::lemma_filter_members(log, rows::behind(after), r);
}

// ── nodes ────────────────────────────────────────────────────────────────────

/// Recording a peer sets its address and when it was heard of; this site itself and every other
/// node stay as they are.
pub proof fn lemma_record_peer(
    s: StoreView,
    id: Seq<char>,
    api_url: Seq<char>,
    now_ms: i64,
    other: Seq<char>,
)
    ensures
        ({
            let t = s.with_peer(id, api_url, now_ms);
            &&& id == s.site ==> t == s
            &&& id != s.site ==> {
                &&& t.nodes.dom() == s.nodes.dom().insert(id)
                &&& t.nodes[id].api_url == api_url
                &&& t.nodes[id].last_heartbeat == now_ms
                &&& other != id && s.nodes.dom().contains(other) ==> t.nodes[other]
                    == s.nodes[other]
                &&& t == (StoreView { nodes: t.nodes, ..s })
            }
        }),
        ({
            let t = s.with_node(id, api_url, now_ms);
            &&& t.nodes.dom() == s.nodes.dom().insert(id)
            &&& t.nodes[id].api_url == api_url
            &&& t.nodes[id].last_heartbeat == now_ms
            &&& other != id && s.nodes.dom().contains(other) ==> t.nodes[other] == s.nodes[other]
            &&& t == (StoreView { nodes: t.nodes, ..s })
        }),
{
}

/// Gossip gives every node that it names, but for this site, the address that it names last for
/// it, and leaves the others.
pub proof fn lemma_gossip(
    s: StoreView,
    nodes: Seq<(Seq<char>, Seq<char>)>,
    now_ms: i64,
    i: int,
)
    requires
        0 <= i < nodes.len(),
        forall|j: int| i < j < nodes.len() ==> (#[trigger] nodes[j]).0 != nodes[i].0,
    ensures
        ({
            let t = peers::members_merged(s, nodes, now_ms);
            &&& nodes[i].0 != s.site ==> t.nodes.dom().contains(nodes[i].0) && t.nodes[
                nodes[i].0
            ].api_url == nodes[i].1 && t.nodes[nodes[i].0].last_heartbeat == now_ms
            &&& t == (StoreView { nodes: t.nodes, ..s })
        }),
    decreases nodes.len(),
{
    lemma_gossip_frame(s, nodes.drop_last(), now_ms, nodes[i].0);
    if i < nodes.len() - 1 {
        let front = nodes.drop_last();
        assert forall|j: int| i < j < front.len() implies (#[trigger] front[j]).0
            != front[i].0 by {
            assert(front[j] == nodes[j]);
        }
        lemma_gossip(s, front, now_ms, i);
        assert(nodes[nodes.len() - 1].0 != nodes[i].0);
    }
}

/// Gossip changes nothing but the nodes that it names.
pub proof fn lemma_gossip_frame(
    s: StoreView,
    nodes: Seq<(Seq<char>, Seq<char>)>,
    now_ms: i64,
    id: Seq<char>,
)
    ensures
        ({
            let t = peers::members_merged(s, nodes, now_ms);
            &&& t == (StoreView { nodes: t.nodes, ..s })
            &&& id == s.site || (forall|i: int| 0 <= i < nodes.len() ==> (#[trigger] nodes[i]).0 != id)
                ==> t.nodes.dom().contains(id) == s.nodes.dom().contains(id) && (
            s.nodes.dom().contains(id) ==> t.nodes[id] == s.nodes[id])
        }),
    decreases nodes.len(),
{
    if nodes.len() > 0 {
        let front = nodes.drop_last();
        lemma_gossip_frame(s, front, now_ms, id);
        if forall|i: int| 0 <= i < nodes.len() ==> (#[trigger] nodes[i]).0 != id {
            assert forall|i: int| 0 <= i < front.len() implies (#[trigger] front[i]).0 != id by {
                assert(front[i] == nodes[i]);
            }
            assert(nodes[nodes.len() - 1].0 != id);
        }
    }
}

/// The peers of a site are the other known nodes, each once with its address, in the order of
/// their ids.
pub proof fn lemma_peers_in_order(s: StoreView, i: int, j: int)
    requires
        table::enumerates(table::ordered(s.nodes), s.nodes),
    ensures
        ({
            let all = replication::peers_of(s.nodes, s.site);
            &&& 0 <= i < j < all.len() ==> all[i].0.before(all[j].0) && all[i].0 != all[j].0
            &&& 0 <= i < all.len() ==> all[i].0 != s.site && s.nodes.dom().contains(all[i].0)
                && s.nodes[all[i].0].api_url == all[i].1
        }),
        forall|id: Seq<char>| #[trigger]
            s.nodes.dom().contains(id) && id != s.site ==> replication::peers_of(
                s.nodes,
                s.site,
            ).contains((id, s.nodes[id].api_url)),
{
    let rows = table::ordered(s.nodes);
    let p = replication::other_than(s.site);
    let kept = rows.filter(p);
    table::lemma_filter_ascending(rows, p);
    let all = replication::peers_of(s.nodes, s.site);
    if 0 <= i < all.len() {
        assert(kept.contains(kept[i]));
        seqs::lemma_filter_members(rows, p, kept[i]);
    }
    if 0 <= i < j < all.len() {
        assert(kept[i].0.before(kept[j].0));
        <Seq<char> as crate::order::KeyOrder>::before_irreflexive(kept[i].0);
    }
    assert forall|id: Seq<char>| #[trigger]
        s.nodes.dom().contains(id) && id != s.site implies all.contains(
        (id, s.nodes[id].api_url),
    ) by {
        replication::lemma_peers(s.nodes, s.site, id, s.nodes[id].api_url);
    }
}

/// A page of the log has the records behind a number, in order, and at most so many; a negative
/// limit is none.
pub proof fn lemma_log_page(log: Seq<RecordView>, after: i64, limit: i64)
    ensures
        ({
            let due = log.filter(|r: RecordView| r.seq > after);
            let page = facts::log_page(log, after, limit);
            &&& limit < 0 || due.len() <= limit ==> page == due
            &&& 0 <= limit < due.len() ==> page == due.take(limit as int)
        }),
{
    crate::laws::pulls::lemma_same_filter(
        log,
        rows::behind(after),
        |r: RecordView| r.seq > after,
    );
}

} // verus!
