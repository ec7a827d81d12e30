//! Catching up: a site that was away replays the fact logs of its peers, page by page.

use vstd::prelude::*;

use crate::codec;
use crate::facts;
use crate::peers;
use crate::rows;
use crate::rows::RecordView;
use crate::seqs;
use crate::store;
use crate::store::StoreView;

verus! {

/// The two sites hold the same objects, users, blocks and locations.
pub open spec fn agree(a: StoreView, b: StoreView) -> bool {
    &&& a.objects == b.objects
    &&& a.users == b.users
    &&& a.blocks == b.blocks
    &&& a.locations == b.locations
}

/// Sites that agree still do when both have merged the same facts, at whatever times.
pub proof fn lemma_agreement_kept(
    a: StoreView,
    b: StoreView,
    recs: Seq<RecordView>,
    now_a: i64,
    now_b: i64,
)
    requires
        agree(a, b),
    ensures
        agree(a.facts_applied(recs, now_a), b.facts_applied(recs, now_b)),
    decreases recs.len(),
{
    if recs.len() > 0 {
        lemma_agreement_kept(a, b, recs.drop_last(), now_a, now_b);
    }
}

/// Merging facts in two goes comes to the same as merging them in one.
pub proof fn lemma_in_two_goes(
    s: StoreView,
    first: Seq<RecordView>,
    rest: Seq<RecordView>,
    now: i64,
    later: i64,
    at_once: i64,
)
    ensures
        agree(
            s.facts_applied(first, now).facts_applied(rest, later),
            s.facts_applied(first + rest, at_once),
        ),
    decreases rest.len(),
{
    if rest.len() == 0 {
        assert(first + rest =~= first);
        lemma_agreement_kept(s, s, first, now, at_once);
    } else {
        lemma_in_two_goes(s, first, rest.drop_last(), now, later, at_once);
        assert((first + rest).drop_last() =~= first + rest.drop_last());
        assert((first + rest).last() == rest.last());
    }
}

/// The records of a log that a site with this cursor lacks.
pub open spec fn missing(log: Seq<RecordView>, cursor: i64) -> Seq<RecordView> {
    log.filter(rows::behind(cursor))
}

/// What is missing is in order, and behind the cursor.
proof fn lemma_missing(log: Seq<RecordView>, last_seq: i64, cursor: i64)
    requires
        rows::log_ordered(log, last_seq),
    ensures
        ({
            let all = missing(log, cursor);
            &&& forall|i: int| 0 <= i < all.len() ==> (#[trigger] all[i]).seq > cursor
            &&& forall|i: int| 0 <= i < all.len() ==> log.contains(#[trigger] all[i])
            &&& forall|i: int, j: int|
                0 <= i < j < all.len() ==> (#[trigger] all[i]).seq < (#[trigger] all[j]).seq
        }),
    decreases log.len(),
{
    reveal(Seq::filter);
    let p = rows::behind(cursor);
    let all = missing(log, cursor);
    assert forall|i: int| 0 <= i < all.len() implies (#[trigger] all[i]).seq > cursor
        && log.contains(all[i]) by {
        assert(all.contains(all[i]));
        seqs::lemma_filter_members(log, p, all[i]);
    }
    if log.len() > 0 {
        let front = log.drop_last();
        assert forall|i: int| 0 <= i < front.len() implies 0 < (#[trigger] front[i]).seq
            <= last_seq by {
            assert(front[i] == log[i]);
        }
        assert forall|i: int, j: int| 0 <= i < j < front.len() implies (#[trigger] front[i]).seq
            < (#[trigger] front[j]).seq by {
            assert(front[i] == log[i] && front[j] == log[j]);
        }
        lemma_missing(front, last_seq, cursor);
        let sub = missing(front, cursor);
        assert forall|i: int, j: int| 0 <= i < j < all.len() implies (#[trigger] all[i]).seq < (
        #[trigger] all[j]).seq by {
            if j == sub.len() {
                assert(all[i] == sub[i]);
                assert(front.contains(sub[i]));
                let x = choose|x: int| 0 <= x < front.len() && front[x] == sub[i];
                assert(log[x].seq < log[log.len() - 1].seq);
            }
        }
    }
}

/// All facts of a log can be read.
pub open spec fn all_readable(log: Seq<RecordView>) -> bool {
    forall|i: int| 0 <= i < log.len() ==> facts::readable((#[trigger] log[i]).fact)
}

/// A site logs only facts that its peers can read, whatever it writes.
pub proof fn lemma_log_stays_readable(
    s: StoreView,
    bucket: Seq<char>,
    key: Seq<char>,
    shard_id: i32,
    hashes: Seq<Seq<u8>>,
    size: i64,
    etag: Seq<char>,
    hash: Seq<u8>,
    fid: Seq<u8>,
    user: (Seq<char>, Seq<char>, Seq<char>),
    ts: i64,
)
    requires
        all_readable(s.log),
    ensures
        all_readable(s.object_inserted(bucket, shard_id, key, hashes, size, etag, ts).log),
        all_readable(s.object_deleted(bucket, key, ts).log),
        all_readable(s.block_stored(hash, fid, size, ts).log),
        all_readable(s.user_created(user.0, user.1, user.2, ts).log),
{
    let texts = store::hex_texts(hashes);
    assert forall|i: int| 0 <= i < texts.len() implies codec::is_hex(#[trigger] texts[i]) by {
        codec::lemma_hex_round_trip(hashes[i]);
    }
    codec::lemma_hex_round_trip(hash);
    codec::lemma_hex_round_trip(fid);
}

/// Paging through a log: a site asks for what is behind its cursor, merges a page of at most
/// `n` facts, and then lacks exactly the rest. However large the pages are and whenever they
/// come, merging what is left leads to where merging everything at once would have led; so
/// once a page comes short, the site has caught up.
pub proof fn lemma_page_resumes(
    s: StoreView,
    peer: Seq<char>,
    log: Seq<RecordView>,
    last_seq: i64,
    n: int,
    now: i64,
    later: i64,
)
    requires
        rows::log_ordered(log, last_seq),
        all_readable(log),
        n > 0,
    ensures
        ({
            let all = missing(log, s.cursor(peer));
            let page = seqs::at_most(all, n);
            let t = if page.len() == 0 {
                s
            } else {
                s.page_applied(peer, page, now)
            };
            let rest = missing(log, t.cursor(peer));
            &&& rest == all.skip(page.len() as int)
            &&& agree(t.facts_applied(rest, later), s.facts_applied(all, later))
            &&& page.len() < n ==> rest.len() == 0 && agree(t, s.facts_applied(all, later))
        }),
{
    let c = s.cursor(peer);
    let all = missing(log, c);
    let page = seqs::at_most(all, n);
    let k = page.len() as int;
    lemma_missing(log, last_seq, c);
    if k == 0 {
        assert(all.skip(0) =~= all);
    } else {
        let good = page.filter(peers::readable_record());
        assert forall|i: int| 0 <= i < page.len() implies peers::readable_record()(
            #[trigger] page[i],
        ) by {
            assert(page[i] == all[i]);
            assert(log.contains(all[i]));
        }
        seqs::lemma_filter_is_skip(page, peers::readable_record(), 0);
        assert(page.skip(0) =~= page);
        assert(good == page);
        let t = s.page_applied(peer, page, now);
        let merged = s.facts_applied(page, now);
        peers::lemma_facts_keep_cursors(s, page, now);
        lemma_last_is_max(c, page);
        let m = page.last().seq;
        assert(page.last() == all[k - 1]);
        assert(t.cursor(peer) == m);
        // What is left.
        let q = rows::behind(m);
        assert forall|i: int| 0 <= i < log.len() implies rows::behind(m)(#[trigger] log[i]) == (
        rows::behind(c)(log[i]) && q(log[i])) by {}
        seqs::lemma_filter_twice(log, rows::behind(c), q, rows::behind(m));
        seqs::lemma_filter_is_skip(all, q, k);
        let rest = missing(log, m);
        assert(rest == all.skip(k));
        // Where it leads.
        lemma_in_two_goes(s, page, rest, now, later, later);
        assert(page + rest =~= all);
        assert(agree(t, merged));
        lemma_agreement_kept(t, merged, rest, later, later);
    }
    let t = if k == 0 {
        s
    } else {
        s.page_applied(peer, page, now)
    };
    if k < n {
        assert(all.skip(k) =~= Seq::<RecordView>::empty());
        assert(t.facts_applied(Seq::empty(), later) == t);
    }
}

/// The highest sequence number of an ascending page behind the cursor is its last.
proof fn lemma_last_is_max(after: i64, page: Seq<RecordView>)
    requires
        page.len() > 0,
        forall|i: int| 0 <= i < page.len() ==> (#[trigger] page[i]).seq > after,
        forall|i: int, j: int|
            0 <= i < j < page.len() ==> (#[trigger] page[i]).seq < (#[trigger] page[j]).seq,
    ensures
        peers::max_seq(after, page) == page.last().seq,
    decreases page.len(),
{
    let front = page.drop_last();
    if front.len() > 0 {
        assert forall|i: int| 0 <= i < front.len() implies (#[trigger] front[i]).seq > after by {
            assert(front[i] == page[i]);
        }
        assert forall|i: int, j: int| 0 <= i < j < front.len() implies (#[trigger] front[i]).seq
            < (#[trigger] front[j]).seq by {
            assert(front[i] == page[i] && front[j] == page[j]);
        }
        lemma_last_is_max(after, front);
        assert(front.last() == page[page.len() - 2]);
    } else {
        assert(peers::max_seq(after, front) == after);
    }
}

} // verus!
