//! The pull queue: what is queued, when it is due, and how long a failure puts it off.

use vstd::arithmetic::power2::pow2;
use vstd::prelude::*;

use crate::blockmeta;
use crate::codec;
use crate::db::EntryView;
use crate::drain;
use crate::drain::PlanView;
use crate::fetching;
use crate::fetching::{DrainView, FetchEvent, Phase};
use crate::order::KeyOrder;
use crate::replication;
use crate::rows::QueueRow;
use crate::seqs;
use crate::store::StoreView;
use crate::table;

verus! {

/// How long an entry that has failed `n` times before is put off by one more failure: a minute,
/// doubled for each earlier failure, and six hours at most.
pub open spec fn wait_ms(n: nat) -> int {
    let doubled = 60_000 * pow2(n);
    if doubled <= 21_600_000 {
        doubled as int
    } else {
        21_600_000
    }
}

/// After a failed attempt at `now_ms` on an entry with `attempts` earlier failures, the next one
/// is due a minute later, doubled for each earlier failure, six hours at most. The failure is
/// counted, and nothing else changes.
pub proof fn lemma_failure_puts_off(s: StoreView, hash: Seq<u8>, attempts: i32, now_ms: i64)
    requires
        s.queue.dom().contains((s.site, hash)),
        now_ms <= i64::MAX - 21_600_000,
    ensures
        ({
            let k = (s.site, hash);
            let t = s.with_deferral(hash, attempts, now_ms);
            &&& t.queue.dom() == s.queue.dom()
            &&& attempts >= 0 ==> t.queue[k].next_attempt_at == now_ms + wait_ms(attempts as nat)
            &&& attempts < 0 ==> t.queue[k].next_attempt_at == now_ms + 60_000
            &&& t.queue[k].next_attempt_at >= now_ms + 60_000
            &&& s.queue[k].attempts < i32::MAX ==> t.queue[k].attempts == s.queue[k].attempts + 1
            &&& s.queue[k].attempts == i32::MAX ==> t.queue[k].attempts == i32::MAX
            &&& t.queue[k].enqueued_at == s.queue[k].enqueued_at
            &&& forall|other: (Seq<char>, Seq<u8>)|
                other != k && s.queue.dom().contains(other) ==> #[trigger] t.queue[other]
                    == s.queue[other]
            &&& t == (StoreView { queue: t.queue, ..s })
        }),
{
    vstd::arithmetic::power2::lemma2_to64();
    if attempts >= 0 {
        vstd::arithmetic::power2::lemma_pow2_pos(attempts as nat);
    }
    assert(s.with_deferral(hash, attempts, now_ms).queue.dom() =~= s.queue.dom());
}

/// One more earlier failure doubles the wait, until it reaches six hours.
pub proof fn lemma_wait_doubles(s: StoreView, hash: Seq<u8>, attempts: i32, now_ms: i64)
    requires
        s.queue.dom().contains((s.site, hash)),
        0 <= attempts < i32::MAX,
        now_ms <= i64::MAX - 21_600_000,
    ensures
        ({
            let k = (s.site, hash);
            let first = s.with_deferral(hash, attempts, now_ms).queue[k].next_attempt_at - now_ms;
            let second = s.with_deferral(hash, (attempts + 1) as i32, now_ms).queue[k].next_attempt_at
                - now_ms;
            &&& 2 * first <= 21_600_000 ==> second == 2 * first
            &&& 2 * first > 21_600_000 ==> second == 21_600_000
        }),
{
    lemma_failure_puts_off(s, hash, attempts, now_ms);
    lemma_failure_puts_off(s, hash, (attempts + 1) as i32, now_ms);
    vstd::arithmetic::power2::lemma_pow2_unfold((attempts + 1) as nat);
}

/// A failure of what is not queued changes nothing.
pub proof fn lemma_unqueued_not_put_off(s: StoreView, hash: Seq<u8>, attempts: i32, now_ms: i64)
    requires
        !s.queue.dom().contains((s.site, hash)),
    ensures
        s.with_deferral(hash, attempts, now_ms) == s,
{
}

/// Queueing a block for some sites adds one entry for each that has none, due at once and without
/// failures, and leaves every other entry as it is.
pub proof fn lemma_queued_once(
    s: StoreView,
    targets: Seq<Seq<char>>,
    hash: Seq<u8>,
    now_ms: i64,
)
    ensures
        ({
            let t = s.with_pulls(targets, hash, now_ms);
            &&& forall|k: (Seq<char>, Seq<u8>)| #[trigger]
                t.queue.dom().contains(k) == (s.queue.dom().contains(k) || (k.1 == hash
                    && targets.contains(k.0)))
            &&& forall|k: (Seq<char>, Seq<u8>)| #[trigger]
                t.queue.dom().contains(k) ==> t.queue[k] == (if s.queue.dom().contains(k) {
                    s.queue[k]
                } else {
                    QueueRow { next_attempt_at: 0, attempts: 0, enqueued_at: now_ms }
                })
            &&& t == (StoreView { queue: t.queue, ..s })
        }),
    decreases targets.len(),
{
    if targets.len() > 0 {
        let front = targets.drop_last();
        lemma_queued_once(s, front, hash, now_ms);
        assert forall|x: Seq<char>| targets.contains(x) == (front.contains(x) || x
            == targets.last()) by {
            if targets.contains(x) {
                let i = choose|i: int| 0 <= i < targets.len() && targets[i] == x;
                if i < front.len() {
                    assert(front[i] == x);
                }
            }
            if front.contains(x) {
                let i = choose|i: int| 0 <= i < front.len() && front[i] == x;
                assert(targets[i] == x);
            }
            assert(targets[targets.len() - 1] == targets.last());
        }
    } else {
        assert(forall|x: Seq<char>| !targets.contains(x));
    }
}

// ── what a drain looks at ────────────────────────────────────────────────────

/// The queue has an entry for `site` that says what `e` says.
pub open spec fn queued_as(s: StoreView, e: EntryView) -> bool {
    let k = (s.site, e.hash);
    &&& s.queue.dom().contains(k)
    &&& s.queue[k].next_attempt_at == e.next_attempt_at
    &&& s.queue[k].attempts == e.attempts
    &&& s.queue[k].enqueued_at == e.enqueued_at
}

/// The entries of one drain: entries of this site that are due, each once, those that are due
/// longest first, five hundred at most; and none that is due longer is left out.
pub proof fn lemma_drain_page(s: StoreView, now_ms: i64)
    requires
        table::enumerates(table::ordered(s.queue), s.queue),
    ensures
        ({
            let page = replication::drain_page(s.queue, s.site, now_ms);
            &&& page.len() <= 500
            &&& forall|i: int|
                0 <= i < page.len() ==> queued_as(s, (#[trigger] page[i]).1)
                    && page[i].1.next_attempt_at <= now_ms
            &&& forall|i: int, j: int|
                0 <= i < j < page.len() ==> (#[trigger] page[i]).1.next_attempt_at <= (
                #[trigger] page[j]).1.next_attempt_at && page[i].1.hash != page[j].1.hash
            &&& forall|h: Seq<u8>|
                #![trigger s.queue[(s.site, h)]]
                s.queue.dom().contains((s.site, h)) && s.queue[(s.site, h)].next_attempt_at
                    <= now_ms ==> (exists|i: int|
                    0 <= i < page.len() && (#[trigger] page[i]).1.hash == h) || (page.len() == 500
                    && forall|i: int|
                    0 <= i < page.len() ==> (#[trigger] page[i]).1.next_attempt_at
                        <= s.queue[(s.site, h)].next_attempt_at)
        }),
{
    let all = table::ordered(s.queue);
    let p = replication::due(s.site, now_ms);
    let f = replication::by_time();
    let kept = all.filter(p);
    let rows = seqs::pick(all, p, f);
    let sorted = table::stable_sort(rows);
    let page = replication::drain_page(s.queue, s.site, now_ms);
    table::lemma_stable_sort(rows);
    table::lemma_filter_ascending(all, p);
    assert forall|i: int| 0 <= i < rows.len() implies queued_as(s, (#[trigger] rows[i]).1)
        && rows[i].1.next_attempt_at <= now_ms && rows[i].0 == rows[i].1.next_attempt_at
        && rows[i].1.hash == kept[i].0.1 && kept[i].0.0 == s.site by {
        assert(kept.contains(kept[i]));
        seqs::lemma_filter_members(all, p, kept[i]);
    }
    assert forall|i: int, j: int| 0 <= i < j < rows.len() implies rows[i].1.hash
        != rows[j].1.hash by {
        assert(kept[i].0.before(kept[j].0));
        assert(rows[i].1.hash == kept[i].0.1 && rows[j].1.hash == kept[j].0.1);
        <(Seq<char>, Seq<u8>) as KeyOrder>::before_irreflexive(kept[i].0);
    }
    assert forall|i: int, j: int| 0 <= i < rows.len() && 0 <= j < rows.len() && i
        != j implies rows[i] != rows[j] by {
        if i < j {
            assert(rows[i].1.hash != rows[j].1.hash);
        } else {
            assert(rows[j].1.hash != rows[i].1.hash);
        }
    }
    assert(rows.no_duplicates());
    rows.lemma_multiset_has_no_duplicates();
    sorted.lemma_multiset_has_no_duplicates_conv();
    assert forall|i: int| 0 <= i < sorted.len() implies rows.contains(#[trigger] sorted[i]) by {
        rows.to_multiset_ensures();
        sorted.to_multiset_ensures();
        assert(sorted.contains(sorted[i]));
        assert(sorted.to_multiset().count(sorted[i]) > 0);
        assert(rows.to_multiset().count(sorted[i]) > 0);
    }
    assert forall|i: int, j: int| 0 <= i < j < sorted.len() implies (
    #[trigger] sorted[i]).1.next_attempt_at <= (#[trigger] sorted[j]).1.next_attempt_at
        && sorted[i].1.hash != sorted[j].1.hash by {
        assert(rows.contains(sorted[i]) && rows.contains(sorted[j]));
        assert(!sorted[j].0.before(sorted[i].0));
        let a = choose|a: int| 0 <= a < rows.len() && rows[a] == sorted[i];
        let b = choose|b: int| 0 <= b < rows.len() && rows[b] == sorted[j];
        assert(sorted[i] != sorted[j]);
        assert(a != b);
        if a < b {
            assert(rows[a].1.hash != rows[b].1.hash);
        } else {
            assert(rows[b].1.hash != rows[a].1.hash);
        }
    }
    assert forall|i: int| 0 <= i < page.len() implies queued_as(s, (#[trigger] page[i]).1)
        && page[i].1.next_attempt_at <= now_ms by {
        assert(page[i] == sorted[i]);
        assert(rows.contains(sorted[i]));
        let a = choose|a: int| 0 <= a < rows.len() && rows[a] == sorted[i];
        assert(queued_as(s, rows[a].1));
    }
    assert forall|i: int, j: int| 0 <= i < j < page.len() implies (
    #[trigger] page[i]).1.next_attempt_at <= (#[trigger] page[j]).1.next_attempt_at
        && page[i].1.hash != page[j].1.hash by {
        assert(page[i] == sorted[i] && page[j] == sorted[j]);
    }
    assert forall|h: Seq<u8>|
        #![trigger s.queue[(s.site, h)]]
        s.queue.dom().contains((s.site, h)) && s.queue[(s.site, h)].next_attempt_at
            <= now_ms implies (exists|i: int|
        0 <= i < page.len() && (#[trigger] page[i]).1.hash == h) || (page.len() == 500
        && forall|i: int|
        0 <= i < page.len() ==> (#[trigger] page[i]).1.next_attempt_at
            <= s.queue[(s.site, h)].next_attempt_at) by {
        let x = choose|x: int| 0 <= x < all.len() && (#[trigger] all[x]).0 == (s.site, h);
        assert(p(all[x]));
        seqs::lemma_pick_members(all, p, f, f(all[x]));
        let r = f(all[x]);
        assert(rows.contains(r));
        rows.to_multiset_ensures();
        sorted.to_multiset_ensures();
        assert(rows.to_multiset().count(r) > 0);
        assert(sorted.contains(r));
        let y = choose|y: int| 0 <= y < sorted.len() && sorted[y] == r;
        if y < page.len() {
            assert(page[y] == sorted[y]);
        } else {
            assert forall|i: int| 0 <= i < page.len() implies (
            #[trigger] page[i]).1.next_attempt_at <= s.queue[(s.site, h)].next_attempt_at by {
                assert(page[i] == sorted[i]);
                assert(sorted[i].1.next_attempt_at <= sorted[y].1.next_attempt_at);
            }
        }
    }
}

/// The blocks that are reported as stuck are those of this site that have failed ten times or
/// more.
pub proof fn lemma_stuck(s: StoreView, hash: Seq<u8>, attempts: i32, enqueued_at: i64)
    requires
        table::enumerates(table::ordered(s.queue), s.queue),
    ensures
        seqs::pick(
            table::ordered(s.queue),
            replication::stuck(s.site),
            replication::stuck_info(),
        ).contains((hash, attempts, enqueued_at)) == (s.queue.dom().contains((s.site, hash))
            && s.queue[(s.site, hash)].attempts == attempts && attempts >= 10
            && s.queue[(s.site, hash)].enqueued_at == enqueued_at),
{
    let all = table::ordered(s.queue);
    let p = replication::stuck(s.site);
    let f = replication::stuck_info();
    seqs::lemma_pick_members(all, p, f, (hash, attempts, enqueued_at));
    if s.queue.dom().contains((s.site, hash)) {
        let x = choose|x: int| 0 <= x < all.len() && (#[trigger] all[x]).0 == (s.site, hash);
        assert(f(all[x]) == (hash, s.queue[(s.site, hash)].attempts, s.queue[(
            s.site,
            hash,
        )].enqueued_at));
    }
}

// ── what becomes of an entry ─────────────────────────────────────────────────

/// Some site holds a copy of `h`.
pub open spec fn held_anywhere(s: StoreView, h: Seq<u8>) -> bool {
    exists|site: Seq<char>| #[trigger] s.locations.dom().contains((h, site))
}

/// What is decided of a queued block: it is dropped where no site holds it or this site does;
/// else it is fetched from the peers that hold it, in their order, and put off where there is
/// none.
pub proof fn lemma_plan(s: StoreView, hash: Seq<u8>, peers: Seq<(Seq<char>, Seq<char>)>)
    requires
        table::enumerates(table::ordered(s.locations), s.locations),
    ensures
        ({
            let sources = peers.filter(
                |p: (Seq<char>, Seq<char>)| s.locations.dom().contains((hash, p.0)),
            );
            drain::plan_for(s, hash, peers) == (if !held_anywhere(s, hash)
                || s.locations.dom().contains((hash, s.site)) {
                PlanView::Drop
            } else if sources.len() == 0 {
                PlanView::Defer
            } else {
                PlanView::FetchFrom(sources)
            })
        }),
{
    let copies = blockmeta::copies(s.locations, hash);
    let q = |p: (Seq<char>, Seq<char>)| s.locations.dom().contains((hash, p.0));
    blockmeta::lemma_copies(s.locations, hash, Seq::empty(), Seq::empty());
    assert forall|site: Seq<char>| drain::listed_at(copies, site) == s.locations.dom().contains(
        (hash, site),
    ) by {
        lemma_listed(s, hash, site);
    }
    assert(peers.filter(drain::holder(copies)) == peers.filter(q)) by {
        lemma_same_filter(peers, drain::holder(copies), q);
    }
}

proof fn lemma_listed(s: StoreView, hash: Seq<u8>, site: Seq<char>)
    requires
        table::enumerates(table::ordered(s.locations), s.locations),
    ensures
        drain::listed_at(blockmeta::copies(s.locations, hash), site)
            == s.locations.dom().contains((hash, site)),
{
    let copies = blockmeta::copies(s.locations, hash);
    if drain::listed_at(copies, site) {
        let i = choose|i: int| 0 <= i < copies.len() && (#[trigger] copies[i]).0 == site;
        assert(copies.contains(copies[i]));
        blockmeta::lemma_copies(s.locations, hash, site, copies[i].1);
    }
    if s.locations.dom().contains((hash, site)) {
        let fid = s.locations[(hash, site)].fid;
        blockmeta::lemma_copies(s.locations, hash, site, fid);
        let i = choose|i: int| 0 <= i < copies.len() && copies[i] == (site, fid);
        assert(copies[i].0 == site);
    }
}

/// Two conditions that agree select the same.
pub proof fn lemma_same_filter<A>(s: Seq<A>, p: spec_fn(A) -> bool, q: spec_fn(A) -> bool)
    requires
        forall|i: int| 0 <= i < s.len() ==> p(#[trigger] s[i]) == q(s[i]),
    ensures
        s.filter(p) == s.filter(q),
    decreases s.len(),
{
    reveal(Seq::filter);
    if s.len() > 0 {
        lemma_same_filter(s.drop_last(), p, q);
        assert(p(s[s.len() - 1]) == q(s[s.len() - 1]));
    }
}

/// Taking an entry off the queue takes off that entry alone.
pub proof fn lemma_dequeued(s: StoreView, hash: Seq<u8>, k: (Seq<char>, Seq<u8>))
    ensures
        ({
            let t = drain::dequeued(s, hash);
            &&& t.queue.dom().contains(k) == (s.queue.dom().contains(k) && k != (s.site, hash))
            &&& t.queue.dom().contains(k) ==> t.queue[k] == s.queue[k]
            &&& t == (StoreView { queue: t.queue, ..s })
        }),
{
}

/// Taking up an entry of a drain: one that is dropped leaves the queue, one that nobody can
/// deliver is put off, and the drain goes on with the next; one that peers hold is worked on, with
/// the first of them.
pub proof fn lemma_taken_up(s: StoreView, d: DrainView, at: nat, now_ms: i64)
    requires
        at < d.entries.len(),
    ensures
        ({
            let e = d.entries[at as int];
            let after = fetching::settled_from(s, d, at, now_ms);
            match drain::plan_for(s, e.hash, d.peers) {
                PlanView::Drop => after == fetching::settled_from(
                    (StoreView { queue: s.queue.remove((s.site, e.hash)), ..s }),
                    d,
                    at + 1,
                    now_ms,
                ),
                PlanView::Defer => after == fetching::settled_from(
                    s.with_deferral(e.hash, e.attempts, now_ms),
                    d,
                    at + 1,
                    now_ms,
                ),
                PlanView::FetchFrom(c) => {
                    &&& after.0 == s
                    &&& after.1.entries == d.entries
                    &&& after.1.peers == d.peers
                    &&& after.1.at == at
                    &&& after.1.sources == c
                    &&& after.1.phase == Phase::Asking(0)
                },
            }
        }),
        fetching::settled_from(s, d, d.entries.len(), now_ms).0 == s,
        fetching::settled_from(s, d, d.entries.len(), now_ms).1.at == d.entries.len(),
{
}

/// The sources of a block are asked one after the other. What the next step is depends on the
/// answer alone: a miss leads to the next source, or to the end where there is none; a delivery
/// leads to storing, and storing to the end.
pub proof fn lemma_steps(i: usize, sources: nat, event: FetchEvent, stored: bool)
    requires
        sources <= usize::MAX,
        i < sources,
    ensures
        fetching::advanced(Phase::Asking(i), sources, FetchEvent::Missed) == (if i + 1 < sources {
            Phase::Asking((i + 1) as usize)
        } else {
            Phase::Missing
        }),
        fetching::advanced(Phase::Asking(i), sources, FetchEvent::Arrived) == Phase::Storing,
        fetching::advanced(Phase::Asking(i), sources, FetchEvent::Stored(stored))
            == Phase::Asking(i),
        fetching::advanced(Phase::Storing, sources, FetchEvent::Stored(true)) == Phase::Kept,
        fetching::advanced(Phase::Storing, sources, FetchEvent::Stored(false)) == Phase::NotKept,
        fetching::advanced(Phase::Storing, sources, FetchEvent::Missed) == Phase::Storing,
        fetching::advanced(Phase::Storing, sources, FetchEvent::Arrived) == Phase::Storing,
        fetching::advanced(Phase::Kept, sources, event) == Phase::Kept,
        fetching::advanced(Phase::NotKept, sources, event) == Phase::NotKept,
        fetching::advanced(Phase::Missing, sources, event) == Phase::Missing,
        fetching::started(sources) == Phase::Asking(0),
        fetching::started(0) == Phase::Missing,
{
}

/// How a step of a drain leaves the queue: an entry whose block was stored leaves it, and one
/// whose block did not come or was not stored is put off by what its earlier failures ask for;
/// then the next entries are taken up. Until then neither the store nor the entry changes.
pub proof fn lemma_drain_step(s: StoreView, d: DrainView, event: FetchEvent, now_ms: i64)
    requires
        d.at < d.entries.len(),
        d.sources.len() <= usize::MAX,
        d.phase is Storing || (d.phase matches Phase::Asking(i) && i < d.sources.len()),
    ensures
        ({
            let e = d.entries[d.at as int];
            let after = fetching::drained(s, d, event, now_ms);
            if d.phase is Storing && event == FetchEvent::Stored(true) {
                after == fetching::settled_from(
                    (StoreView { queue: s.queue.remove((s.site, e.hash)), ..s }),
                    d,
                    d.at + 1,
                    now_ms,
                )
            } else if (d.phase is Storing && event == FetchEvent::Stored(false)) || (d.phase
                matches Phase::Asking(i) && i + 1 == d.sources.len() && event
                == FetchEvent::Missed) {
                after == fetching::settled_from(
                    s.with_deferral(e.hash, e.attempts, now_ms),
                    d,
                    d.at + 1,
                    now_ms,
                )
            } else {
                &&& after.0 == s
                &&& after.1.at == d.at
                &&& after.1.entries == d.entries
                &&& after.1.sources == d.sources
                &&& after.1.peers == d.peers
            }
        }),
        d.phase is Storing ==> d.action() == fetching::DrainActionView::Keep(
            d.entries[d.at as int].hash,
        ),
        d.phase matches Phase::Asking(i) ==> d.action() == fetching::DrainActionView::Ask(
            d.entries[d.at as int].hash,
            d.sources[i as int].0,
            d.sources[i as int].1,
        ),
{
}

/// A drain that has gone through its entries is over and changes nothing more.
pub proof fn lemma_drain_over(s: StoreView, d: DrainView, event: FetchEvent, now_ms: i64)
    requires
        d.at >= d.entries.len(),
    ensures
        fetching::drained(s, d, event, now_ms) == (s, d),
        d.action() == fetching::DrainActionView::Done,
{
}

// ── reading a block ──────────────────────────────────────────────────────────

/// A read asks the known peers that hold the block, in their order, and no others.
pub proof fn lemma_sources(s: StoreView, hash: Seq<u8>)
    requires
        table::enumerates(table::ordered(s.locations), s.locations),
    ensures
        fetching::sources_of(s, hash) == replication::peers_of(s.nodes, s.site).filter(
            |p: (Seq<char>, Seq<char>)| s.locations.dom().contains((hash, p.0)),
        ),
        forall|site: Seq<char>| #[trigger]
            fetching::holders_of(s, hash).contains(site) == s.locations.dom().contains((hash, site)),
        (fetching::holders_of(s, hash).len() > 0) == held_anywhere(s, hash),
{
    let copies = blockmeta::copies(s.locations, hash);
    let peers = replication::peers_of(s.nodes, s.site);
    let q = |p: (Seq<char>, Seq<char>)| s.locations.dom().contains((hash, p.0));
    blockmeta::lemma_copies(s.locations, hash, Seq::empty(), Seq::empty());
    assert forall|site: Seq<char>| drain::listed_at(copies, site) == s.locations.dom().contains(
        (hash, site),
    ) by {
        lemma_listed(s, hash, site);
    }
    lemma_same_filter(peers, drain::holder(copies), q);
    let holders = fetching::holders_of(s, hash);
    assert forall|site: Seq<char>| #[trigger] holders.contains(site)
        == s.locations.dom().contains((hash, site)) by {
        lemma_listed(s, hash, site);
        if holders.contains(site) {
            let i = choose|i: int| 0 <= i < holders.len() && holders[i] == site;
            assert(copies[i].0 == site);
        }
        if drain::listed_at(copies, site) {
            let i = choose|i: int| 0 <= i < copies.len() && (#[trigger] copies[i]).0 == site;
            assert(holders[i] == site);
        }
    }
}

/// What a read does next: it asks the source that its phase names, has the block stored that
/// came, hands out the block whether or not it was stored, and fails where no source delivered.
pub proof fn lemma_read_actions(
    i: usize,
    sources: Seq<(Seq<char>, Seq<char>)>,
    hash: Seq<u8>,
)
    requires
        i < sources.len(),
    ensures
        fetching::read_action(Phase::Asking(i), sources, hash) == fetching::ReadActionView::Ask(
            sources[i as int].0,
            sources[i as int].1,
        ),
        fetching::read_action(Phase::Storing, sources, hash) == fetching::ReadActionView::Keep,
        fetching::read_action(Phase::Kept, sources, hash) == fetching::ReadActionView::HandOut,
        fetching::read_action(Phase::NotKept, sources, hash) == fetching::ReadActionView::HandOut,
        fetching::read_action(Phase::Missing, sources, hash) is Fail,
{
}

/// A block is read here where this site holds it; it is unknown where nobody does; else it is
/// asked for at the known peers that hold it, in their order.
pub proof fn lemma_located(s: StoreView, hash: Seq<u8>, r: drain::BlockSource)
    requires
        table::enumerates(table::ordered(s.locations), s.locations),
        drain::located(s, hash, r),
    ensures
        ({
            let k = (hash, s.site);
            &&& s.locations.dom().contains(k) ==> (r matches drain::BlockSource::Local(fid) && fid@
                == s.locations[k].fid)
            &&& !held_anywhere(s, hash) ==> r is Unknown
            &&& held_anywhere(s, hash) && !s.locations.dom().contains(k) ==> (r matches
                drain::BlockSource::Remote(c) && seqs::views(c@) == replication::peers_of(
                s.nodes,
                s.site,
            ).filter(|p: (Seq<char>, Seq<char>)| s.locations.dom().contains((hash, p.0))))
        }),
{
    lemma_sources(s, hash);
    let holders = fetching::holders_of(s, hash);
    assert(holders.len() == blockmeta::copies(s.locations, hash).len());
    if s.locations.dom().contains((hash, s.site)) {
        assert(held_anywhere(s, hash));
    }
}

/// A read begins in the same way: here, with a failure, or with the first peer to ask; where none
/// of the holders is known it fails at once.
pub proof fn lemma_read_begins(
    s: StoreView,
    hash: Seq<u8>,
    read: fetching::BlockRead,
    action: fetching::ReadActionView,
)
    requires
        table::enumerates(table::ordered(s.locations), s.locations),
        fetching::read_begun(s, hash, read, action),
    ensures
        ({
            let k = (hash, s.site);
            let sources = replication::peers_of(s.nodes, s.site).filter(
                |p: (Seq<char>, Seq<char>)| s.locations.dom().contains((hash, p.0)),
            );
            let remote = held_anywhere(s, hash) && !s.locations.dom().contains(k);
            &&& read.hash@ == hash
            &&& forall|i: int|
                0 <= i < read.holders@.len() ==> s.locations.dom().contains(
                    (hash, (#[trigger] read.holders@[i])@),
                )
            &&& (read.holders@.len() > 0) == held_anywhere(s, hash)
            &&& s.locations.dom().contains(k) ==> action == fetching::ReadActionView::ReadLocal(
                s.locations[k].fid,
            )
            &&& !held_anywhere(s, hash) ==> action == fetching::ReadActionView::Fail(
                "Block "@ + codec::hex_text(hash) + " not found in cluster"@,
            )
            &&& remote ==> seqs::views(read.sources@) == sources
            &&& remote && sources.len() > 0 ==> action == fetching::ReadActionView::Ask(
                sources[0].0,
                sources[0].1,
            ) && read.phase == Phase::Asking(0)
            &&& remote && sources.len() == 0 ==> action == fetching::ReadActionView::Fail(
                "Block "@ + codec::hex_text(hash) + " missing at all reachable locations"@,
            ) && read.phase == Phase::Missing
        }),
{
    lemma_sources(s, hash);
    let holders = fetching::holders_of(s, hash);
    let views = seqs::views(read.holders@);
    assert(holders.len() == blockmeta::copies(s.locations, hash).len());
    assert(views.len() == read.holders@.len());
    assert forall|i: int| 0 <= i < read.holders@.len() implies s.locations.dom().contains(
        (hash, (#[trigger] read.holders@[i])@),
    ) by {
        assert(views[i] == read.holders@[i]@);
        assert(holders.contains(holders[i]));
    }
    if s.locations.dom().contains((hash, s.site)) {
        assert(held_anywhere(s, hash));
    }
}

/// A block that was fetched and could not be kept is wanted here from now on; nothing else changes
/// the queue while a block is read.
pub proof fn lemma_not_kept(
    s: StoreView,
    phase: Phase,
    event: FetchEvent,
    hash: Seq<u8>,
    now_ms: i64,
    k: (Seq<char>, Seq<u8>),
)
    ensures
        ({
            let t = fetching::kept_or_queued(s, phase, event, hash, now_ms);
            let lost = phase == Phase::Storing && event == FetchEvent::Stored(false);
            &&& !lost ==> t == s
            &&& lost ==> t.queue.dom().contains(k) == (s.queue.dom().contains(k) || k == (
                s.site,
                hash,
            ))
            &&& lost && s.queue.dom().contains(k) ==> t.queue[k] == s.queue[k]
            &&& lost && !s.queue.dom().contains((s.site, hash)) ==> t.queue[(s.site, hash)] == (
            QueueRow { next_attempt_at: 0, attempts: 0, enqueued_at: now_ms })
            &&& t == (StoreView { queue: t.queue, ..s })
        }),
{
    let targets = seq![s.site];
    lemma_queued_once(s, targets, hash, now_ms);
    assert(targets.contains(s.site)) by {
        assert(targets[0] == s.site);
    }
    assert(targets.contains(k.0) ==> k.0 == s.site);
    let t = s.with_pulls(targets, hash, now_ms);
    let own = (s.site, hash);
    assert(t.queue.dom().contains(own));
    assert(t.queue.dom().contains(k) == (s.queue.dom().contains(k) || k == own));
    assert(!s.queue.dom().contains(own) ==> t.queue[own] == (QueueRow {
        next_attempt_at: 0,
        attempts: 0,
        enqueued_at: now_ms,
    }));
}

/// An entry is gone once its block is stored, and is put off otherwise.
pub proof fn lemma_settled(s: StoreView, entry: EntryView, now_ms: i64)
    ensures
        drain::settled(s, entry, true, now_ms) == (StoreView {
            queue: s.queue.remove((s.site, entry.hash)),
            ..s
        }),
        drain::settled(s, entry, false, now_ms) == s.with_deferral(
            entry.hash,
            entry.attempts,
            now_ms,
        ),
{
}

/// An entry whose block is here already, or nowhere, is dropped; one whose holders are all unknown
/// is put off; else the peers that hold the block are to be asked.
pub proof fn lemma_entry_starts(
    s: StoreView,
    after: StoreView,
    entry: EntryView,
    peers: Seq<(Seq<char>, Seq<char>)>,
    now_ms: i64,
    r: Option<Vec<(String, String)>>,
)
    requires
        table::enumerates(table::ordered(s.locations), s.locations),
        drain::entry_started(s, after, entry, peers, now_ms, r),
    ensures
        ({
            let sources = peers.filter(
                |p: (Seq<char>, Seq<char>)| s.locations.dom().contains((entry.hash, p.0)),
            );
            let done = !held_anywhere(s, entry.hash) || s.locations.dom().contains(
                (entry.hash, s.site),
            );
            &&& done ==> r is None && after == (StoreView {
                queue: s.queue.remove((s.site, entry.hash)),
                ..s
            })
            &&& !done && sources.len() == 0 ==> r is None && after == s.with_deferral(
                entry.hash,
                entry.attempts,
                now_ms,
            )
            &&& !done && sources.len() > 0 ==> after == s && (r matches Some(v) && seqs::views(v@)
                == sources)
        }),
{
    lemma_plan(s, entry.hash, peers);
}

} // verus!
