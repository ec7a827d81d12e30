//! Garbage collection: which copies a sweep takes, and when.

use vstd::prelude::*;

use crate::blockmeta;
use crate::order::KeyOrder;
use crate::seqs;
use crate::store;
use crate::store::StoreError;
use crate::store::StoreView;
use crate::table;

verus! {

/// The hash at position `i` of a manifest.
pub open spec fn hash_at(raw: Seq<u8>, i: int) -> Seq<u8> {
    raw.subrange(32 * i, 32 * i + 32)
}

/// A manifest names `h`.
pub open spec fn names(raw: Seq<u8>, h: Seq<u8>) -> bool {
    exists|i: int| 0 <= i && 32 * i + 32 <= raw.len() && #[trigger] hash_at(raw, i) == h
}

/// An object that is not deleted, or a part of an upload in progress, names `h`.
pub open spec fn needed(s: StoreView, h: Seq<u8>) -> bool {
    ||| exists|k: (Seq<char>, Seq<char>)|
        #![trigger s.objects[k]]
        s.objects.dom().contains(k) && !s.objects[k].deleted && names(s.objects[k].blocks, h)
    ||| exists|k: ((Seq<char>, Seq<char>), i32)|
        #![trigger s.parts[k]]
        s.parts.dom().contains(k) && names(s.parts[k].blocks, h)
}

/// This site holds a copy of `h`.
pub open spec fn held(s: StoreView, h: Seq<u8>) -> bool {
    s.locations.dom().contains((h, s.site))
}

proof fn lemma_names(raw: Seq<u8>, h: Seq<u8>)
    ensures
        store::decoded(raw).contains(h) == names(raw, h),
{
    let d = store::decoded(raw);
    if d.contains(h) {
        let i = choose|i: int| 0 <= i < d.len() && d[i] == h;
        assert(hash_at(raw, i) == h);
    }
    if names(raw, h) {
        let i = choose|i: int|
            0 <= i && 32 * i + 32 <= raw.len() && #[trigger] hash_at(raw, i) == h;
        assert(d[i] == h);
    }
}

/// A block is referenced exactly where a live object or a part of an upload names it.
pub proof fn lemma_referenced(s: StoreView, h: Seq<u8>)
    ensures
        s.referenced(h) == needed(s, h),
{
    if blockmeta::named_by_object(s.objects, h) {
        let k = choose|k: (Seq<char>, Seq<char>)| #[trigger]
            store::live(s.objects, k) && store::decoded(s.objects[k].blocks).contains(h);
        lemma_names(s.objects[k].blocks, h);
    }
    if blockmeta::named_by_part(s.parts, h) {
        let k = choose|k: ((Seq<char>, Seq<char>), i32)| #[trigger]
            s.parts.dom().contains(k) && store::decoded(s.parts[k].blocks).contains(h);
        lemma_names(s.parts[k].blocks, h);
    }
    if exists|k: (Seq<char>, Seq<char>)|
        #![trigger s.objects[k]]
        s.objects.dom().contains(k) && !s.objects[k].deleted && names(s.objects[k].blocks, h) {
        let k = choose|k: (Seq<char>, Seq<char>)|
            #![trigger s.objects[k]]
            s.objects.dom().contains(k) && !s.objects[k].deleted && names(s.objects[k].blocks, h);
        lemma_names(s.objects[k].blocks, h);
        assert(store::live(s.objects, k));
    }
    if exists|k: ((Seq<char>, Seq<char>), i32)|
        #![trigger s.parts[k]]
        s.parts.dom().contains(k) && names(s.parts[k].blocks, h) {
        let k = choose|k: ((Seq<char>, Seq<char>), i32)|
            #![trigger s.parts[k]]
            s.parts.dom().contains(k) && names(s.parts[k].blocks, h);
        lemma_names(s.parts[k].blocks, h);
    }
}

/// The first sweep that sees an orphan spares it for the grace period and records when that is
/// over: `grace_seconds` seconds, of 1000 milliseconds each, behind `now_ms`.
pub proof fn lemma_first_sighting(s: StoreView, h: Seq<u8>, now_ms: i64, grace_seconds: u64)
    requires
        held(s, h),
        !needed(s, h),
        !s.pending.dom().contains(h),
        grace_seconds > 0,
        now_ms + 1000 * grace_seconds <= i64::MAX,
    ensures
        ({
            let t = s.swept(now_ms, grace_seconds, false);
            &&& held(t, h)
            &&& t.locations[(h, s.site)] == s.locations[(h, s.site)]
            &&& t.pending.dom().contains(h)
            &&& t.pending[h] == now_ms + 1000 * grace_seconds
        }),
{
    lemma_referenced(s, h);
}

/// A grace period that reaches beyond the 64-bit range ends with it.
pub proof fn lemma_grace_capped(s: StoreView, h: Seq<u8>, now_ms: i64, grace_seconds: u64)
    requires
        held(s, h),
        !needed(s, h),
        !s.pending.dom().contains(h),
        now_ms < i64::MAX,
        now_ms + 1000 * grace_seconds > i64::MAX,
    ensures
        ({
            let t = s.swept(now_ms, grace_seconds, false);
            held(t, h) && t.pending.dom().contains(h) && t.pending[h] == i64::MAX
        }),
{
    lemma_referenced(s, h);
}

/// A sweep that is not forced and runs before the recorded time leaves the copy in place, and
/// the recorded time as it is, whatever grace period it is given.
pub proof fn lemma_spared_until_due(s: StoreView, h: Seq<u8>, now_ms: i64, grace_seconds: u64)
    requires
        held(s, h),
        !needed(s, h),
        s.pending.dom().contains(h),
        now_ms < s.pending[h],
    ensures
        ({
            let t = s.swept(now_ms, grace_seconds, false);
            &&& held(t, h)
            &&& t.locations[(h, s.site)] == s.locations[(h, s.site)]
            &&& t.pending.dom().contains(h)
            &&& t.pending[h] == s.pending[h]
        }),
{
    lemma_referenced(s, h);
}

/// The store after sweeps that are not forced, each at a time with a grace period.
pub open spec fn swept_often(s: StoreView, runs: Seq<(i64, u64)>) -> StoreView
    decreases runs.len(),
{
    if runs.len() == 0 {
        s
    } else {
        swept_often(s, runs.drop_last()).swept(runs.last().0, runs.last().1, false)
    }
}

/// The grace period holds over any number of sweeps: an orphan first seen at `now_ms` stays, with
/// the same recorded time, as long as every later sweep runs before `grace_seconds` seconds have
/// passed.
pub proof fn lemma_grace_over_sweeps(
    s: StoreView,
    h: Seq<u8>,
    now_ms: i64,
    grace_seconds: u64,
    runs: Seq<(i64, u64)>,
)
    requires
        held(s, h),
        !needed(s, h),
        !s.pending.dom().contains(h),
        grace_seconds > 0,
        now_ms + 1000 * grace_seconds <= i64::MAX,
        forall|i: int| 0 <= i < runs.len() ==> (#[trigger] runs[i]).0 < now_ms + 1000 * grace_seconds,
    ensures
        ({
            let t = swept_often(s.swept(now_ms, grace_seconds, false), runs);
            &&& held(t, h)
            &&& t.pending.dom().contains(h)
            &&& t.pending[h] == now_ms + 1000 * grace_seconds
            &&& t.objects == s.objects
            &&& t.parts == s.parts
            &&& t.site == s.site
        }),
    decreases runs.len(),
{
    lemma_first_sighting(s, h, now_ms, grace_seconds);
    if runs.len() > 0 {
        lemma_grace_over_sweeps(s, h, now_ms, grace_seconds, runs.drop_last());
        let t = swept_often(s.swept(now_ms, grace_seconds, false), runs.drop_last());
        assert(needed(t, h) == needed(s, h)) by {
            lemma_needed_by_tables(s, t, h);
        }
        lemma_spared_until_due(t, h, runs.last().0, runs.last().1);
    }
}

proof fn lemma_needed_by_tables(s: StoreView, t: StoreView, h: Seq<u8>)
    requires
        s.objects == t.objects,
        s.parts == t.parts,
    ensures
        needed(s, h) == needed(t, h),
{
    if needed(s, h) != needed(t, h) {
        assert(s.objects == t.objects && s.parts == t.parts);
    }
}

/// Another site holds a copy of `h`.
pub open spec fn held_by_another(s: StoreView, h: Seq<u8>) -> bool {
    exists|site: Seq<char>| site != s.site && #[trigger] s.locations.dom().contains((h, site))
}

/// A sweep at or behind the recorded time, and a forced sweep at any time, takes the copy of an
/// orphan. The block is forgotten where no other site holds it.
pub proof fn lemma_due_orphan_goes(
    s: StoreView,
    h: Seq<u8>,
    now_ms: i64,
    grace_seconds: u64,
    force: bool,
)
    requires
        held(s, h),
        !needed(s, h),
        force || (s.pending.dom().contains(h) && s.pending[h] <= now_ms) || (
        !s.pending.dom().contains(h) && grace_seconds == 0),
    ensures
        ({
            let t = s.swept(now_ms, grace_seconds, force);
            &&& !held(t, h)
            &&& !t.pending.dom().contains(h)
            &&& t.blocks.dom().contains(h) == (s.blocks.dom().contains(h) && held_by_another(s, h))
        }),
{
    lemma_referenced(s, h);
}

/// A block that something needs stays, with its row, whatever the sweep; a reaping that was
/// scheduled for it is cancelled.
pub proof fn lemma_needed_block_stays(
    s: StoreView,
    h: Seq<u8>,
    now_ms: i64,
    grace_seconds: u64,
    force: bool,
)
    requires
        needed(s, h),
    ensures
        ({
            let t = s.swept(now_ms, grace_seconds, force);
            &&& held(t, h) == held(s, h)
            &&& held(s, h) ==> t.locations[(h, s.site)] == s.locations[(h, s.site)]
            &&& t.blocks.dom().contains(h) == s.blocks.dom().contains(h)
            &&& s.blocks.dom().contains(h) ==> t.blocks[h] == s.blocks[h]
            &&& !t.pending.dom().contains(h)
        }),
{
    lemma_referenced(s, h);
}

/// A sweep touches nothing but the copies of this site, the blocks that lose their last copy, and
/// the schedule, which afterwards names only orphans that this site still holds.
pub proof fn lemma_sweep_touches(
    s: StoreView,
    now_ms: i64,
    grace_seconds: u64,
    force: bool,
    h: Seq<u8>,
    site: Seq<char>,
)
    ensures
        ({
            let t = s.swept(now_ms, grace_seconds, force);
            &&& t.objects == s.objects
            &&& t.users == s.users
            &&& t.uploads == s.uploads
            &&& t.parts == s.parts
            &&& t.nodes == s.nodes
            &&& t.queue == s.queue
            &&& t.cursors == s.cursors
            &&& t.log == s.log
            &&& t.last_seq == s.last_seq
            &&& t.site == s.site
            &&& t.locations.dom().contains((h, site)) ==> s.locations.dom().contains((h, site))
                && t.locations[(h, site)] == s.locations[(h, site)]
            &&& site != s.site ==> t.locations.dom().contains((h, site))
                == s.locations.dom().contains((h, site))
            &&& t.blocks.dom().contains(h) ==> s.blocks.dom().contains(h) && t.blocks[h]
                == s.blocks[h]
            &&& s.blocks.dom().contains(h) && !held(s, h) ==> t.blocks.dom().contains(h)
            &&& t.pending.dom().contains(h) ==> held(t, h) && !needed(t, h)
        }),
{
    lemma_referenced(s, h);
    lemma_needed_by_tables(s, s.swept(now_ms, grace_seconds, force), h);
}

/// The blocks whose bytes a sweep has deleted are exactly those whose copies it took, each once,
/// by the fid of the copy.
pub proof fn lemma_reaped_bytes(
    s: StoreView,
    now_ms: i64,
    grace_seconds: u64,
    force: bool,
    h: Seq<u8>,
    fid: Seq<u8>,
)
    requires
        table::enumerates(table::ordered(s.locations), s.locations),
    ensures
        s.reap_list(now_ms, grace_seconds, force).contains((h, fid)) == (held(s, h) && !held(
            s.swept(now_ms, grace_seconds, force),
            h,
        ) && s.locations[(h, s.site)].fid == fid),
        s.reap_list(now_ms, grace_seconds, force).no_duplicates(),
{
    let all = blockmeta::held_at(s.locations, s.site);
    let p = s.to_reap(now_ms, grace_seconds, force);
    let f = s.with_fid();
    let r = s.reap_list(now_ms, grace_seconds, force);
    blockmeta::lemma_held_at(s.locations, s.site, h);
    seqs::lemma_pick_members(all, p, f, (h, fid));
    if held(s, h) && s.reaped(h, now_ms, grace_seconds, force) && s.locations[(h, s.site)].fid
        == fid {
        let i = choose|i: int| 0 <= i < all.len() && all[i] == h;
        assert(p(all[i]) && f(all[i]) == (h, fid));
    }
    lemma_filter_no_duplicates(all, p);
    let kept = all.filter(p);
    assert forall|i: int, j: int| 0 <= i < r.len() && 0 <= j < r.len() && i != j implies r[i]
        != r[j] by {
        assert(r[i].0 == kept[i] && r[j].0 == kept[j]);
    }
}

/// What is selected from a list without repetitions has none.
pub proof fn lemma_filter_no_duplicates<A>(s: Seq<A>, p: spec_fn(A) -> bool)
    requires
        s.no_duplicates(),
    ensures
        s.filter(p).no_duplicates(),
    decreases s.len(),
{
    reveal(Seq::filter);
    if s.len() > 0 {
        let front = s.drop_last();
        assert(front.no_duplicates());
        lemma_filter_no_duplicates(front, p);
        let kept = front.filter(p);
        if p(s.last()) {
            if kept.contains(s.last()) {
                seqs::lemma_filter_members(front, p, s.last());
                let i = choose|i: int| 0 <= i < front.len() && front[i] == s.last();
                assert(s[i] == s[s.len() - 1]);
            }
            assert(s.filter(p) == kept.push(s.last()));
            assert forall|i: int, j: int|
                0 <= i < kept.len() + 1 && 0 <= j < kept.len() + 1 && i != j implies kept.push(
                s.last(),
            )[i] != kept.push(s.last())[j] by {
                if i < kept.len() && j == kept.len() {
                    assert(kept.contains(kept[i]));
                }
                if j < kept.len() && i == kept.len() {
                    assert(kept.contains(kept[j]));
                }
            }
        }
    }
}

/// A site that drops its copy of a block drops that copy alone, and the row of the block where no
/// copy is left.
pub proof fn lemma_dropped_copy(s: StoreView, h: Seq<u8>, k: (Seq<u8>, Seq<char>))
    ensures
        ({
            let t = s.local_copy_dropped(h);
            &&& t.locations.dom().contains(k) == (s.locations.dom().contains(k) && k != (h, s.site))
            &&& t.locations.dom().contains(k) ==> t.locations[k] == s.locations[k]
            &&& t.blocks.dom().contains(k.0) == (s.blocks.dom().contains(k.0) && (k.0 != h
                || held_by_another(s, h)))
            &&& t.blocks.dom().contains(k.0) ==> t.blocks[k.0] == s.blocks[k.0]
            &&& t == (StoreView { locations: t.locations, blocks: t.blocks, ..s })
        }),
{
    let l = s.locations.remove((h, s.site));
    if blockmeta::held_somewhere(l, h) {
        let site = choose|site: Seq<char>| #[trigger] l.dom().contains((h, site));
        assert(site != s.site && s.locations.dom().contains((h, site)));
    }
    if held_by_another(s, h) {
        let site = choose|site: Seq<char>|
            site != s.site && #[trigger] s.locations.dom().contains((h, site));
        assert(l.dom().contains((h, site)));
    }
}

/// The bytes that this site holds: the sizes of its blocks, each counted once.
pub proof fn lemma_usage_adds_up(s: StoreView, hashes: Seq<Seq<u8>>, h: Seq<u8>)
    ensures
        blockmeta::total_size(s.blocks, Seq::empty()) == 0,
        s.blocks.dom().contains(h) ==> blockmeta::total_size(s.blocks, hashes.push(h))
            == blockmeta::total_size(s.blocks, hashes) + s.blocks[h].size,
        !s.blocks.dom().contains(h) ==> blockmeta::total_size(s.blocks, hashes.push(h))
            == blockmeta::total_size(s.blocks, hashes),
{
    assert(hashes.push(h).drop_last() =~= hashes);
}

/// A block is recorded to be deleted from a time on, or taken off the record; nothing else moves.
pub proof fn lemma_pending(s: StoreView, hash: Seq<u8>, at: i64, other: Seq<u8>)
    ensures
        blockmeta::with_pending(s, hash, Some(at)).pending.dom().contains(hash),
        blockmeta::with_pending(s, hash, Some(at)).pending[hash] == at,
        !blockmeta::with_pending(s, hash, None).pending.dom().contains(hash),
        other != hash ==> {
            let t = blockmeta::with_pending(s, hash, Some(at));
            let u = blockmeta::with_pending(s, hash, None);
            &&& t.pending.dom().contains(other) == s.pending.dom().contains(other)
            &&& u.pending.dom().contains(other) == s.pending.dom().contains(other)
            &&& s.pending.dom().contains(other) ==> t.pending[other] == s.pending[other]
                && u.pending[other] == s.pending[other]
        },
        blockmeta::with_pending(s, hash, Some(at)) == (StoreView {
            pending: blockmeta::with_pending(s, hash, Some(at)).pending,
            ..s
        }),
        blockmeta::with_pending(s, hash, None) == (StoreView {
            pending: blockmeta::with_pending(s, hash, None).pending,
            ..s
        }),
{
}

/// The bytes here are the sizes of the blocks here, added up, as far as a signed number goes.
pub proof fn lemma_bytes_held(s: StoreView)
    ensures
        ({
            let total = blockmeta::total_size(s.blocks, blockmeta::held_at(s.locations, s.site));
            &&& 0 <= total <= i64::MAX ==> blockmeta::bytes_held(s) == Ok::<i64, StoreError>(
                total as i64,
            )
            &&& total > i64::MAX ==> blockmeta::bytes_held(s) == Err::<i64, StoreError>(
                StoreError::SumOverflow,
            )
        }),
{
}

/// The copies of a block are the sites that hold it, in order, each with its own name for it.
pub proof fn lemma_copies(s: StoreView, hash: Seq<u8>, site: Seq<char>)
    requires
        table::enumerates(table::ordered(s.locations), s.locations),
    ensures
        ({
            let all = blockmeta::copies(s.locations, hash);
            &&& forall|i: int|
                0 <= i < all.len() ==> s.locations.dom().contains((hash, (#[trigger] all[i]).0))
                    && s.locations[(hash, all[i].0)].fid == all[i].1
            &&& forall|i: int, j: int|
                0 <= i < j < all.len() ==> (#[trigger] all[i]).0.before((#[trigger] all[j]).0)
            &&& s.locations.dom().contains((hash, site)) ==> all.contains(
                (site, s.locations[(hash, site)].fid),
            )
        }),
{
    let rows = table::ordered(s.locations);
    let p = blockmeta::at_hash(hash);
    let kept = rows.filter(p);
    let all = blockmeta::copies(s.locations, hash);
    table::lemma_filter_ascending(rows, p);
    assert forall|i: int| 0 <= i < all.len() implies s.locations.dom().contains(
        (hash, (#[trigger] all[i]).0),
    ) && s.locations[(hash, all[i].0)].fid == all[i].1 && kept[i].0 == (hash, all[i].0) by {
        assert(kept.contains(kept[i]));
        seqs::lemma_filter_members(rows, p, kept[i]);
        let x = choose|x: int| 0 <= x < rows.len() && rows[x] == kept[i];
        assert(s.locations.dom().contains(rows[x].0) && s.locations[rows[x].0] == rows[x].1);
    }
    assert forall|i: int, j: int| 0 <= i < j < all.len() implies (#[trigger] all[i]).0.before(
        (#[trigger] all[j]).0,
    ) by {
        assert(kept[i].0.before(kept[j].0));
        assert(kept[i].0 == (hash, all[i].0) && kept[j].0 == (hash, all[j].0));
        <Seq<u8> as KeyOrder>::before_irreflexive(hash);
    }
    if s.locations.dom().contains((hash, site)) {
        let e = ((hash, site), s.locations[(hash, site)]);
        assert(rows.contains(e));
        seqs::lemma_filter_members(rows, p, e);
        let x = choose|x: int| 0 <= x < kept.len() && kept[x] == e;
        assert(all[x] == (site, e.1.fid));
    }
}

} // verus!
