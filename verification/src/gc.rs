//! Garbage collection: a recomputable mark-and-sweep over what this site holds.
//!
//! A block is live where a manifest or a part of an upload in progress names it. A block held
//! here that is not live is an orphan. It is reaped once it has been known as an orphan for
//! the grace period, or at once where the sweep is forced. A live block is never reaped.

use vstd::prelude::*;

use crate::blockmeta;
use crate::order;
use crate::order::{Rank, TableKey};
use crate::rows::LocationView;
use crate::seqs;
use crate::store::{Store, StoreView};
use crate::table;

verus! {

/// When an orphan that is first seen at `now_ms` may be reaped.
pub open spec fn deadline(now_ms: i64, grace_seconds: u64) -> i64 {
    let t = now_ms + grace_seconds * 1000;
    if t > i64::MAX {
        i64::MAX
    } else {
        t as i64
    }
}

/// A copy at another site.
pub open spec fn held_elsewhere(
    locations: Map<(Seq<u8>, Seq<char>), LocationView>,
    hash: Seq<u8>,
    site: Seq<char>,
) -> bool {
    exists|s: Seq<char>| s != site && #[trigger] locations.dom().contains((hash, s))
}

impl StoreView {
    /// The block is held here and nothing refers to it.
    pub open spec fn orphan(self, h: Seq<u8>) -> bool {
        self.locations.dom().contains((h, self.site)) && !self.referenced(h)
    }

    /// When an orphan may be reaped.
    pub open spec fn reap_at(self, h: Seq<u8>, now_ms: i64, grace_seconds: u64) -> i64 {
        if self.pending.dom().contains(h) {
            self.pending[h]
        } else {
            deadline(now_ms, grace_seconds)
        }
    }

    /// A sweep at `now_ms` deletes the local copy of the block.
    pub open spec fn reaped(
        self,
        h: Seq<u8>,
        now_ms: i64,
        grace_seconds: u64,
        force: bool,
    ) -> bool {
        self.orphan(h) && (force || now_ms >= self.reap_at(h, now_ms, grace_seconds))
    }

    /// After a sweep: the copies of reaped blocks are gone, and their rows where no other
    /// site holds them; the orphans that are left are scheduled, and nothing else is.
    pub open spec fn swept(self, now_ms: i64, grace_seconds: u64, force: bool) -> StoreView {
        StoreView {
            locations: Map::new(
                |k: (Seq<u8>, Seq<char>)|
                    self.locations.dom().contains(k) && !(k.1 == self.site && self.reaped(
                        k.0,
                        now_ms,
                        grace_seconds,
                        force,
                    )),
                |k: (Seq<u8>, Seq<char>)| self.locations[k],
            ),
            blocks: Map::new(
                |h: Seq<u8>|
                    self.blocks.dom().contains(h) && !(self.reaped(
                        h,
                        now_ms,
                        grace_seconds,
                        force,
                    ) && !held_elsewhere(self.locations, h, self.site)),
                |h: Seq<u8>| self.blocks[h],
            ),
            pending: Map::new(
                |h: Seq<u8>| self.orphan(h) && !self.reaped(h, now_ms, grace_seconds, force),
                |h: Seq<u8>| self.reap_at(h, now_ms, grace_seconds),
            ),
            ..self
        }
    }

    /// What a sweep reaps, in hash order, each block with its fid.
    pub open spec fn reap_list(self, now_ms: i64, grace_seconds: u64, force: bool) -> Seq<
        (Seq<u8>, Seq<u8>),
    > {
        seqs::pick(
            blockmeta::held_at(self.locations, self.site),
            self.to_reap(now_ms, grace_seconds, force),
            self.with_fid(),
        )
    }

    pub open spec fn to_reap(self, now_ms: i64, grace_seconds: u64, force: bool) -> spec_fn(
        Seq<u8>,
    ) -> bool {
        |h: Seq<u8>| self.reaped(h, now_ms, grace_seconds, force)
    }

    pub open spec fn with_fid(self) -> spec_fn(Seq<u8>) -> (Seq<u8>, Seq<u8>) {
        |h: Seq<u8>| (h, self.locations[(h, self.site)].fid)
    }
}

/// A sweep that has gone through the first `i` of the blocks held here.
spec fn swept_up_to(
    before: StoreView,
    after: StoreView,
    local: Seq<Seq<u8>>,
    i: int,
    now_ms: i64,
    grace_seconds: u64,
    force: bool,
) -> bool {
    let done = local.take(i);
    &&& after == (StoreView {
        locations: after.locations,
        blocks: after.blocks,
        pending: after.pending,
        ..before
    })
    &&& forall|k: (Seq<u8>, Seq<char>)| #[trigger]
        after.locations.dom().contains(k) == (before.locations.dom().contains(k) && !(k.1
            == before.site && done.contains(k.0) && before.reaped(
            k.0,
            now_ms,
            grace_seconds,
            force,
        )))
    &&& forall|k: (Seq<u8>, Seq<char>)| #[trigger]
        after.locations.dom().contains(k) ==> after.locations[k] == before.locations[k]
    &&& forall|h: Seq<u8>| #[trigger]
        after.blocks.dom().contains(h) == (before.blocks.dom().contains(h) && !(done.contains(h)
            && before.reaped(h, now_ms, grace_seconds, force) && !held_elsewhere(
            before.locations,
            h,
            before.site,
        )))
    &&& forall|h: Seq<u8>| #[trigger]
        after.blocks.dom().contains(h) ==> after.blocks[h] == before.blocks[h]
    &&& forall|h: Seq<u8>| #[trigger]
        after.pending.dom().contains(h) == (if done.contains(h) {
            before.orphan(h) && !before.reaped(h, now_ms, grace_seconds, force)
        } else {
            before.pending.dom().contains(h)
        })
    &&& forall|h: Seq<u8>| #[trigger]
        after.pending.dom().contains(h) ==> after.pending[h] == before.reap_at(
            h,
            now_ms,
            grace_seconds,
        )
}

fn contains_hash(v: &Vec<Vec<u8>>, h: &Vec<u8>) -> (r: bool)
    ensures
        r == seqs::views(v@).contains(h@),
{
    let mut i: usize = 0;
    while i < v.len()
        invariant
            i <= v@.len(),
            forall|j: int| 0 <= j < i ==> (#[trigger] v@[j])@ != h@,
        decreases v@.len() - i,
    {
        let same = match order::rank_bytes(v[i].as_slice(), h.as_slice()) {
            Rank::Equal => true,
            _ => false,
        };
        if same {
            assert(seqs::views(v@)[i as int] == h@);
            return true;
        }
        i += 1;
    }
    proof {
        if seqs::views(v@).contains(h@) {
            let j = choose|j: int| 0 <= j < v@.len() && seqs::views(v@)[j] == h@;
            assert(v@[j]@ == h@);
        }
    }
    false
}

/// The first `i + 1` of distinct hashes are the first `i` and the next.
proof fn lemma_take_next(local: Seq<Seq<u8>>, i: int)
    requires
        0 <= i < local.len(),
        local.no_duplicates(),
    ensures
        forall|h: Seq<u8>| #[trigger]
            local.take(i + 1).contains(h) == (local.take(i).contains(h) || h == local[i]),
        !local.take(i).contains(local[i]),
{
    let a = local.take(i);
    let b = local.take(i + 1);
    assert forall|h: Seq<u8>| #[trigger] b.contains(h) == (a.contains(h) || h == local[i]) by {
        if b.contains(h) {
            let j = choose|j: int| 0 <= j < b.len() && b[j] == h;
            if j < i {
                assert(a[j] == h);
            }
        }
        if a.contains(h) {
            let j = choose|j: int| 0 <= j < a.len() && a[j] == h;
            assert(b[j] == h);
        }
        assert(b[i] == local[i]);
    }
    if a.contains(local[i]) {
        let j = choose|j: int| 0 <= j < a.len() && a[j] == local[i];
        assert(local[j] == local[i]);
    }
}

impl Store {
    /// Deals with one of the blocks held here: `live` says whether something refers to it.
    fn sweep_block(
        &mut self,
        hash: &Vec<u8>,
        live: bool,
        now_ms: i64,
        grace_seconds: u64,
        force: bool,
        before: Ghost<StoreView>,
        local: Ghost<Seq<Seq<u8>>>,
        i: Ghost<int>,
    ) -> (r: Option<Vec<u8>>)
        requires
            0 <= i@ < local@.len(),
            local@[i@] == hash@,
            local@.no_duplicates(),
            live == before@.referenced(hash@),
            before@.locations.dom().contains((hash@, before@.site)),
            swept_up_to(before@, old(self)@, local@, i@, now_ms, grace_seconds, force),
        ensures
            swept_up_to(before@, final(self)@, local@, i@ + 1, now_ms, grace_seconds, force),
            final(self).clock == old(self).clock,
            r is Some == before@.reaped(hash@, now_ms, grace_seconds, force),
            r matches Some(fid) ==> fid@ == before@.locations[(hash@, before@.site)].fid,
    {
        proof {
            lemma_take_next(local@, i@);
        }
        let scheduled: Option<i64> = match self.pending_deletions.get(hash) {
            Some(t) => Some(*t),
            None => None,
        };
        if live {
            // Referenced again (or never orphaned): cancel any pending reap.
            if scheduled.is_some() {
                self.remove_pending_deletion(hash.as_slice());
            }
            return None;
        }
        // Orphan. On the first sighting, record when it becomes reapable.
        let reap_at: i64 = match scheduled {
            Some(t) => t,
            None => {
                let wide: i128 = now_ms as i128 + grace_seconds as i128 * 1000;
                let t: i64 = if wide > 0x7fff_ffff_ffff_ffff {
                    i64::MAX
                } else {
                    wide as i64
                };
                self.add_pending_deletion(hash.as_slice(), t);
                t
            },
        };
        if !force && now_ms < reap_at {
            return None;
        }
        // Confirmed orphan past grace (or forced): drop our location entry; the block row
        // vanishes once the last site has done the same.
        let ghost mid = self@;
        let fid = self.get_local_block_fid(hash.as_slice());
        let removed = self.delete_local_block(hash.as_slice());
        proof {
            let l = mid.locations.remove((hash@, mid.site));
            assert(blockmeta::held_somewhere(l, hash@) == held_elsewhere(
                before@.locations,
                hash@,
                before@.site,
            )) by {
                if blockmeta::held_somewhere(l, hash@) {
                    let s = choose|s: Seq<char>| #[trigger] l.dom().contains((hash@, s));
                    assert(mid.locations.dom().contains((hash@, s)));
                    assert(before@.locations.dom().contains((hash@, s)));
                }
                if held_elsewhere(before@.locations, hash@, before@.site) {
                    let s = choose|s: Seq<char>|
                        s != before@.site && #[trigger] before@.locations.dom().contains((hash@, s));
                    assert(mid.locations.dom().contains((hash@, s)));
                    assert(l.dom().contains((hash@, s)));
                }
            }
        }
        self.remove_pending_deletion(hash.as_slice());
        fid
    }

    /// One sweep at `now_ms`. Gives the blocks whose bytes are to be deleted, each with its
    /// fid.
    pub fn sweep_orphaned_blocks_at(
        &mut self,
        now_ms: i64,
        grace_seconds: u64,
        force: bool,
    ) -> (r: Vec<(Vec<u8>, Vec<u8>)>)
        ensures
            final(self)@ == old(self)@.swept(now_ms, grace_seconds, force),
            seqs::views(r@) == old(self)@.reap_list(now_ms, grace_seconds, force),
            final(self).clock == old(self).clock,
    {
        let ghost before = self@;
        // Recompute the live set from the manifests, then hold it against what is held here.
        let live = self.compute_live_block_set();
        let local = self.list_local_block_hashes();
        let pending = self.get_pending_deletions();
        let ghost all = seqs::views(local@);
        let ghost p = before.to_reap(now_ms, grace_seconds, force);
        let ghost f = before.with_fid();
        let mut out: Vec<(Vec<u8>, Vec<u8>)> = Vec::new();
        let mut i: usize = 0;
        proof {
            blockmeta::lemma_held_at(before.locations, before.site, Seq::empty());
            seqs::lemma_pick_none(all, p, f);
            assert(seqs::views(out@) =~= seqs::pick(all.take(0), p, f));
            assert(forall|h: Seq<u8>| !(#[trigger] all.take(0).contains(h)));
        }
        while i < local.len()
            invariant
                i <= local@.len(),
                all == seqs::views(local@),
                all == blockmeta::held_at(before.locations, before.site),
                all.no_duplicates(),
                table::enumerates(table::ordered(before.locations), before.locations),
                p == before.to_reap(now_ms, grace_seconds, force),
                f == before.with_fid(),
                forall|h: Seq<u8>| #[trigger] live@.contains(h) == before.referenced(h),
                swept_up_to(before, self@, all, i as int, now_ms, grace_seconds, force),
                seqs::views(out@) == seqs::pick(all.take(i as int), p, f),
                self.clock == old(self).clock,
            decreases local@.len() - i,
        {
            let hash = &local[i];
            proof {
                assert(all[i as int] == hash@);
                assert(all.contains(hash@));
                blockmeta::lemma_held_at(before.locations, before.site, hash@);
                seqs::lemma_pick_step(all, p, f, i as int);
            }
            let referenced = live.contains(hash);
            let reaped = self.sweep_block(
                hash,
                referenced,
                now_ms,
                grace_seconds,
                force,
                Ghost(before),
                Ghost(all),
                Ghost(i as int),
            );
            match reaped {
                Some(fid) => {
                    let item = (hash.duplicate(), fid);
                    proof {
                        seqs::lemma_views_push(out@, item);
                    }
                    out.push(item);
                },
                None => {},
            }
            i += 1;
        }
        proof {
            assert(all.take(all.len() as int) =~= all);
        }
        // Drop pending entries for blocks we no longer hold (e.g. already reaped on a prior
        // cycle) so the table doesn't accumulate stale rows.
        let ghost mid = self@;
        let ghost q = seqs::views(pending@);
        let mut j: usize = 0;
        while j < pending.len()
            invariant
                j <= pending@.len(),
                q == seqs::views(pending@),
                q == table::ordered(before.pending),
                all == seqs::views(local@),
                self@ == (StoreView { pending: self@.pending, ..mid }),
                forall|h: Seq<u8>| #[trigger]
                    self@.pending.dom().contains(h) ==> mid.pending.dom().contains(h)
                        && self@.pending[h] == mid.pending[h],
                forall|h: Seq<u8>|
                    all.contains(h) && mid.pending.dom().contains(h)
                        ==> #[trigger] self@.pending.dom().contains(h),
                forall|x: int|
                    0 <= x < j && !all.contains((#[trigger] q[x]).0)
                        ==> !self@.pending.dom().contains(q[x].0),
                self.clock == old(self).clock,
            decreases pending@.len() - j,
        {
            let h = &pending[j].0;
            assert(q[j as int].0 == h@);
            if !contains_hash(&local, h) {
                self.remove_pending_deletion(h.as_slice());
            }
            j += 1;
        }
        proof {
            assert forall|h: Seq<u8>| all.contains(h) == before.locations.dom().contains(
                (h, before.site),
            ) by {
                blockmeta::lemma_held_at(before.locations, before.site, h);
            }
            let goal = before.swept(now_ms, grace_seconds, force);
            assert(self@.locations =~= goal.locations);
            assert(self@.blocks =~= goal.blocks);
            assert forall|h: Seq<u8>| self@.pending.dom().contains(h)
                == goal.pending.dom().contains(h) by {
                if !all.contains(h) && self@.pending.dom().contains(h) {
                    assert(before.pending.dom().contains(h));
                    let x = choose|x: int| 0 <= x < q.len() && (#[trigger] q[x]).0 == h;
                    assert(!all.contains(q[x].0));
                }
            }
            assert(self@.pending =~= goal.pending);
            assert(self@ =~= goal);
        }
        out
    }
}

// ── what a sweep keeps ───────────────────────────────────────────────────────

/// A sweep never takes away a block that something refers to, forced or not, and cancels any
/// reaping that was scheduled for it.
pub proof fn lemma_live_block_survives(
    s: StoreView,
    h: Seq<u8>,
    now_ms: i64,
    grace_seconds: u64,
    force: bool,
)
    requires
        s.referenced(h),
    ensures
        ({
            let t = s.swept(now_ms, grace_seconds, force);
            &&& t.locations.dom().contains((h, s.site)) == s.locations.dom().contains((h, s.site))
            &&& t.blocks.dom().contains(h) == s.blocks.dom().contains(h)
            &&& !t.pending.dom().contains(h)
        }),
{
}

/// A sweep leaves the copies at other sites alone.
pub proof fn lemma_other_sites_keep(
    s: StoreView,
    h: Seq<u8>,
    site: Seq<char>,
    now_ms: i64,
    grace_seconds: u64,
    force: bool,
)
    requires
        site != s.site,
    ensures
        s.swept(now_ms, grace_seconds, force).locations.dom().contains((h, site))
            == s.locations.dom().contains((h, site)),
{
}

/// A sweep that is not forced spares an orphan until its grace period is over, and schedules
/// it on the first sighting.
pub proof fn lemma_grace_respected(s: StoreView, h: Seq<u8>, now_ms: i64, grace_seconds: u64)
    requires
        s.orphan(h),
        now_ms < s.reap_at(h, now_ms, grace_seconds),
    ensures
        ({
            let t = s.swept(now_ms, grace_seconds, false);
            &&& t.locations.dom().contains((h, s.site))
            &&& t.pending.dom().contains(h)
            &&& t.pending[h] == s.reap_at(h, now_ms, grace_seconds)
        }),
{
}

/// A forced sweep reaps every orphan at once.
pub proof fn lemma_force_reaps(s: StoreView, h: Seq<u8>, now_ms: i64, grace_seconds: u64)
    requires
        s.orphan(h),
    ensures
        ({
            let t = s.swept(now_ms, grace_seconds, true);
            &&& !t.locations.dom().contains((h, s.site))
            &&& !t.pending.dom().contains(h)
        }),
{
}

/// A sweep leaves no object, part or user changed.
pub proof fn lemma_sweep_keeps_metadata(
    s: StoreView,
    now_ms: i64,
    grace_seconds: u64,
    force: bool,
)
    ensures
        ({
            let t = s.swept(now_ms, grace_seconds, force);
            &&& t.objects == s.objects
            &&& t.parts == s.parts
            &&& t.uploads == s.uploads
            &&& t.users == s.users
            &&& t.log == s.log
        }),
{
}

/// An orphan is reaped in the end: a later sweep at or behind its deadline takes it, where
/// nothing has come to refer to it.
pub proof fn lemma_orphan_reaped(
    s: StoreView,
    h: Seq<u8>,
    now_ms: i64,
    later_ms: i64,
    grace_seconds: u64,
)
    requires
        s.orphan(h),
        later_ms >= s.reap_at(h, now_ms, grace_seconds),
    ensures
        ({
            let t = s.swept(now_ms, grace_seconds, false);
            let u = t.swept(later_ms, grace_seconds, false);
            !u.locations.dom().contains((h, s.site))
        }),
{
}

} // verus!
