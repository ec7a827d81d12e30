//! The background work of a node: collecting garbage, draining the replication queue, and
//! keeping the readings of the write guard fresh.

use std::time::SystemTime;

use vstd::prelude::*;

use crate::blockmeta;
use crate::clock;
use crate::clock::BeforeEpoch;
use crate::db::{EntryView, ReplicationEntry};
use crate::disk::DiskGuard;
use crate::replication;
use crate::s3;
use crate::seqs;
use crate::storage::StorageBackend;
use crate::store::StoreView;

verus! {

/// The local usage that the metadata shows, where its sum fits.
pub open spec fn usage_of(s: StoreView) -> Option<u64> {
    let total = blockmeta::total_size(s.blocks, blockmeta::held_at(s.locations, s.site));
    if i64::MIN <= total <= i64::MAX {
        Some((total as i64) as u64)
    } else {
        None
    }
}

/// The guard with a usage taken in, where there is one.
pub open spec fn with_usage(g: DiskGuard, usage: Option<u64>) -> DiskGuard {
    match usage {
        Some(u) => DiskGuard { local_usage: u, ..g },
        None => g,
    }
}

/// The guard with a reading of the free space taken in, where it keeps a reserve.
pub open spec fn with_reading(g: DiskGuard, sampled: Option<u64>) -> DiskGuard {
    match sampled {
        Some(f) => if g.min_free_bytes > 0 {
            DiskGuard { free: f, ..g }
        } else {
            g
        },
        None => g,
    }
}

/// What one drain of the queue has to do.
pub enum DrainStart {
    /// The write guard has tripped: no block is pulled. These blocks were reaped to make
    /// room, and their bytes are to be deleted.
    Paused { reason: String, reaped: Vec<(Vec<u8>, Vec<u8>)> },
    /// Work on these entries, in order, with these peers.
    Ready { entries: Vec<ReplicationEntry>, peers: Vec<(String, String)> },
}

/// The entries of a drain.
pub open spec fn entries_of(page: Seq<(i64, EntryView)>) -> Seq<EntryView> {
    page.map_values(|e: (i64, EntryView)| e.1)
}

/// A drain that starts at `now_ms`, with `wall_ms` on the wall clock. A wall clock that lies
/// before the Unix epoch allows no sweep.
pub open spec fn drain_started(
    before: StorageBackend,
    after: StoreView,
    wall_ms: Option<i64>,
    now_ms: i64,
    r: DrainStart,
) -> bool {
    let s = before.db@;
    let grace = before.config.storage.gc_grace_period_seconds;
    match s3::pause_text(before.disk_guard) {
        Some(t) => {
            &&& after == (match wall_ms {
                Some(wall) => s.swept(wall, grace, true),
                None => s,
            })
            &&& r matches DrainStart::Paused { reason, reaped } && reason@ == t && seqs::views(
                reaped@,
            ) == (match wall_ms {
                Some(wall) => s.reap_list(wall, grace, true),
                None => seq![],
            })
        },
        None => {
            &&& after == s
            &&& r matches DrainStart::Ready { entries, peers } && seqs::views(entries@)
                == entries_of(replication::drain_page(s.queue, s.site, now_ms)) && seqs::views(
                peers@,
            ) == replication::peers_of(s.nodes, s.site)
        },
    }
}

/// A sweep with `wall_ms` on the wall clock gives the blocks whose bytes are to be deleted. A wall
/// clock that lies before the Unix epoch allows no sweep.
pub open spec fn sweep_ended(
    before: StorageBackend,
    after: StoreView,
    wall_ms: Option<i64>,
    force: bool,
    r: Result<Vec<(Vec<u8>, Vec<u8>)>, BeforeEpoch>,
) -> bool {
    let s = before.db@;
    let grace = before.config.storage.gc_grace_period_seconds;
    match wall_ms {
        Some(wall) => after == s.swept(wall, grace, force) && (r matches Ok(reaped)
            && seqs::views(reaped@) == s.reap_list(wall, grace, force)),
        None => after == s && r is Err,
    }
}

/// What the wall clock shows, in whole milliseconds: nothing where the system time lies before the
/// Unix epoch.
pub(crate) fn wall_millis() -> (r: Option<i64>)
    ensures
        exists|t: SystemTime| r == #[trigger] clock::wall_at(t),
{
    let t = SystemTime::now();
    match clock::wall_millis_of(&t) {
        Ok(millis) => Some(millis),
        Err(_) => None,
    }
}

impl StorageBackend {
    /// One sweep at `now_ms`: gives the blocks whose bytes are to be deleted, with their fids.
    pub fn sweep_orphaned_blocks_at(&mut self, now_ms: i64, force: bool) -> (r: Vec<
        (Vec<u8>, Vec<u8>),
    >)
        ensures
            final(self).config == old(self).config,
            final(self).disk_guard == old(self).disk_guard,
            final(self).db.clock == old(self).db.clock,
            final(self).db@ == old(self).db@.swept(
                now_ms,
                old(self).config.storage.gc_grace_period_seconds,
                force,
            ),
            seqs::views(r@) == old(self).db@.reap_list(
                now_ms,
                old(self).config.storage.gc_grace_period_seconds,
                force,
            ),
    {
        let grace: u64 = self.config.storage.gc_grace_period_seconds;
        self.db.sweep_orphaned_blocks_at(now_ms, grace, force)
    }

    /// Recomputable mark-and-sweep GC. The scheduled sweep honours the grace
    /// period.
    pub fn reap_orphaned_blocks(&mut self) -> (r: Result<Vec<(Vec<u8>, Vec<u8>)>, BeforeEpoch>)
        ensures
            final(self).config == old(self).config,
            final(self).disk_guard == old(self).disk_guard,
            final(self).db.clock == old(self).db.clock,
            exists|t: SystemTime|
                sweep_ended(
                    *old(self),
                    final(self).db@,
                    #[trigger] clock::wall_at(t),
                    false,
                    r,
                ),
    {
        match wall_millis() {
            Some(now) => Ok(self.sweep_orphaned_blocks_at(now, false)),
            None => Err(BeforeEpoch),
        }
    }

    /// Operator-triggered immediate reclaim: same safety (live-set check) but no
    /// grace wait.
    pub fn force_sweep_orphaned_blocks(&mut self) -> (r: Result<Vec<(Vec<u8>, Vec<u8>)>, BeforeEpoch>)
        ensures
            final(self).config == old(self).config,
            final(self).disk_guard == old(self).disk_guard,
            final(self).db.clock == old(self).db.clock,
            exists|t: SystemTime|
                sweep_ended(
                    *old(self),
                    final(self).db@,
                    #[trigger] clock::wall_at(t),
                    true,
                    r,
                ),
    {
        match wall_millis() {
            Some(now) => Ok(self.sweep_orphaned_blocks_at(now, true)),
            None => Err(BeforeEpoch),
        }
    }

    /// Starts a drain of the replication queue. When writes are refused (low free space or
    /// over quota), no more block bytes are pulled: orphans are reclaimed instead (GC is
    /// exempt — it frees space), and the cycle is skipped. Queue entries are durable, so the
    /// node simply falls behind and catches up once space frees / usage drops.
    pub fn drain_replication_queue_at(&mut self, wall_ms: Option<i64>, now_ms: i64) -> (r:
        DrainStart)
        ensures
            final(self).config == old(self).config,
            final(self).disk_guard == old(self).disk_guard,
            final(self).db.clock == old(self).db.clock,
            drain_started(*old(self), final(self).db@, wall_ms, now_ms, r),
    {
        match s3::pause_reason(&self.disk_guard) {
            Some(reason) => {
                let reaped = match wall_ms {
                    Some(wall) => self.sweep_orphaned_blocks_at(wall, true),
                    None => Vec::new(),
                };
                assert(wall_ms is None ==> seqs::views(reaped@) =~= seq![]);
                DrainStart::Paused { reason, reaped }
            },
            None => {
                let entries = self.db.get_replication_queue_at(now_ms);
                let peers = self.db.get_peers_with_urls();
                DrainStart::Ready { entries, peers }
            },
        }
    }

    /// Starts a drain of the replication queue. A sweep goes by the wall clock, the queue by the
    /// cluster clock.
    pub fn drain_replication_queue(&mut self) -> (r: DrainStart)
        ensures
            final(self).config == old(self).config,
            final(self).disk_guard == old(self).disk_guard,
            final(self).db.clock == old(self).db.clock,
            exists|w: SystemTime, t: SystemTime|
                drain_started(
                    *old(self),
                    final(self).db@,
                    #[trigger] clock::wall_at(w),
                    #[trigger] old(self).db.clock.millis(t),
                    r,
                ),
    {
        let wall: Option<i64> = wall_millis();
        let now: i64 = self.db.clock.now_millis();
        self.drain_replication_queue_at(wall, now)
    }

    /// Takes in the local usage that the metadata shows. Where it cannot be had the last
    /// reading stays.
    pub fn refresh_usage(&mut self)
        ensures
            final(self).config == old(self).config,
            final(self).db == old(self).db,
            final(self).disk_guard == with_usage(old(self).disk_guard, usage_of(old(self).db@)),
    {
        match self.db.local_block_bytes() {
            Ok(bytes) => {
                self.disk_guard.set_local_usage(bytes as u64);
            },
            Err(_) => {},
        }
    }

    /// Takes in a reading of the free space and the local usage, as after a sweep under disk
    /// pressure.
    pub fn refresh_guard(&mut self, sampled: Option<u64>)
        ensures
            final(self).config == old(self).config,
            final(self).db == old(self).db,
            final(self).disk_guard == with_usage(
                with_reading(old(self).disk_guard, sampled),
                usage_of(old(self).db@),
            ),
    {
        self.disk_guard.refresh(sampled);
        self.refresh_usage();
    }
}

/// A drain that pauses pulls nothing and takes no entry off the queue.
pub proof fn lemma_pause_keeps_queue(
    before: StorageBackend,
    after: StoreView,
    wall_ms: Option<i64>,
    now_ms: i64,
    r: DrainStart,
)
    requires
        drain_started(before, after, wall_ms, now_ms, r),
    ensures
        after.queue == before.db@.queue,
        before.disk_guard.trip() is Some == r is Paused,
{
}

} // verus!
