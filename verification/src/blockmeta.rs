//! Block metadata: which blocks exist, where their copies live, and which are unreferenced.

use std::time::SystemTime;

use vstd::prelude::*;

use crate::codec;
use crate::lww;
use crate::order;
use crate::order::{KeyOrder, Rank, TableKey};
use crate::rows::{BlockRow, Fact, LocationRow, LocationView, ObjectView, PartView};
use crate::seqs;
use crate::store;
use crate::store::{Store, StoreError, StoreView};
use crate::table;
use crate::table::Table;
use crate::text;

verus! {

/// A location row with its key: hash and site.
pub type LocationEntry = ((Seq<u8>, Seq<char>), LocationView);

/// The locations of copies of `hash`.
pub open spec fn at_hash(hash: Seq<u8>) -> spec_fn(LocationEntry) -> bool {
    |e: LocationEntry| e.0.0 == hash
}

/// The locations at `site`.
pub open spec fn at_site(site: Seq<char>) -> spec_fn(LocationEntry) -> bool {
    |e: LocationEntry| e.0.1 == site
}

/// Site and fid of a copy.
pub open spec fn site_and_fid() -> spec_fn(LocationEntry) -> (Seq<char>, Seq<u8>) {
    |e: LocationEntry| (e.0.1, e.1.fid)
}

/// The hash of a copy.
pub open spec fn hash_of() -> spec_fn(LocationEntry) -> Seq<u8> {
    |e: LocationEntry| e.0.0
}

/// The sites that hold `hash`, in order, each with its fid.
pub open spec fn copies(
    locations: Map<(Seq<u8>, Seq<char>), LocationView>,
    hash: Seq<u8>,
) -> Seq<(Seq<char>, Seq<u8>)> {
    seqs::pick(table::ordered(locations), at_hash(hash), site_and_fid())
}

/// The hashes of the blocks held at `site`, in order.
pub open spec fn held_at(
    locations: Map<(Seq<u8>, Seq<char>), LocationView>,
    site: Seq<char>,
) -> Seq<Seq<u8>> {
    seqs::pick(table::ordered(locations), at_site(site), hash_of())
}

/// Some site holds `hash`.
pub open spec fn held_somewhere(
    locations: Map<(Seq<u8>, Seq<char>), LocationView>,
    hash: Seq<u8>,
) -> bool {
    exists|site: Seq<char>| #[trigger] locations.dom().contains((hash, site))
}

/// `copies` names exactly the sites that hold the block.
pub proof fn lemma_copies(
    locations: Map<(Seq<u8>, Seq<char>), LocationView>,
    hash: Seq<u8>,
    site: Seq<char>,
    fid: Seq<u8>,
)
    requires
        table::enumerates(table::ordered(locations), locations),
    ensures
        copies(locations, hash).contains((site, fid)) == (locations.dom().contains((hash, site))
            && locations[(hash, site)].fid == fid),
        (copies(locations, hash).len() > 0) == held_somewhere(locations, hash),
{
    let s = table::ordered(locations);
    let p = at_hash(hash);
    let f = site_and_fid();
    seqs::lemma_pick_members(s, p, f, (site, fid));
    if locations.dom().contains((hash, site)) && locations[(hash, site)].fid == fid {
        let i = choose|i: int| 0 <= i < s.len() && (#[trigger] s[i]).0 == (hash, site);
        assert(p(s[i]) && f(s[i]) == (site, fid));
    }
    let all = copies(locations, hash);
    if all.len() > 0 {
        assert(all.contains(all[0]));
        seqs::lemma_pick_members(s, p, f, all[0]);
        let i = choose|i: int| 0 <= i < s.len() && p(#[trigger] s[i]) && f(s[i]) == all[0];
        assert(locations.dom().contains((hash, s[i].0.1)));
    }
    if held_somewhere(locations, hash) {
        let x = choose|x: Seq<char>| #[trigger] locations.dom().contains((hash, x));
        let i = choose|i: int| 0 <= i < s.len() && (#[trigger] s[i]).0 == (hash, x);
        seqs::lemma_pick_members(s, p, f, f(s[i]));
        assert(p(s[i]));
        assert(all.contains(f(s[i])));
    }
}

/// `held_at` names exactly the blocks held at the site, each once.
pub proof fn lemma_held_at(
    locations: Map<(Seq<u8>, Seq<char>), LocationView>,
    site: Seq<char>,
    hash: Seq<u8>,
)
    requires
        table::enumerates(table::ordered(locations), locations),
    ensures
        held_at(locations, site).contains(hash) == locations.dom().contains((hash, site)),
        held_at(locations, site).no_duplicates(),
{
    let s = table::ordered(locations);
    let p = at_site(site);
    let f = hash_of();
    seqs::lemma_pick_members(s, p, f, hash);
    if locations.dom().contains((hash, site)) {
        let i = choose|i: int| 0 <= i < s.len() && (#[trigger] s[i]).0 == (hash, site);
        assert(p(s[i]) && f(s[i]) == hash);
    }
    let t = s.filter(p);
    table::lemma_filter_ascending(s, p);
    let all = held_at(locations, site);
    assert forall|i: int, j: int| 0 <= i < j < all.len() implies all[i] != all[j] by {
        assert(t.contains(t[i]) && t.contains(t[j]));
        seqs::lemma_filter_members(s, p, t[i]);
        seqs::lemma_filter_members(s, p, t[j]);
        assert(t[i].0.before(t[j].0));
        <(Seq<u8>, Seq<char>) as KeyOrder>::before_irreflexive(t[i].0);
    }
}

/// Size of a block; zero where it is not known.
pub open spec fn size_of(blocks: Map<Seq<u8>, BlockRow>, hash: Seq<u8>) -> i64 {
    if blocks.dom().contains(hash) {
        blocks[hash].size
    } else {
        0
    }
}

/// The sizes of the known blocks among `hashes`, added up.
pub open spec fn total_size(blocks: Map<Seq<u8>, BlockRow>, hashes: Seq<Seq<u8>>) -> int
    decreases hashes.len(),
{
    if hashes.len() == 0 {
        0
    } else {
        total_size(blocks, hashes.drop_last()) + size_of(blocks, hashes.last())
    }
}

/// The bytes of the blocks that the site holds, as far as a signed number goes.
pub open spec fn bytes_held(s: StoreView) -> Result<i64, StoreError> {
    let total = total_size(s.blocks, held_at(s.locations, s.site));
    if i64::MIN <= total <= i64::MAX {
        Ok::<i64, StoreError>(total as i64)
    } else {
        Err(StoreError::SumOverflow)
    }
}

/// With a block recorded to be deleted from a time on, or not to be.
pub open spec fn with_pending(s: StoreView, hash: Seq<u8>, not_before_ms: Option<i64>) -> StoreView {
    StoreView {
        pending: match not_before_ms {
            Some(t) => s.pending.insert(hash, t),
            None => s.pending.remove(hash),
        },
        ..s
    }
}

/// With another site that holds a block.
pub open spec fn with_location(
    s: StoreView,
    hash: Seq<u8>,
    location_id: Seq<char>,
    fid: Seq<u8>,
    ts: i64,
) -> StoreView {
    s.with_block(hash, location_id, fid, size_of(s.blocks, hash), ts)
}

impl Store {
    /// The sites that hold a block, each with its fid.
    pub fn get_block_fids(&self, hash: &[u8]) -> (r: Option<Vec<(String, Vec<u8>)>>)
        ensures
            r is Some == (copies(self@.locations, hash@).len() > 0),
            r matches Some(v) ==> seqs::views(v@) == copies(self@.locations, hash@),
            table::enumerates(table::ordered(self@.locations), self@.locations),
    {
        let n: usize = self.block_locations.len();
        let ghost s = table::ordered(self@.locations);
        let ghost p = at_hash(hash@);
        let ghost f = site_and_fid();
        let from = (vstd::slice::slice_to_vec(hash), String::new());
        let start: usize = self.block_locations.lower_bound(&from);
        let mut out: Vec<(String, Vec<u8>)> = Vec::new();
        let mut i: usize = start;
        proof {
            assert(from@.1 =~= Seq::<char>::empty());
            assert forall|j: int| 0 <= j < start implies !p(#[trigger] s[j]) by {
                <Seq<u8> as KeyOrder>::before_irreflexive(hash@);
                assert(s[j].0.before(from@));
            }
            seqs::lemma_pick_no_hit(s, p, f, start as int);
            seqs::lemma_pick_none(s, p, f);
            assert(seqs::views(out@) =~= seqs::pick(s.take(start as int), p, f));
        }
        while i < n
            invariant_except_break
                i <= n,
                seqs::views(out@) == seqs::pick(s.take(i as int), p, f),
            invariant
                n == s.len(),
                s == table::ordered(self@.locations),
                table::ascending(s),
                p == at_hash(hash@),
                f == site_and_fid(),
                start <= i,
                s.take(s.len() as int) == s,
                forall|j: int| start <= j < s.len() ==> !(#[trigger] s[j]).0.before((hash@, seq![])),
            ensures
                seqs::views(out@) == copies(self@.locations, hash@),
            decreases n - i,
        {
            let k = self.block_locations.key_at(i);
            let same = match order::rank_bytes(k.0.as_slice(), hash) {
                Rank::Equal => true,
                _ => false,
            };
            if !same {
                proof {
                    // Everything from here on belongs to a later hash.
                    assert forall|j: int| i <= j < s.len() implies !p(#[trigger] s[j]) by {
                        assert(!s[i as int].0.before((hash@, seq![])));
                        <Seq<u8> as KeyOrder>::before_total(s[i as int].0.0, hash@);
                        <Seq<u8> as KeyOrder>::before_irreflexive(hash@);
                        if i < j {
                            assert(s[i as int].0.before(s[j].0));
                            if s[j].0.0 == hash@ {
                                if s[i as int].0.0.before(hash@) {
                                } else {
                                    <Seq<u8> as KeyOrder>::before_transitive(
                                        hash@,
                                        s[i as int].0.0,
                                        hash@,
                                    );
                                }
                            }
                        }
                    }
                    seqs::lemma_pick_rest(s, p, f, i as int);
                }
                break;
            }
            let row = self.block_locations.value_at(i);
            let item = (k.1.clone(), row.fid.duplicate());
            proof {
                seqs::lemma_pick_step(s, p, f, i as int);
                seqs::lemma_views_push(out@, item);
            }
            out.push(item);
            i += 1;
        }
        if out.len() == 0 {
            None
        } else {
            Some(out)
        }
    }

    /// Metadata sizes for a list of block hashes, in the same order. Missing rows
    /// yield 0. Lets the GET path resolve a Range to block boundaries without
    /// fetching any block bodies.
    pub fn block_sizes(&self, hashes: &Vec<Vec<u8>>) -> (r: Vec<i64>)
        ensures
            r@.len() == hashes@.len(),
            forall|i: int|
                0 <= i < r@.len() ==> #[trigger] r@[i] == size_of(self@.blocks, hashes@[i]@),
    {
        let mut out: Vec<i64> = Vec::new();
        let mut i: usize = 0;
        while i < hashes.len()
            invariant
                i <= hashes@.len(),
                out@.len() == i,
                forall|j: int|
                    0 <= j < i ==> #[trigger] out@[j] == size_of(self@.blocks, hashes@[j]@),
            decreases hashes@.len() - i,
        {
            let size: i64 = match self.blocks.get(&hashes[i]) {
                Some(row) => row.size,
                None => 0,
            };
            out.push(size);
            i += 1;
        }
        out
    }

    /// Whether this site has no copy of the block: only then are its bytes stored.
    pub fn lacks_block(&self, hash: &[u8]) -> (r: bool)
        ensures
            r == !self@.locations.dom().contains((hash@, self@.site)),
    {
        self.get_local_block_fid(hash).is_none()
    }

    /// The fid of the local copy of a block.
    pub fn get_local_block_fid(&self, hash: &[u8]) -> (r: Option<Vec<u8>>)
        ensures
            r is Some == self@.locations.dom().contains((hash@, self@.site)),
            r matches Some(fid) ==> fid@ == self@.locations[(hash@, self@.site)].fid,
    {
        let k = (vstd::slice::slice_to_vec(hash), self.local_location_id.clone());
        match self.block_locations.get(&k) {
            Some(row) => Some(row.fid.duplicate()),
            None => None,
        }
    }

    /// Upserts the block and the location of a copy. LWW: only advances on a newer ts.
    pub(crate) fn upsert_block_location(
        &mut self,
        hash: &[u8],
        location_id: &str,
        fid: &[u8],
        size: i64,
        ts: i64,
    )
        ensures
            final(self)@ == old(self)@.with_block(hash@, location_id@, fid@, size, ts),
            final(self).clock == old(self).clock,
    {
        lww::lww_put(
            &mut self.blocks,
            vstd::slice::slice_to_vec(hash),
            BlockRow { size, updated_at: ts },
        );
        lww::lww_put(
            &mut self.block_locations,
            (vstd::slice::slice_to_vec(hash), location_id.to_string()),
            LocationRow { fid: vstd::slice::slice_to_vec(fid), updated_at: ts },
        );
    }

    /// Records a block at this site at time `ts`, without announcing it.
    pub fn insert_block_at(&mut self, hash: &[u8], fid: &[u8], size: i64, ts: i64)
        ensures
            final(self)@ == old(self)@.with_block(hash@, old(self)@.site, fid@, size, ts),
            final(self).clock == old(self).clock,
    {
        let site = self.local_location_id.clone();
        self.upsert_block_location(hash, site.as_str(), fid, size, ts);
    }

    pub fn insert_block(&mut self, hash: &[u8], fid: &[u8], size: i64)
        ensures
            exists|t: SystemTime|
                final(self)@ == old(self)@.with_block(
                    hash@,
                    old(self)@.site,
                    fid@,
                    size,
                    #[trigger] old(self).clock.micros(t),
                ),
            final(self).clock == old(self).clock,
    {
        let ts: i64 = self.clock.now_micros();
        self.insert_block_at(hash, fid, size, ts);
    }

    /// Records a block now held locally and announces it to the cluster via the
    /// fact log, at time `ts`. Peers learn the block's location by replaying the announce;
    /// each peer then decides for itself whether to pull a copy.
    pub fn store_local_block_at(&mut self, hash: &[u8], fid: &[u8], size: i64, ts: i64) -> (r:
        Result<(), StoreError>)
        ensures
            final(self).clock == old(self).clock,
            old(self)@.last_seq == i64::MAX ==> r == Err::<(), StoreError>(StoreError::LogFull)
                && final(self)@ == old(self)@,
            old(self)@.last_seq < i64::MAX ==> r is Ok && final(self)@ == old(self)@.block_stored(
                hash@,
                fid@,
                size,
                ts,
            ),
    {
        if self.fact_log.last_seq() == i64::MAX {
            return Err(StoreError::LogFull);
        }
        self.insert_block_at(hash, fid, size, ts);
        let fact = Fact::BlockAnnounce {
            hash: codec::hex_encode(hash),
            location_id: self.local_location_id.clone(),
            fid: codec::hex_encode(fid),
            size,
        };
        self.fact_log.append(ts, fact);
        Ok(())
    }

    pub fn store_local_block(&mut self, hash: &[u8], fid: &[u8], size: i64) -> (r: Result<
        (),
        StoreError,
    >)
        ensures
            final(self).clock == old(self).clock,
            old(self)@.last_seq == i64::MAX ==> r == Err::<(), StoreError>(StoreError::LogFull)
                && final(self)@ == old(self)@,
            old(self)@.last_seq < i64::MAX ==> r is Ok && exists|t: SystemTime|
                final(self)@ == old(self)@.block_stored(
                    hash@,
                    fid@,
                    size,
                    #[trigger] old(self).clock.micros(t),
                ),
    {
        let ts: i64 = self.clock.now_micros();
        self.store_local_block_at(hash, fid, size, ts)
    }

    /// Records that a site holds a block whose size is not known here: any known size is
    /// kept, else it counts as 0.
    pub fn add_block_location_at(&mut self, hash: &[u8], location_id: &str, fid: &[u8], ts: i64)
        ensures
            final(self)@ == with_location(old(self)@, hash@, location_id@, fid@, ts),
            final(self).clock == old(self).clock,
    {
        let size: i64 = match self.blocks.get(&vstd::slice::slice_to_vec(hash)) {
            Some(row) => row.size,
            None => 0,
        };
        self.upsert_block_location(hash, location_id, fid, size, ts);
    }

    pub fn add_block_location(&mut self, hash: &[u8], location_id: &str, fid: &[u8])
        ensures
            exists|t: SystemTime|
                final(self)@ == with_location(
                    old(self)@,
                    hash@,
                    location_id@,
                    fid@,
                    #[trigger] old(self).clock.micros(t),
                ),
            final(self).clock == old(self).clock,
    {
        let ts: i64 = self.clock.now_micros();
        self.add_block_location_at(hash, location_id, fid, ts);
    }

    /// Hashes of blocks physically held at this site.
    pub fn list_local_block_hashes(&self) -> (r: Vec<Vec<u8>>)
        ensures
            seqs::views(r@) == held_at(self@.locations, self@.site),
            table::enumerates(table::ordered(self@.locations), self@.locations),
    {
        let n: usize = self.block_locations.len();
        let ghost s = table::ordered(self@.locations);
        let ghost p = at_site(self@.site);
        let ghost f = hash_of();
        let mut out: Vec<Vec<u8>> = Vec::new();
        let mut i: usize = 0;
        proof {
            seqs::lemma_pick_none(s, p, f);
            assert(seqs::views(out@) =~= seqs::pick(s.take(0), p, f));
        }
        while i < n
            invariant
                i <= n,
                n == s.len(),
                s == table::ordered(self@.locations),
                p == at_site(self@.site),
                f == hash_of(),
                seqs::views(out@) == seqs::pick(s.take(i as int), p, f),
            decreases n - i,
        {
            let k = self.block_locations.key_at(i);
            proof {
                seqs::lemma_pick_step(s, p, f, i as int);
            }
            if text::same_text(k.1.as_str(), self.local_location_id.as_str()) {
                let h = k.0.duplicate();
                proof {
                    seqs::lemma_views_push(out@, h);
                }
                out.push(h);
            }
            i += 1;
        }
        proof {
            seqs::lemma_pick_none(s, p, f);
        }
        out
    }

    /// Unconditionally removes this site's location entry for a block and, if no
    /// location entries remain anywhere, drops the block metadata row. The GC
    /// reaper is responsible for only calling this on a confirmed orphan.
    /// Returns true if a local entry was actually removed.
    pub fn delete_local_block(&mut self, hash: &[u8]) -> (r: bool)
        ensures
            r == old(self)@.locations.dom().contains((hash@, old(self)@.site)),
            final(self)@ == old(self)@.local_copy_dropped(hash@),
            final(self).clock == old(self).clock,
    {
        let k = (vstd::slice::slice_to_vec(hash), self.local_location_id.clone());
        let removed = self.block_locations.remove(&k);
        let remaining = self.get_block_fids(hash);
        proof {
            lemma_copies(self@.locations, hash@, Seq::empty(), Seq::empty());
        }
        if remaining.is_none() {
            self.blocks.remove(&vstd::slice::slice_to_vec(hash));
        }
        removed
    }

    /// Schedules the reaping of a block: not before `not_before_ms`.
    pub fn add_pending_deletion(&mut self, hash: &[u8], not_before_ms: i64)
        ensures
            final(self)@ == with_pending(old(self)@, hash@, Some(not_before_ms)),
            final(self).clock == old(self).clock,
    {
        self.pending_deletions.insert(vstd::slice::slice_to_vec(hash), not_before_ms);
    }

    /// The scheduled reapings, in hash order.
    pub fn get_pending_deletions(&self) -> (r: Vec<(Vec<u8>, i64)>)
        ensures
            seqs::views(r@) == table::ordered(self@.pending),
            table::enumerates(table::ordered(self@.pending), self@.pending),
    {
        let n: usize = self.pending_deletions.len();
        let ghost s = table::ordered(self@.pending);
        let mut out: Vec<(Vec<u8>, i64)> = Vec::new();
        let mut i: usize = 0;
        assert(seqs::views(out@) =~= s.take(0));
        while i < n
            invariant
                i <= n,
                n == s.len(),
                s == table::ordered(self@.pending),
                seqs::views(out@) == s.take(i as int),
            decreases n - i,
        {
            let item = (
                self.pending_deletions.key_at(i).duplicate(),
                *self.pending_deletions.value_at(i),
            );
            proof {
                seqs::lemma_views_push(out@, item);
                assert(s.take(i as int).push(item@) =~= s.take(i + 1));
            }
            out.push(item);
            i += 1;
        }
        assert(s.take(n as int) =~= s);
        out
    }

    /// Cancels the scheduled reaping of a block.
    pub fn remove_pending_deletion(&mut self, hash: &[u8])
        ensures
            final(self)@ == with_pending(old(self)@, hash@, None),
            final(self).clock == old(self).clock,
    {
        self.pending_deletions.remove(&vstd::slice::slice_to_vec(hash));
    }

    /// Total bytes of blocks held locally (sum of block sizes for this site's
    /// locations). Used by the disk guard to enforce the `max_bytes` quota.
    pub fn local_block_bytes(&self) -> (r: Result<i64, StoreError>)
        ensures
            r == bytes_held(self@),
    {
        let hashes = self.list_local_block_hashes();
        let ghost all = seqs::views(hashes@);
        let mut acc: i128 = 0;
        let mut i: usize = 0;
        assert(total_size(self@.blocks, all.take(0)) == 0);
        while i < hashes.len()
            invariant
                i <= hashes@.len(),
                all == seqs::views(hashes@),
                acc == total_size(self@.blocks, all.take(i as int)),
                -0x8000_0000_0000_0000 * i <= acc <= 0x8000_0000_0000_0000 * i,
            decreases hashes@.len() - i,
        {
            let size: i64 = match self.blocks.get(&hashes[i]) {
                Some(row) => row.size,
                None => 0,
            };
            proof {
                assert(all.take(i + 1).drop_last() =~= all.take(i as int));
                assert(all.take(i + 1).last() == hashes@[i as int]@);
            }
            acc = acc + size as i128;
            i += 1;
        }
        assert(all.take(all.len() as int) =~= all);
        if acc < -0x8000_0000_0000_0000 || acc > 0x7fff_ffff_ffff_ffff {
            Err(StoreError::SumOverflow)
        } else {
            Ok(acc as i64)
        }
    }
}

impl StoreView {
    /// After this site dropped its copy of a block: the block is forgotten where no site
    /// holds one.
    pub open spec fn local_copy_dropped(self, hash: Seq<u8>) -> StoreView {
        let locations = self.locations.remove((hash, self.site));
        StoreView {
            locations,
            blocks: if held_somewhere(locations, hash) {
                self.blocks
            } else {
                self.blocks.remove(hash)
            },
            ..self
        }
    }
}

// ── live set ─────────────────────────────────────────────────────────────────

/// Nothing but presence.
#[derive(Clone, Copy)]
pub struct Present;

impl View for Present {
    type V = ();

    open spec fn view(&self) -> () {
        ()
    }
}

/// A set of block hashes.
pub struct BlockSet {
    members: Table<Vec<u8>, Present>,
}

impl View for BlockSet {
    type V = Set<Seq<u8>>;

    closed spec fn view(&self) -> Set<Seq<u8>> {
        self.members@.dom()
    }
}

impl BlockSet {
    pub fn new() -> (r: BlockSet)
        ensures
            r@ == Set::<Seq<u8>>::empty(),
    {
        let r = BlockSet { members: Table::new() };
        assert(r@ =~= Set::<Seq<u8>>::empty());
        r
    }

    pub fn contains(&self, hash: &Vec<u8>) -> (r: bool)
        ensures
            r == self@.contains(hash@),
    {
        self.members.contains(hash)
    }

    pub fn len(&self) -> (r: usize)
        ensures
            r == self@.len(),
            self@.finite(),
    {
        self.members.len()
    }

    pub fn is_empty(&self) -> (r: bool)
        ensures
            r == (self@ == Set::<Seq<u8>>::empty()),
    {
        let n: usize = self.members.len();
        proof {
            if n == 0 {
                self@.lemma_len0_is_empty();
            }
        }
        n == 0
    }

    /// Adds all of `hashes`.
    fn add_all(&mut self, hashes: &Vec<Vec<u8>>)
        ensures
            forall|h: Seq<u8>| #[trigger]
                final(self)@.contains(h) == (old(self)@.contains(h) || seqs::views(
                    hashes@,
                ).contains(h)),
    {
        let ghost before = self@;
        let ghost all = seqs::views(hashes@);
        let mut i: usize = 0;
        while i < hashes.len()
            invariant
                i <= hashes@.len(),
                all == seqs::views(hashes@),
                forall|h: Seq<u8>| #[trigger]
                    self@.contains(h) == (before.contains(h) || all.take(i as int).contains(h)),
            decreases hashes@.len() - i,
        {
            let ghost prev = self@;
            self.members.insert(hashes[i].duplicate(), Present);
            proof {
                assert(self@ =~= prev.insert(all[i as int]));
                let a = all.take(i as int);
                let b = all.take(i + 1);
                assert(b =~= a.push(all[i as int]));
                assert forall|h: Seq<u8>| b.contains(h) == (a.contains(h) || h == all[i as int]) by {
                    if b.contains(h) {
                        let j = choose|j: int| 0 <= j < b.len() && b[j] == h;
                        if j < i {
                            assert(a[j] == h);
                        }
                    }
                    if a.contains(h) {
                        let j = choose|j: int| 0 <= j < a.len() && a[j] == h;
                        assert(b[j] == h);
                    }
                    assert(b[i as int] == all[i as int]);
                }
            }
            i += 1;
        }
        assert(all.take(all.len() as int) =~= all);
    }
}

/// A live manifest among `objects` names `h`.
pub open spec fn named_by_object(
    objects: Map<(Seq<char>, Seq<char>), ObjectView>,
    h: Seq<u8>,
) -> bool {
    exists|k: (Seq<char>, Seq<char>)| #[trigger]
        store::live(objects, k) && store::decoded(objects[k].blocks).contains(h)
}

/// A part of an upload in progress names `h`.
pub open spec fn named_by_part(
    parts: Map<((Seq<char>, Seq<char>), i32), PartView>,
    h: Seq<u8>,
) -> bool {
    exists|k: ((Seq<char>, Seq<char>), i32)| #[trigger]
        parts.dom().contains(k) && store::decoded(parts[k].blocks).contains(h)
}

impl StoreView {
    /// A block is referenced where a live manifest or a part of an upload in progress names
    /// it.
    pub open spec fn referenced(self, h: Seq<u8>) -> bool {
        named_by_object(self.objects, h) || named_by_part(self.parts, h)
    }
}

impl Store {
    /// The set of block hashes referenced by any live manifest: non-tombstoned
    /// objects plus all in-progress multipart parts. Recomputed each sweep.
    pub fn compute_live_block_set(&self) -> (r: BlockSet)
        ensures
            forall|h: Seq<u8>| #[trigger] r@.contains(h) == self@.referenced(h),
    {
        let mut live = BlockSet::new();
        let n: usize = self.objects.len();
        let ghost objects = self@.objects;
        let ghost s = table::ordered(objects);
        let mut i: usize = 0;
        while i < n
            invariant
                i <= n,
                n == s.len(),
                objects == self@.objects,
                s == table::ordered(objects),
                table::enumerates(s, objects),
                forall|h: Seq<u8>| #[trigger]
                    live@.contains(h) ==> named_by_object(objects, h),
                forall|j: int, h: Seq<u8>|
                    0 <= j < i && !(#[trigger] s[j]).1.deleted && store::decoded(
                        s[j].1.blocks,
                    ).contains(h) ==> #[trigger] live@.contains(h),
            decreases n - i,
        {
            let row = self.objects.value_at(i);
            if !row.deleted {
                let hashes = store::decode_blocks(row.blocks.as_slice());
                assert(store::live(objects, s[i as int].0));
                live.add_all(&hashes);
            }
            i += 1;
        }
        proof {
            assert forall|h: Seq<u8>| #[trigger] live@.contains(h) == named_by_object(
                objects,
                h,
            ) by {
                if named_by_object(objects, h) {
                    let k = choose|k: (Seq<char>, Seq<char>)| #[trigger]
                        store::live(objects, k) && store::decoded(objects[k].blocks).contains(h);
                    let j = choose|j: int| 0 <= j < s.len() && (#[trigger] s[j]).0 == k;
                    assert(!s[j].1.deleted);
                }
            }
        }
        let m: usize = self.parts.len();
        let ghost parts = self@.parts;
        let ghost t = table::ordered(parts);
        let mut x: usize = 0;
        while x < m
            invariant
                x <= m,
                m == t.len(),
                parts == self@.parts,
                objects == self@.objects,
                t == table::ordered(parts),
                table::enumerates(t, parts),
                forall|h: Seq<u8>| #[trigger]
                    live@.contains(h) ==> named_by_object(objects, h) || named_by_part(parts, h),
                forall|h: Seq<u8>| named_by_object(objects, h) ==> #[trigger] live@.contains(h),
                forall|j: int, h: Seq<u8>|
                    0 <= j < x && store::decoded((#[trigger] t[j]).1.blocks).contains(h)
                        ==> #[trigger] live@.contains(h),
            decreases m - x,
        {
            let row = self.parts.value_at(x);
            let hashes = store::decode_blocks(row.blocks.as_slice());
            assert(parts.dom().contains(t[x as int].0));
            live.add_all(&hashes);
            x += 1;
        }
        proof {
            assert forall|h: Seq<u8>| #[trigger] live@.contains(h) == self@.referenced(h) by {
                if named_by_part(parts, h) {
                    let k = choose|k: ((Seq<char>, Seq<char>), i32)| #[trigger]
                        parts.dom().contains(k) && store::decoded(parts[k].blocks).contains(h);
                    let j = choose|j: int| 0 <= j < t.len() && (#[trigger] t[j]).0 == k;
                    assert(store::decoded(t[j].1.blocks).contains(h));
                }
            }
        }
        live
    }
}

} // verus!
