//! Getting blocks from the sites that hold them, step by step.
//!
//! A step takes in what came of the last request and says what to do next. The requests
//! themselves are made outside.

use std::time::SystemTime;

use vstd::prelude::*;

use crate::blockmeta;
use crate::codec;
use crate::db::{EntryView, ReplicationEntry};
use crate::drain;
use crate::drain::{BlockSource, PlanView};
use crate::replication;
use crate::replication::REPLICATION_BACKOFF_CAP_MS;
use crate::seqs;
use crate::store::{Store, StoreView};

verus! {

// ── one block ────────────────────────────────────────────────────────────────

/// What came of the last thing to do.
#[derive(Clone, Copy, PartialEq, Eq, Structural, Debug)]
pub enum FetchEvent {
    /// The source did not deliver the block.
    Missed,
    /// The source delivered the block.
    Arrived,
    /// The block was stored here, or storing it failed.
    Stored(bool),
}

/// How far the fetch of a block has come.
#[derive(Clone, Copy, PartialEq, Eq, Structural, Debug)]
pub enum Phase {
    /// The source with this number is asked.
    Asking(usize),
    /// The block has come, and is being stored.
    Storing,
    /// The block has come and was stored.
    Kept,
    /// The block has come and was not stored.
    NotKept,
    /// No source delivered the block.
    Missing,
}

/// The start of a fetch from a number of sources.
pub open spec fn started(sources: nat) -> Phase {
    if sources > 0 {
        Phase::Asking(0)
    } else {
        Phase::Missing
    }
}

/// The sources are asked in turn, until one delivers the block; then it is stored, once. What
/// does not fit the phase changes nothing.
pub open spec fn advanced(phase: Phase, sources: nat, event: FetchEvent) -> Phase {
    match (phase, event) {
        (Phase::Asking(i), FetchEvent::Missed) => if i + 1 < sources {
            Phase::Asking((i + 1) as usize)
        } else {
            Phase::Missing
        },
        (Phase::Asking(_), FetchEvent::Arrived) => Phase::Storing,
        (Phase::Storing, FetchEvent::Stored(stored)) => if stored {
            Phase::Kept
        } else {
            Phase::NotKept
        },
        _ => phase,
    }
}

/// There is something left to do about the block.
pub open spec fn running(phase: Phase, sources: nat) -> bool {
    match phase {
        Phase::Asking(i) => i < sources,
        Phase::Storing => true,
        _ => false,
    }
}

/// The first phase of a fetch.
pub fn start_phase(sources: usize) -> (r: Phase)
    ensures
        r == started(sources as nat),
{
    if sources > 0 {
        Phase::Asking(0)
    } else {
        Phase::Missing
    }
}

/// The next phase of a fetch.
pub fn next_phase(phase: Phase, sources: usize, event: FetchEvent) -> (r: Phase)
    ensures
        r == advanced(phase, sources as nat, event),
{
    match (phase, event) {
        (Phase::Asking(i), FetchEvent::Missed) => if i < sources && i + 1 < sources {
            Phase::Asking(i + 1)
        } else {
            Phase::Missing
        },
        (Phase::Asking(_), FetchEvent::Arrived) => Phase::Storing,
        (Phase::Storing, FetchEvent::Stored(stored)) => if stored {
            Phase::Kept
        } else {
            Phase::NotKept
        },
        _ => phase,
    }
}

/// The phase of a fetch whose first `n` sources did not deliver.
pub open spec fn after_misses(sources: nat, n: nat) -> Phase
    decreases n,
{
    if n == 0 {
        started(sources)
    } else {
        advanced(after_misses(sources, (n - 1) as nat), sources, FetchEvent::Missed)
    }
}

/// Every source is asked, in order, before a fetch is given up.
pub proof fn lemma_every_source_is_asked(sources: nat, n: nat)
    requires
        sources <= usize::MAX,
    ensures
        after_misses(sources, n) == (if n < sources {
            Phase::Asking(n as usize)
        } else {
            Phase::Missing
        }),
    decreases n,
{
    if n > 0 {
        lemma_every_source_is_asked(sources, (n - 1) as nat);
    }
}

// ── reading a block ──────────────────────────────────────────────────────────

/// What to do next for a read.
pub enum ReadAction {
    /// Read the local copy under this fid: the read is over.
    ReadLocal(Vec<u8>),
    /// Ask this peer, by id and URL.
    Ask(String, String),
    /// Store the block that came.
    Keep,
    /// Hand out the block that came: the read is over.
    HandOut,
    /// Report this: the read is over.
    Fail(String),
}

/// The contents of an action.
pub enum ReadActionView {
    ReadLocal(Seq<u8>),
    Ask(Seq<char>, Seq<char>),
    Keep,
    HandOut,
    Fail(Seq<char>),
}

impl View for ReadAction {
    type V = ReadActionView;

    open spec fn view(&self) -> ReadActionView {
        match self {
            ReadAction::ReadLocal(fid) => ReadActionView::ReadLocal(fid@),
            ReadAction::Ask(id, url) => ReadActionView::Ask(id@, url@),
            ReadAction::Keep => ReadActionView::Keep,
            ReadAction::HandOut => ReadActionView::HandOut,
            ReadAction::Fail(t) => ReadActionView::Fail(t@),
        }
    }
}

/// A read in progress.
pub struct BlockRead {
    pub hash: Vec<u8>,
    /// The sites that hold a copy.
    pub holders: Vec<String>,
    /// The peers to ask.
    pub sources: Vec<(String, String)>,
    pub phase: Phase,
}

/// The sites that hold a copy of a block, in order.
pub open spec fn holders_of(s: StoreView, hash: Seq<u8>) -> Seq<Seq<char>> {
    blockmeta::copies(s.locations, hash).map_values(|c: (Seq<char>, Seq<u8>)| c.0)
}

/// The peers that hold a copy of a block.
pub open spec fn sources_of(s: StoreView, hash: Seq<u8>) -> Seq<(Seq<char>, Seq<char>)> {
    replication::peers_of(s.nodes, s.site).filter(
        drain::holder(blockmeta::copies(s.locations, hash)),
    )
}

/// What a phase of a read asks for.
pub open spec fn read_action(
    phase: Phase,
    sources: Seq<(Seq<char>, Seq<char>)>,
    hash: Seq<u8>,
) -> ReadActionView {
    match phase {
        Phase::Asking(i) => ReadActionView::Ask(sources[i as int].0, sources[i as int].1),
        Phase::Storing => ReadActionView::Keep,
        Phase::Kept | Phase::NotKept => ReadActionView::HandOut,
        Phase::Missing => ReadActionView::Fail(
            "Block "@ + codec::hex_text(hash) + " missing at all reachable locations"@,
        ),
    }
}

/// Why a read got no block.
#[derive(Clone, Copy, PartialEq, Eq, Structural, Debug)]
pub enum Unavailable {
    /// No site holds the block.
    Unknown,
    /// Every site that holds the block is down: a block that was just written and never
    /// replicated may be lost.
    HoldersDown,
    /// A site that holds the block is there, but no fetch succeeded.
    FetchFailed,
}

/// A read of a block begins with `read`, and with this to do.
pub open spec fn read_begun(
    s: StoreView,
    hash: Seq<u8>,
    read: BlockRead,
    action: ReadActionView,
) -> bool {
    let k = (hash, s.site);
    &&& read.hash@ == hash
    &&& seqs::views(read.holders@) == holders_of(s, hash)
    &&& if s.locations.dom().contains(k) {
        &&& read.sources@.len() == 0
        &&& read.phase is Missing
        &&& action == ReadActionView::ReadLocal(s.locations[k].fid)
    } else if blockmeta::copies(s.locations, hash).len() == 0 {
        &&& read.sources@.len() == 0
        &&& read.phase is Missing
        &&& action == ReadActionView::Fail(
            "Block "@ + codec::hex_text(hash) + " not found in cluster"@,
        )
    } else {
        let sources = sources_of(s, hash);
        &&& seqs::views(read.sources@) == sources
        &&& read.phase == started(sources.len())
        &&& action == read_action(read.phase, sources, hash)
    }
}

/// A block that was fetched but could not be kept is queued for this site again.
pub open spec fn kept_or_queued(
    s: StoreView,
    phase: Phase,
    event: FetchEvent,
    hash: Seq<u8>,
    now_ms: i64,
) -> StoreView {
    if phase is Storing && event == FetchEvent::Stored(false) {
        s.with_pulls(seq![s.site], hash, now_ms)
    } else {
        s
    }
}

/// Why a read got no block that `holders` sites hold, `sources` of them known peers.
pub open spec fn unavailable(holders: nat, sources: nat) -> Unavailable {
    if holders == 0 {
        Unavailable::Unknown
    } else if sources == 0 {
        Unavailable::HoldersDown
    } else {
        Unavailable::FetchFailed
    }
}

impl BlockRead {
    pub open spec fn wf(self) -> bool {
        self.phase matches Phase::Asking(i) ==> i < self.sources@.len()
    }

    /// Tells a block whose holders are all down, which may be lost, from one whose holders are
    /// there while every fetch failed, which is transient.
    pub fn why_unavailable(&self) -> (r: Unavailable)
        ensures
            r == unavailable(self.holders@.len(), self.sources@.len()),
    {
        if self.holders.len() == 0 {
            Unavailable::Unknown
        } else if self.sources.len() == 0 {
            Unavailable::HoldersDown
        } else {
            Unavailable::FetchFailed
        }
    }

    fn action(&self) -> (r: ReadAction)
        requires
            self.wf(),
        ensures
            r@ == read_action(self.phase, seqs::views(self.sources@), self.hash@),
    {
        match self.phase {
            Phase::Asking(i) => {
                assert(seqs::views(self.sources@)[i as int] == self.sources@[i as int]@);
                ReadAction::Ask(self.sources[i].0.clone(), self.sources[i].1.clone())
            },
            Phase::Storing => ReadAction::Keep,
            Phase::Kept => ReadAction::HandOut,
            Phase::NotKept => ReadAction::HandOut,
            Phase::Missing => ReadAction::Fail(drain::not_reachable(self.hash.as_slice())),
        }
    }
}

impl Store {
    /// The sites that hold a copy of a block.
    pub fn block_holders(&self, hash: &[u8]) -> (r: Vec<String>)
        ensures
            seqs::views(r@) == holders_of(self@, hash@),
    {
        let ghost all = holders_of(self@, hash@);
        let copies: Vec<(String, Vec<u8>)> = match self.get_block_fids(hash) {
            Some(copies) => copies,
            None => Vec::new(),
        };
        let mut out: Vec<String> = Vec::new();
        let mut i: usize = 0;
        proof {
            assert(seqs::views(copies@) =~= blockmeta::copies(self@.locations, hash@));
            assert(seqs::views(out@) =~= all.take(0));
        }
        while i < copies.len()
            invariant
                i <= copies@.len(),
                all == seqs::views(copies@).map_values(|c: (Seq<char>, Seq<u8>)| c.0),
                seqs::views(out@) == all.take(i as int),
            decreases copies@.len() - i,
        {
            let site = copies[i].0.clone();
            proof {
                assert(seqs::views(copies@)[i as int] == copies@[i as int]@);
                seqs::lemma_views_push(out@, site);
                assert(all.take(i + 1) =~= all.take(i as int).push(site@));
            }
            out.push(site);
            i += 1;
        }
        assert(all.take(all.len() as int) =~= all);
        out
    }

    /// Starts to read a block: the local copy is read where there is one; else the peers that
    /// hold a copy are asked in turn.
    pub fn begin_read(&self, hash: &[u8]) -> (r: (BlockRead, ReadAction))
        ensures
            r.0.wf(),
            read_begun(self@, hash@, r.0, r.1@),
    {
        let holders = self.block_holders(hash);
        match self.locate_block(hash) {
            BlockSource::Local(fid) => {
                let over = BlockRead {
                    hash: vstd::slice::slice_to_vec(hash),
                    holders,
                    sources: Vec::new(),
                    phase: Phase::Missing,
                };
                (over, ReadAction::ReadLocal(fid))
            },
            BlockSource::Unknown => {
                let over = BlockRead {
                    hash: vstd::slice::slice_to_vec(hash),
                    holders,
                    sources: Vec::new(),
                    phase: Phase::Missing,
                };
                (over, ReadAction::Fail(drain::not_in_cluster(hash)))
            },
            BlockSource::Remote(sources) => {
                let phase = start_phase(sources.len());
                let read = BlockRead {
                    hash: vstd::slice::slice_to_vec(hash),
                    holders,
                    sources,
                    phase,
                };
                let action = read.action();
                (read, action)
            },
        }
    }

    /// Goes on with a read. A block that came and could not be stored is handed out all the
    /// same, and is left to the replication drainer, so that it does not stay remote-only.
    pub fn read_step_at(&mut self, read: &mut BlockRead, event: FetchEvent, now_ms: i64) -> (r:
        ReadAction)
        requires
            old(read).wf(),
        ensures
            final(read).wf(),
            final(read).hash == old(read).hash,
            final(read).holders == old(read).holders,
            final(read).sources == old(read).sources,
            final(read).phase == advanced(old(read).phase, old(read).sources@.len(), event),
            r@ == read_action(
                final(read).phase,
                seqs::views(old(read).sources@),
                old(read).hash@,
            ),
            final(self)@ == kept_or_queued(
                old(self)@,
                old(read).phase,
                event,
                old(read).hash@,
                now_ms,
            ),
            final(self).clock == old(self).clock,
    {
        let was = read.phase;
        read.phase = next_phase(was, read.sources.len(), event);
        if was == Phase::Storing && read.phase == Phase::NotKept {
            let mut here: Vec<String> = Vec::new();
            here.push(self.local_location_id.clone());
            assert(seqs::views(here@) =~= seq![self@.site]);
            self.enqueue_replication_at(read.hash.as_slice(), &here, now_ms);
        }
        read.action()
    }

    /// Goes on with a read, at the time of the cluster clock.
    pub fn read_step(&mut self, read: &mut BlockRead, event: FetchEvent) -> (r: ReadAction)
        requires
            old(read).wf(),
        ensures
            final(read).wf(),
            final(read).hash == old(read).hash,
            final(read).holders == old(read).holders,
            final(read).sources == old(read).sources,
            final(read).phase == advanced(old(read).phase, old(read).sources@.len(), event),
            r@ == read_action(
                final(read).phase,
                seqs::views(old(read).sources@),
                old(read).hash@,
            ),
            exists|t: SystemTime|
                final(self)@ == kept_or_queued(
                    old(self)@,
                    old(read).phase,
                    event,
                    old(read).hash@,
                    #[trigger] old(self).clock.millis(t),
                ),
            final(self).clock == old(self).clock,
    {
        let now: i64 = self.clock.now_millis();
        self.read_step_at(read, event, now)
    }
}

/// A read that fails of a block that some site holds says that all its holders are down exactly
/// where no known peer holds a copy.
pub proof fn lemma_holders_down(s: StoreView, hash: Seq<u8>)
    requires
        holders_of(s, hash).len() > 0,
    ensures
        unavailable(holders_of(s, hash).len(), sources_of(s, hash).len()) == (if (forall|i: int|
            0 <= i < replication::peers_of(s.nodes, s.site).len() ==> !drain::listed_at(
                blockmeta::copies(s.locations, hash),
                (#[trigger] replication::peers_of(s.nodes, s.site)[i]).0,
            )) {
            Unavailable::HoldersDown
        } else {
            Unavailable::FetchFailed
        }),
{
    let peers = replication::peers_of(s.nodes, s.site);
    let copies = blockmeta::copies(s.locations, hash);
    let p = drain::holder(copies);
    if sources_of(s, hash).len() > 0 {
        let first = peers.filter(p)[0];
        assert(peers.filter(p).contains(first));
        seqs::lemma_filter_members(peers, p, first);
    } else {
        assert forall|i: int| 0 <= i < peers.len() implies !drain::listed_at(
            copies,
            (#[trigger] peers[i]).0,
        ) by {
            seqs::lemma_filter_members(peers, p, peers[i]);
        }
    }
}

// ── draining the queue ───────────────────────────────────────────────────────

/// What to do next for a drain.
pub enum DrainAction {
    /// Ask this peer, by id and URL, for this block.
    Ask(Vec<u8>, String, String),
    /// Store this block, which came.
    Keep(Vec<u8>),
    /// Nothing: the drain is over.
    Done,
}

/// The contents of an action.
pub enum DrainActionView {
    Ask(Seq<u8>, Seq<char>, Seq<char>),
    Keep(Seq<u8>),
    Done,
}

impl View for DrainAction {
    type V = DrainActionView;

    open spec fn view(&self) -> DrainActionView {
        match self {
            DrainAction::Ask(hash, id, url) => DrainActionView::Ask(hash@, id@, url@),
            DrainAction::Keep(hash) => DrainActionView::Keep(hash@),
            DrainAction::Done => DrainActionView::Done,
        }
    }
}

/// A drain in progress.
pub struct Drain {
    pub entries: Vec<ReplicationEntry>,
    pub peers: Vec<(String, String)>,
    /// The entry that is worked on.
    pub at: usize,
    pub sources: Vec<(String, String)>,
    pub phase: Phase,
}

/// The contents of a drain.
#[verifier::ext_equal]
pub struct DrainView {
    pub entries: Seq<EntryView>,
    pub peers: Seq<(Seq<char>, Seq<char>)>,
    pub at: nat,
    pub sources: Seq<(Seq<char>, Seq<char>)>,
    pub phase: Phase,
}

impl View for Drain {
    type V = DrainView;

    open spec fn view(&self) -> DrainView {
        DrainView {
            entries: seqs::views(self.entries@),
            peers: seqs::views(self.peers@),
            at: self.at as nat,
            sources: seqs::views(self.sources@),
            phase: self.phase,
        }
    }
}

impl DrainView {
    /// A drain is over, or its entry has something left to do.
    pub open spec fn wf(self) -> bool {
        self.at <= self.entries.len() && (self.at < self.entries.len() ==> running(
            self.phase,
            self.sources.len(),
        ))
    }

    /// The entry that is worked on.
    pub open spec fn entry(self) -> EntryView {
        self.entries[self.at as int]
    }

    /// What to do next.
    pub open spec fn action(self) -> DrainActionView {
        if self.at >= self.entries.len() {
            DrainActionView::Done
        } else {
            match self.phase {
                Phase::Asking(i) => DrainActionView::Ask(
                    self.entry().hash,
                    self.sources[i as int].0,
                    self.sources[i as int].1,
                ),
                _ => DrainActionView::Keep(self.entry().hash),
            }
        }
    }
}

/// The store with an entry rescheduled.
pub open spec fn deferred(s: StoreView, entry: EntryView, now_ms: i64) -> StoreView {
    s.with_deferral(entry.hash, entry.attempts, now_ms)
}

/// Settles the entries from `at` on that need no fetch, up to the first that does.
pub open spec fn settled_from(s: StoreView, d: DrainView, at: nat, now_ms: i64) -> (
    StoreView,
    DrainView,
)
    decreases d.entries.len() - at,
{
    if at >= d.entries.len() {
        (
            s,
            DrainView { at: d.entries.len(), sources: Seq::empty(), phase: Phase::Missing, ..d },
        )
    } else {
        let entry = d.entries[at as int];
        match drain::plan_for(s, entry.hash, d.peers) {
            PlanView::Drop => settled_from(drain::dequeued(s, entry.hash), d, at + 1, now_ms),
            PlanView::Defer => settled_from(deferred(s, entry, now_ms), d, at + 1, now_ms),
            PlanView::FetchFrom(c) => (
                s,
                DrainView { at, sources: c, phase: Phase::Asking(0), ..d },
            ),
        }
    }
}

/// One step of a drain. An entry leaves the queue where its block was stored here, and is
/// rescheduled where no source delivered it or storing it failed; then the next entries are
/// taken up.
pub open spec fn drained(s: StoreView, d: DrainView, event: FetchEvent, now_ms: i64) -> (
    StoreView,
    DrainView,
) {
    if d.at >= d.entries.len() {
        (s, d)
    } else {
        let phase = advanced(d.phase, d.sources.len(), event);
        match phase {
            Phase::Asking(_) | Phase::Storing => (s, DrainView { phase, ..d }),
            Phase::Kept => settled_from(
                drain::dequeued(s, d.entry().hash),
                d,
                d.at + 1,
                now_ms,
            ),
            Phase::NotKept | Phase::Missing => settled_from(
                deferred(s, d.entry(), now_ms),
                d,
                d.at + 1,
                now_ms,
            ),
        }
    }
}

impl Drain {
    fn action(&self) -> (r: DrainAction)
        requires
            self@.wf(),
        ensures
            r@ == self@.action(),
    {
        if self.at >= self.entries.len() {
            return DrainAction::Done;
        }
        let hash = vstd::slice::slice_to_vec(self.entries[self.at].hash.as_slice());
        assert(self@.entry() == self.entries@[self.at as int]@);
        match self.phase {
            Phase::Asking(i) => {
                assert(self@.sources[i as int] == self.sources@[i as int]@);
                DrainAction::Ask(hash, self.sources[i].0.clone(), self.sources[i].1.clone())
            },
            _ => DrainAction::Keep(hash),
        }
    }
}

impl Store {
    /// Takes up the entries of a drain from `drain.at` on.
    fn take_up_at(&mut self, drain: &mut Drain, now_ms: i64) -> (r: DrainAction)
        requires
            old(drain).at <= old(drain).entries@.len(),
            now_ms <= i64::MAX - REPLICATION_BACKOFF_CAP_MS,
        ensures
            (final(self)@, final(drain)@) == settled_from(
                old(self)@,
                old(drain)@,
                old(drain)@.at,
                now_ms,
            ),
            final(drain)@.wf(),
            r@ == final(drain)@.action(),
            final(self).clock == old(self).clock,
    {
        let ghost d = drain@;
        let ghost goal = settled_from(self@, d, d.at, now_ms);
        while drain.at < drain.entries.len()
            invariant
                drain.at <= drain.entries@.len(),
                now_ms <= i64::MAX - REPLICATION_BACKOFF_CAP_MS,
                d == old(drain)@,
                drain@ == (DrainView { at: drain@.at, ..d }),
                goal == settled_from(self@, d, drain@.at, now_ms),
                goal == settled_from(old(self)@, d, d.at, now_ms),
                self.clock == old(self).clock,
            decreases drain.entries@.len() - drain.at,
        {
            let at: usize = drain.at;
            assert(d.entries[at as int] == drain.entries@[at as int]@);
            match self.start_entry_at(&drain.entries[at], &drain.peers, now_ms) {
                Some(sources) => {
                    drain.sources = sources;
                    drain.phase = Phase::Asking(0);
                    return drain.action();
                },
                None => {
                    drain.at = at + 1;
                },
            }
        }
        drain.sources = Vec::new();
        drain.phase = Phase::Missing;
        assert(drain@.sources =~= Seq::empty());
        drain.action()
    }

    /// Starts to work on the entries of a drain.
    pub fn begin_drain_at(
        &mut self,
        entries: Vec<ReplicationEntry>,
        peers: Vec<(String, String)>,
        now_ms: i64,
    ) -> (r: (Drain, DrainAction))
        requires
            now_ms <= i64::MAX - REPLICATION_BACKOFF_CAP_MS,
        ensures
            (final(self)@, r.0@) == settled_from(
                old(self)@,
                (DrainView {
                    entries: seqs::views(entries@),
                    peers: seqs::views(peers@),
                    at: 0,
                    sources: Seq::empty(),
                    phase: Phase::Missing,
                }),
                0,
                now_ms,
            ),
            r.0@.wf(),
            r.1@ == r.0@.action(),
            final(self).clock == old(self).clock,
    {
        let mut drain = Drain { entries, peers, at: 0, sources: Vec::new(), phase: Phase::Missing };
        assert(drain@.sources =~= Seq::empty());
        let action = self.take_up_at(&mut drain, now_ms);
        (drain, action)
    }

    /// Goes on with a drain.
    pub fn drain_step_at(&mut self, drain: &mut Drain, event: FetchEvent, now_ms: i64) -> (r:
        DrainAction)
        requires
            old(drain)@.wf(),
            now_ms <= i64::MAX - REPLICATION_BACKOFF_CAP_MS,
        ensures
            (final(self)@, final(drain)@) == drained(old(self)@, old(drain)@, event, now_ms),
            final(drain)@.wf(),
            r@ == final(drain)@.action(),
            final(self).clock == old(self).clock,
    {
        if drain.at >= drain.entries.len() {
            return DrainAction::Done;
        }
        let ghost d = drain@;
        let at: usize = drain.at;
        assert(d.entry() == drain.entries@[at as int]@);
        let phase = next_phase(drain.phase, drain.sources.len(), event);
        match phase {
            Phase::Kept => {
                self.settle_entry_at(&drain.entries[at], true, now_ms);
            },
            Phase::NotKept => {
                self.settle_entry_at(&drain.entries[at], false, now_ms);
            },
            Phase::Missing => {
                self.settle_entry_at(&drain.entries[at], false, now_ms);
            },
            _ => {
                drain.phase = phase;
                return drain.action();
            },
        }
        drain.at = at + 1;
        proof {
            lemma_settled_ignores_position(self@, d, drain@, d.at + 1, now_ms);
        }
        self.take_up_at(drain, now_ms)
    }

    /// Starts to work on the entries of a drain, at the time of the cluster clock.
    pub fn begin_drain(
        &mut self,
        entries: Vec<ReplicationEntry>,
        peers: Vec<(String, String)>,
    ) -> (r: (Drain, DrainAction))
        ensures
            exists|t: SystemTime|
                (final(self)@, r.0@) == settled_from(
                    old(self)@,
                    (DrainView {
                        entries: seqs::views(entries@),
                        peers: seqs::views(peers@),
                        at: 0,
                        sources: Seq::empty(),
                        phase: Phase::Missing,
                    }),
                    0,
                    #[trigger] old(self).clock.millis(t),
                ),
            r.0@.wf(),
            r.1@ == r.0@.action(),
            final(self).clock == old(self).clock,
    {
        let now: i64 = self.clock.now_millis();
        self.begin_drain_at(entries, peers, now)
    }

    /// Goes on with a drain, at the time of the cluster clock.
    pub fn drain_step(&mut self, drain: &mut Drain, event: FetchEvent) -> (r: DrainAction)
        requires
            old(drain)@.wf(),
        ensures
            exists|t: SystemTime|
                (final(self)@, final(drain)@) == drained(
                    old(self)@,
                    old(drain)@,
                    event,
                    #[trigger] old(self).clock.millis(t),
                ),
            final(drain)@.wf(),
            r@ == final(drain)@.action(),
            final(self).clock == old(self).clock,
    {
        let now: i64 = self.clock.now_millis();
        self.drain_step_at(drain, event, now)
    }
}

/// Where a drain stands does not matter to the entries that it takes up.
proof fn lemma_settled_ignores_position(
    s: StoreView,
    d: DrainView,
    e: DrainView,
    at: nat,
    now_ms: i64,
)
    requires
        d.entries == e.entries,
        d.peers == e.peers,
    ensures
        settled_from(s, d, at, now_ms) == settled_from(s, e, at, now_ms),
    decreases d.entries.len() - at,
{
    if at < d.entries.len() {
        let entry = d.entries[at as int];
        match drain::plan_for(s, entry.hash, d.peers) {
            PlanView::Drop => lemma_settled_ignores_position(
                drain::dequeued(s, entry.hash),
                d,
                e,
                at + 1,
                now_ms,
            ),
            PlanView::Defer => lemma_settled_ignores_position(
                deferred(s, entry, now_ms),
                d,
                e,
                at + 1,
                now_ms,
            ),
            PlanView::FetchFrom(_) => {},
        }
    }
}

/// A block is outstanding: another site holds a copy, and this site has none.
pub open spec fn outstanding(s: StoreView, hash: Seq<u8>, site: Seq<char>) -> bool {
    &&& crate::table::enumerates(crate::table::ordered(s.locations), s.locations)
    &&& s.locations.dom().contains((hash, site))
    &&& !s.locations.dom().contains((hash, s.site))
}

/// Taking up entries keeps every outstanding block in the queue.
proof fn lemma_settled_keeps_outstanding(
    s: StoreView,
    d: DrainView,
    at: nat,
    now_ms: i64,
    hash: Seq<u8>,
    site: Seq<char>,
)
    requires
        outstanding(s, hash, site),
        s.queue.dom().contains((s.site, hash)),
    ensures
        settled_from(s, d, at, now_ms).0.queue.dom().contains((s.site, hash)),
        settled_from(s, d, at, now_ms).0.locations == s.locations,
        settled_from(s, d, at, now_ms).0.site == s.site,
    decreases d.entries.len() - at,
{
    if at < d.entries.len() {
        let entry = d.entries[at as int];
        match drain::plan_for(s, entry.hash, d.peers) {
            PlanView::Drop => {
                if entry.hash == hash {
                    drain::lemma_outstanding_entry_kept(s, hash, site, d.peers);
                }
                lemma_settled_keeps_outstanding(
                    drain::dequeued(s, entry.hash),
                    d,
                    at + 1,
                    now_ms,
                    hash,
                    site,
                );
            },
            PlanView::Defer => {
                lemma_settled_keeps_outstanding(
                    deferred(s, entry, now_ms),
                    d,
                    at + 1,
                    now_ms,
                    hash,
                    site,
                );
            },
            PlanView::FetchFrom(_) => {},
        }
    }
}

/// No step of a drain gives up on an outstanding block: it stays in the queue, however often
/// its sources fail, until the step that learns that the block was stored here.
pub proof fn lemma_drain_keeps_outstanding(
    s: StoreView,
    d: DrainView,
    event: FetchEvent,
    now_ms: i64,
    hash: Seq<u8>,
    site: Seq<char>,
)
    requires
        outstanding(s, hash, site),
        s.queue.dom().contains((s.site, hash)),
        d.wf(),
        !(d.entry().hash == hash && d.phase is Storing && event == FetchEvent::Stored(true)),
    ensures
        drained(s, d, event, now_ms).0.queue.dom().contains((s.site, hash)),
{
    if d.at < d.entries.len() {
        match advanced(d.phase, d.sources.len(), event) {
            Phase::Kept => lemma_settled_keeps_outstanding(
                drain::dequeued(s, d.entry().hash),
                d,
                d.at + 1,
                now_ms,
                hash,
                site,
            ),
            Phase::NotKept | Phase::Missing => lemma_settled_keeps_outstanding(
                deferred(s, d.entry(), now_ms),
                d,
                d.at + 1,
                now_ms,
                hash,
                site,
            ),
            _ => {},
        }
    }
}

/// How many answers a fetch can still take.
pub open spec fn left(phase: Phase, sources: nat) -> int {
    match phase {
        Phase::Asking(i) => sources - i + 1,
        Phase::Storing => 1,
        _ => 0,
    }
}

/// The event is an answer to what the phase asked for.
pub open spec fn answers(phase: Phase, event: FetchEvent) -> bool {
    match phase {
        Phase::Asking(_) => !(event is Stored),
        Phase::Storing => event is Stored,
        _ => false,
    }
}

proof fn lemma_settled_position(s: StoreView, d: DrainView, at: nat, now_ms: i64)
    requires
        at <= d.entries.len(),
    ensures
        settled_from(s, d, at, now_ms).1.at >= at,
        settled_from(s, d, at, now_ms).1.entries == d.entries,
    decreases d.entries.len() - at,
{
    if at < d.entries.len() {
        let entry = d.entries[at as int];
        match drain::plan_for(s, entry.hash, d.peers) {
            PlanView::Drop => lemma_settled_position(
                drain::dequeued(s, entry.hash),
                d,
                at + 1,
                now_ms,
            ),
            PlanView::Defer => lemma_settled_position(
                deferred(s, entry, now_ms),
                d,
                at + 1,
                now_ms,
            ),
            PlanView::FetchFrom(_) => {},
        }
    }
}

/// A drain ends: every answer brings it to a later entry, or closer to the end of the one that
/// it works on.
pub proof fn lemma_drain_progresses(s: StoreView, d: DrainView, event: FetchEvent, now_ms: i64)
    requires
        d.wf(),
        d.at < d.entries.len(),
        d.sources.len() <= usize::MAX,
        answers(d.phase, event),
    ensures
        ({
            let next = drained(s, d, event, now_ms).1;
            next.at > d.at || (next.at == d.at && 0 < left(next.phase, next.sources.len()) < left(
                d.phase,
                d.sources.len(),
            ))
        }),
{
    match advanced(d.phase, d.sources.len(), event) {
        Phase::Kept => lemma_settled_position(
            drain::dequeued(s, d.entry().hash),
            d,
            d.at + 1,
            now_ms,
        ),
        Phase::NotKept | Phase::Missing => lemma_settled_position(
            deferred(s, d.entry(), now_ms),
            d,
            d.at + 1,
            now_ms,
        ),
        _ => {},
    }
}

} // verus!
