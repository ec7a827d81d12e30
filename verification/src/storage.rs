//! The storage backend of a node: what the S3 requests on objects and listings do to the
//! metadata, and what they answer.
//!
//! The bytes of blocks are read and written outside. A write begins with a check, feeds the
//! body to an upload whose blocks are stored one by one, and ends by recording the manifest. A
//! read gives the plan of the blocks to send.

use std::time::SystemTime;

use vstd::prelude::*;

use crate::blockmeta;
use crate::chunking;
use crate::chunking::{Chunker, ChunkingStrategy, DynamicCDCStrategy, FixedSizeStrategy, Scheme};
use crate::config::{ChunkingConfig, Config};
use crate::disk;
use crate::disk::DiskGuard;
use crate::grouping;
use crate::hashing;
use crate::listing;
use crate::order::TableKey;
use crate::ranges;
use crate::ranges::Range;
use crate::s3;
use crate::s3::{ErrorView, Principal, References, S3Code, S3Error};
use crate::seqs;
use crate::store;
use crate::store::{Store, StoreError, StoreView};
use crate::text;
use crate::upload::Upload;

verus! {

pub struct StorageBackend {
    pub db: Store,
    pub config: Config,
    /// Refuses new writes when free disk falls below the configured reserve.
    pub disk_guard: DiskGuard,
}

/// The scheme that a configuration asks for.
pub open spec fn scheme_of(c: ChunkingConfig) -> Scheme {
    match c {
        ChunkingConfig::Fixed { max_block_size } => Scheme::Fixed { chunk_size: max_block_size },
        ChunkingConfig::Cdc { min_block_size, avg_block_size, max_block_size } => Scheme::Cdc {
            min_size: min_block_size,
            avg_size: avg_block_size,
            max_size: max_block_size,
        },
    }
}

/// The strategy that a configuration asks for.
pub fn chunker_of(c: &ChunkingConfig) -> (r: Chunker)
    ensures
        r.scheme() == scheme_of(*c),
{
    match c {
        ChunkingConfig::Fixed { max_block_size } => Chunker::Fixed(
            FixedSizeStrategy { chunk_size: *max_block_size },
        ),
        ChunkingConfig::Cdc { min_block_size, avg_block_size, max_block_size } => Chunker::Cdc(
            DynamicCDCStrategy {
                min_size: *min_block_size,
                avg_size: *avg_block_size,
                max_size: *max_block_size,
            },
        ),
    }
}

/// The size of the largest block.
pub fn block_capacity(c: &ChunkingConfig) -> (r: usize)
    ensures
        r == (match *c {
            ChunkingConfig::Fixed { max_block_size } => max_block_size,
            ChunkingConfig::Cdc { min_block_size, avg_block_size, max_block_size } => max_block_size,
        }),
{
    match c {
        ChunkingConfig::Fixed { max_block_size } => *max_block_size,
        ChunkingConfig::Cdc { min_block_size, avg_block_size, max_block_size } => *max_block_size,
    }
}

/// The first of two errors that there is.
pub open spec fn first_of(a: Option<ErrorView>, b: Option<ErrorView>) -> Option<ErrorView> {
    if a is Some {
        a
    } else {
        b
    }
}

/// The error, where the condition holds.
pub open spec fn error_if(c: bool, code: S3Code, message: Seq<char>) -> Option<ErrorView> {
    if c {
        Some(s3::told(code, message))
    } else {
        None
    }
}

/// The blocks that the object under a key refers to.
pub open spec fn refers(
    s: StoreView,
    bucket: Seq<char>,
    key: Seq<char>,
    r: Option<References>,
) -> bool {
    if store::live(s.objects, (bucket, key)) {
        r matches Some(x) && x.ref_id@ == s3::object_ref(bucket, key) && seqs::views(x.hashes@)
            == store::decoded(s.objects[(bucket, key)].blocks)
    } else {
        r is None
    }
}

/// The number of rows that a request asks for: 1000 where it does not say, and at least one.
pub open spec fn page_limit(max: Option<i32>) -> int {
    match max {
        Some(n) => if n > 1 {
            n as int
        } else {
            1
        },
        None => 1000,
    }
}

pub(crate) fn limit_of(max: Option<i32>) -> (r: i32)
    ensures
        r == page_limit(max),
        r >= 1,
{
    match max {
        Some(n) => if n > 1 {
            n
        } else {
            1
        },
        None => 1000,
    }
}

// ── answers ──────────────────────────────────────────────────────────────────

/// The answer to a write of an object.
pub struct PutOutput {
    pub e_tag: String,
    /// What the object of that key referred to before.
    pub released: Option<References>,
}

/// The answer to a read of an object, and the blocks to send: hash, bytes to skip, bytes to
/// take (all where there is no number).
pub struct GetOutput {
    pub content_length: i64,
    pub content_range: Option<String>,
    pub e_tag: String,
    pub plan: Vec<(Vec<u8>, u64, Option<u64>)>,
}

pub struct HeadOutput {
    pub content_length: i64,
    pub e_tag: String,
}

/// The answer to the deletion of several objects.
pub struct DeleteOutput {
    pub deleted: Vec<String>,
    /// Key and message.
    pub errors: Vec<(String, String)>,
}

/// The answer to a listing. The etags are quoted.
pub struct ListOutput {
    pub contents: Vec<(String, i64, String)>,
    pub common_prefixes: Option<Vec<String>>,
    pub is_truncated: bool,
    /// Counts both returned keys and common prefixes.
    pub key_count: i32,
    pub max_keys: i32,
    pub next: Option<String>,
}

/// Where a copy is made from.
pub enum CopySource {
    Bucket { bucket: String, key: String },
    AccessPoint,
}

pub struct CopyOutput {
    pub e_tag: String,
    pub released: Option<References>,
    /// What the new object refers to.
    pub taken: References,
}

// ── reading ──────────────────────────────────────────────────────────────────

/// One step of the plan of a read.
pub type Step = (Seq<u8>, int, Option<int>);

pub open spec fn step_view(t: (Vec<u8>, u64, Option<u64>)) -> Step {
    (
        t.0@,
        t.1 as int,
        match t.2 {
            Some(n) => Some(n as int),
            None => None,
        },
    )
}

pub open spec fn steps_view(v: Seq<(Vec<u8>, u64, Option<u64>)>) -> Seq<Step> {
    v.map_values(|t: (Vec<u8>, u64, Option<u64>)| step_view(t))
}

/// Every block, whole.
pub open spec fn whole_plan(hashes: Seq<Seq<u8>>) -> Seq<Step> {
    hashes.map_values(|h: Seq<u8>| (h, 0int, None::<int>))
}

/// The metadata sizes of blocks.
pub open spec fn sizes_of(s: StoreView, hashes: Seq<Seq<u8>>) -> Seq<i64> {
    hashes.map_values(|h: Seq<u8>| blockmeta::size_of(s.blocks, h))
}

/// Only the blocks that overlap the range, the first and the last one sliced.
pub open spec fn range_plan(hashes: Seq<Seq<u8>>, sizes: Seq<i64>, start: int, end: int) -> Seq<
    Step,
> {
    ranges::slices(sizes, sizes.len() as int, start, end).map_values(
        |t: (int, int, int)| (hashes[t.0], t.1, Some(t.2)),
    )
}

/// Why a read fails.
pub open spec fn get_error(
    s: StoreView,
    who: Principal,
    bucket: Seq<char>,
    key: Seq<char>,
    range: Option<Range>,
) -> Option<ErrorView> {
    first_of(
        s3::denial(who, "s3:GetObject"@, Some(bucket), Some(key)),
        first_of(
            error_if(!store::live(s.objects, (bucket, key)), S3Code::NoSuchKey, "Not found"@),
            match range {
                Some(x) => error_if(
                    ranges::resolved(x, (s.objects[(bucket, key)].size as u64) as int) is None,
                    S3Code::InvalidRange,
                    "Requested range not satisfiable"@,
                ),
                None => None,
            },
        ),
    )
}

/// With an object written under a key.
pub open spec fn written(
    s: StoreView,
    bucket: Seq<char>,
    key: Seq<char>,
    hashes: Seq<Seq<u8>>,
    size: i64,
    etag: Seq<char>,
    ts: i64,
) -> StoreView {
    s.object_inserted(bucket, hashing::shard_of(key), key, hashes, size, etag, ts)
}

/// Why the buckets cannot be listed.
pub open spec fn list_buckets_error(who: Principal) -> Option<ErrorView> {
    s3::denial(who, "s3:ListAllMyBuckets"@, None, None)
}

/// Why a bucket cannot be made.
pub open spec fn create_bucket_error(who: Principal, bucket: Seq<char>) -> Option<ErrorView> {
    s3::denial(who, "s3:CreateBucket"@, Some(bucket), None)
}

/// Why a bucket cannot be given up.
pub open spec fn delete_bucket_error(who: Principal, bucket: Seq<char>) -> Option<ErrorView> {
    s3::denial(who, "s3:DeleteBucket"@, Some(bucket), None)
}

/// Why a bucket cannot be listed or looked at.
pub open spec fn list_error(who: Principal, bucket: Seq<char>) -> Option<ErrorView> {
    s3::denial(who, "s3:ListBucket"@, Some(bucket), None)
}

/// Why objects of a bucket cannot be deleted together.
pub open spec fn batch_error(who: Principal, bucket: Seq<char>) -> Option<ErrorView> {
    s3::denial(who, "s3:DeleteObject"@, Some(bucket), None)
}

/// A write of an object with this etag is answered with `out`.
pub open spec fn put_answer(
    s: StoreView,
    bucket: Seq<char>,
    key: Seq<char>,
    etag: Seq<char>,
    out: PutOutput,
) -> bool {
    out.e_tag@ == s3::quoted(etag) && refers(s, bucket, key, out.released)
}

/// Why a look at an object fails.
pub open spec fn head_error(
    s: StoreView,
    who: Principal,
    bucket: Seq<char>,
    key: Seq<char>,
) -> Option<ErrorView> {
    first_of(
        s3::denial(who, "s3:HeadObject"@, Some(bucket), Some(key)),
        error_if(!store::live(s.objects, (bucket, key)), S3Code::NoSuchKey, "Not found"@),
    )
}

/// A look at an object is answered with `out`.
pub open spec fn head_answer(
    s: StoreView,
    bucket: Seq<char>,
    key: Seq<char>,
    out: HeadOutput,
) -> bool {
    let row = s.objects[(bucket, key)];
    out.content_length == row.size && out.e_tag@ == s3::quoted(row.etag)
}

/// A read of the object of this row answers with `out`.
pub open spec fn get_answer(
    s: StoreView,
    bucket: Seq<char>,
    key: Seq<char>,
    range: Option<Range>,
    out: GetOutput,
) -> bool {
    let row = s.objects[(bucket, key)];
    let hashes = store::decoded(row.blocks);
    &&& out.e_tag@ == s3::quoted(row.etag)
    &&& match range {
        None => {
            &&& out.content_length == row.size
            &&& out.content_range is None
            &&& steps_view(out.plan@) == whole_plan(hashes)
        },
        Some(x) => {
            let (start, end) = ranges::resolved(x, (row.size as u64) as int).unwrap();
            &&& out.content_length == (end - start + 1) as u64 as i64
            &&& out.content_range matches Some(t) && t@ == "bytes "@ + text::decimal_text(
                start as nat,
            ) + "-"@ + text::decimal_text(end as nat) + "/"@ + text::signed_text(row.size as int)
            &&& steps_view(out.plan@) == range_plan(hashes, sizes_of(s, hashes), start, end)
        },
    }
}

// ── deletions ────────────────────────────────────────────────────────────────

/// Why a deletion fails.
pub open spec fn delete_error(
    s: StoreView,
    who: Principal,
    bucket: Seq<char>,
    key: Seq<char>,
) -> Option<ErrorView> {
    first_of(
        s3::denial(who, "s3:DeleteObject"@, Some(bucket), Some(key)),
        if s.last_seq == i64::MAX {
            Some(s3::internal(StoreError::LogFull))
        } else {
            None
        },
    )
}

/// After the deletion of `keys`, one by one. Where the log is full nothing more is deleted.
pub open spec fn after_deletes(
    s: StoreView,
    bucket: Seq<char>,
    keys: Seq<Seq<char>>,
    ts: i64,
) -> StoreView
    decreases keys.len(),
{
    if keys.len() == 0 {
        s
    } else {
        let t = after_deletes(s, bucket, keys.drop_last(), ts);
        if t.last_seq == i64::MAX {
            t
        } else {
            t.object_deleted(bucket, keys.last(), ts)
        }
    }
}

/// How many of `n` deletions the log has room for.
pub open spec fn room_for(s: StoreView, n: int) -> int {
    if n <= i64::MAX - s.last_seq {
        n
    } else {
        i64::MAX - s.last_seq
    }
}

proof fn lemma_after_deletes(s: StoreView, bucket: Seq<char>, keys: Seq<Seq<char>>, ts: i64)
    ensures
        after_deletes(s, bucket, keys, ts).last_seq == s.last_seq + room_for(
            s,
            keys.len() as int,
        ),
    decreases keys.len(),
{
    if keys.len() > 0 {
        lemma_after_deletes(s, bucket, keys.drop_last(), ts);
    }
}

/// Key and message of a deletion that failed.
pub open spec fn failed(key: Seq<char>) -> (Seq<char>, Seq<char>) {
    (key, StoreError::LogFull.text())
}

/// The deletion of these objects is answered with `out`.
pub open spec fn batch_answer(s: StoreView, keys: Seq<Seq<char>>, out: DeleteOutput) -> bool {
    let n = room_for(s, keys.len() as int);
    &&& seqs::views(out.deleted@) == keys.take(n)
    &&& seqs::views(out.errors@) == keys.skip(n).map_values(|k: Seq<char>| failed(k))
}

/// Where a listing goes on: behind the token, else behind the start.
pub open spec fn cursor_of(token: Option<Seq<char>>, start: Option<Seq<char>>) -> Option<
    Seq<char>,
> {
    if token is Some {
        token
    } else {
        start
    }
}

/// The rows of a page with their etags quoted.
pub open spec fn quoted_rows(rows: Seq<(Seq<char>, i64, Seq<char>)>) -> Seq<
    (Seq<char>, i64, Seq<char>),
> {
    rows.map_values(|e: (Seq<char>, i64, Seq<char>)| (e.0, e.1, s3::quoted(e.2)))
}

/// A listing answers with the page behind `after`.
pub open spec fn list_answer(
    s: StoreView,
    bucket: Seq<char>,
    after: Option<Seq<char>>,
    prefix: Option<Seq<char>>,
    delimiter: Option<Seq<char>>,
    max_keys: Option<i32>,
    out: ListOutput,
) -> bool {
    let page = grouping::page_of(
        s.objects,
        bucket,
        after,
        prefix,
        delimiter,
        page_limit(max_keys),
    );
    &&& seqs::views(out.contents@) == quoted_rows(page.contents)
    &&& match out.common_prefixes {
        Some(v) => seqs::views(v@) == page.common_prefixes && page.common_prefixes.len() > 0,
        None => page.common_prefixes.len() == 0,
    }
    &&& out.is_truncated == page.is_truncated
    &&& out.key_count == page.contents.len() + page.common_prefixes.len()
    &&& out.max_keys == page_limit(max_keys)
    &&& match out.next {
        Some(t) => page.next == Some(t@),
        None => page.next is None,
    }
}

impl StorageBackend {
    /// A backend over a store. The write guard starts from the configured limits.
    pub fn new(db: Store, config: Config) -> (r: Self)
        ensures
            r.db == db,
            r.config == config,
            disk::limit_of(config.storage.min_free_bytes, r.disk_guard.min_free_bytes),
            disk::limit_of(config.storage.max_bytes, r.disk_guard.max_bytes),
            r.disk_guard.free == u64::MAX,
            r.disk_guard.local_usage == 0,
    {
        let disk_guard = DiskGuard::from_config(&config);
        StorageBackend { db, config, disk_guard }
    }

    /// How this node cuts bodies.
    pub open spec fn scheme(self) -> Scheme {
        scheme_of(self.config.storage.chunking)
    }

    /// Starts to take in a body.
    pub(crate) fn start_upload(&self) -> (r: Upload)
        ensures
            r.wf(),
            r.scheme() == self.scheme(),
            r.input() == Seq::<u8>::empty(),
            r.handed_out() == Seq::<Seq<u8>>::empty(),
            r.waiting() == Seq::<u8>::empty(),
    {
        Upload::new(
            chunker_of(&self.config.storage.chunking),
            block_capacity(&self.config.storage.chunking),
        )
    }

    /// The blocks that the object under a key refers to.
    pub(crate) fn object_references(&self, bucket: &str, key: &str) -> (r: Option<References>)
        ensures
            refers(self.db@, bucket@, key@, r),
    {
        match self.db.get_object(bucket, key) {
            Some((hashes, _, _)) => Some(
                References { ref_id: s3::object_ref_id(bucket, key), hashes },
            ),
            None => None,
        }
    }

    // ── PutObject ────────────────────────────────────────────────────────────

    /// Why a write of an object is refused.
    pub open spec fn put_error(
        self,
        who: Principal,
        bucket: Seq<char>,
        key: Seq<char>,
        has_body: bool,
    ) -> Option<ErrorView> {
        first_of(
            s3::denial(who, "s3:PutObject"@, Some(bucket), Some(key)),
            first_of(
                s3::refusal(self.disk_guard),
                error_if(!has_body, S3Code::InvalidRequest, "Missing body"@),
            ),
        )
    }

    /// Begins PutObject: gives the upload to feed the body to.
    pub fn begin_put_object(&self, who: &Principal, bucket: &str, key: &str, has_body: bool) -> (r:
        Result<Upload, S3Error>)
        ensures
            s3::fails_with(r, self.put_error(*who, bucket@, key@, has_body)),
            r matches Ok(u) ==> u.wf() && u.scheme() == self.scheme() && u.input() == Seq::<
                u8,
            >::empty() && u.handed_out() == Seq::<Seq<u8>>::empty() && u.waiting() == Seq::<
                u8,
            >::empty(),
    {
        match s3::authorize(who, "s3:PutObject", Some(bucket), Some(key)) {
            Err(e) => {
                return Err(e);
            },
            Ok(()) => {},
        }
        match s3::check_writable(&self.disk_guard) {
            Err(e) => {
                return Err(e);
            },
            Ok(()) => {},
        }
        if !has_body {
            return Err(S3Error::with_message(S3Code::InvalidRequest, "Missing body"));
        }
        Ok(self.start_upload())
    }

    /// Ends PutObject at time `ts`: records the manifest of the blocks that were stored.
    pub fn finish_put_object_at(
        &mut self,
        bucket: &str,
        key: &str,
        hashes: Vec<Vec<u8>>,
        total_size: i64,
        etag: &str,
        ts: i64,
    ) -> (r: Result<PutOutput, S3Error>)
        ensures
            final(self).config == old(self).config,
            final(self).disk_guard == old(self).disk_guard,
            final(self).db.clock == old(self).db.clock,
            old(self).db@.last_seq == i64::MAX ==> {
                &&& r matches Err(e) && e@ == s3::internal(StoreError::LogFull)
                &&& final(self).db@ == old(self).db@
            },
            old(self).db@.last_seq < i64::MAX ==> {
                &&& final(self).db@ == written(
                    old(self).db@,
                    bucket@,
                    key@,
                    seqs::views(hashes@),
                    total_size,
                    etag@,
                    ts,
                )
                &&& r matches Ok(out) && put_answer(old(self).db@, bucket@, key@, etag@, out)
            },
    {
        let released = self.object_references(bucket, key);
        let shard_id: i32 = hashing::compute_shard_id(key);
        match self.db.insert_object_at(bucket, shard_id, key, hashes, total_size, etag, ts) {
            Ok(()) => Ok(PutOutput { e_tag: s3::quote(etag), released }),
            Err(e) => Err(s3::internal_error(e)),
        }
    }

    /// Ends PutObject, at the time of the cluster clock.
    pub fn finish_put_object(
        &mut self,
        bucket: &str,
        key: &str,
        hashes: Vec<Vec<u8>>,
        total_size: i64,
        etag: &str,
    ) -> (r: Result<PutOutput, S3Error>)
        ensures
            final(self).config == old(self).config,
            final(self).disk_guard == old(self).disk_guard,
            final(self).db.clock == old(self).db.clock,
            old(self).db@.last_seq == i64::MAX ==> {
                &&& r matches Err(e) && e@ == s3::internal(StoreError::LogFull)
                &&& final(self).db@ == old(self).db@
            },
            old(self).db@.last_seq < i64::MAX ==> {
                &&& exists|t: SystemTime|
                    final(self).db@ == written(
                        old(self).db@,
                        bucket@,
                        key@,
                        seqs::views(hashes@),
                        total_size,
                        etag@,
                        #[trigger] old(self).db.clock.micros(t),
                    )
                &&& r matches Ok(out) && put_answer(old(self).db@, bucket@, key@, etag@, out)
            },
    {
        let ts: i64 = self.db.clock.now_micros();
        self.finish_put_object_at(bucket, key, hashes, total_size, etag, ts)
    }

    // ── GetObject, HeadObject ────────────────────────────────────────────────

    /// GetObject: the plan to send a whole object, or a range of it resolved to block
    /// boundaries (via block metadata sizes, no body fetches) so only overlapping blocks are
    /// read.
    pub fn get_object(&self, who: &Principal, bucket: &str, key: &str, range: Option<Range>) -> (r:
        Result<GetOutput, S3Error>)
        ensures
            s3::fails_with(r, get_error(self.db@, *who, bucket@, key@, range)),
            r matches Ok(out) ==> get_answer(self.db@, bucket@, key@, range, out),
    {
        match s3::authorize(who, "s3:GetObject", Some(bucket), Some(key)) {
            Err(e) => {
                return Err(e);
            },
            Ok(()) => {},
        }
        let (blocks, size, etag) = match self.db.get_object(bucket, key) {
            Some(found) => found,
            None => {
                return Err(S3Error::with_message(S3Code::NoSuchKey, "Not found"));
            },
        };
        let ghost hashes = seqs::views(blocks@);
        let e_tag = s3::quote(etag.as_str());
        match range {
            None => {
                let plan = plan_whole(blocks);
                Ok(GetOutput { content_length: size, content_range: None, e_tag, plan })
            },
            Some(x) => {
                let (start, end) = match ranges::resolve_range(&x, size as u64) {
                    Some(found) => found,
                    None => {
                        return Err(
                            S3Error::with_message(
                                S3Code::InvalidRange,
                                "Requested range not satisfiable",
                            ),
                        );
                    },
                };
                let sizes = self.db.block_sizes(&blocks);
                assert(sizes@ =~= sizes_of(self.db@, hashes));
                let plan = plan_range(&blocks, &sizes, start, end);
                let content_length: i64 = (end - start + 1) as i64;
                let mut t = text::join2("bytes ", text::decimal(start).as_str());
                text::push_text(&mut t, "-");
                text::push_decimal(&mut t, end);
                text::push_text(&mut t, "/");
                text::push_text(&mut t, text::signed_decimal(size).as_str());
                Ok(GetOutput { content_length, content_range: Some(t), e_tag, plan })
            },
        }
    }

    /// HeadObject.
    pub fn head_object(&self, who: &Principal, bucket: &str, key: &str) -> (r: Result<
        HeadOutput,
        S3Error,
    >)
        ensures
            s3::fails_with(
                r,
                head_error(self.db@, *who, bucket@, key@),
            ),
            r matches Ok(out) ==> head_answer(self.db@, bucket@, key@, out),
    {
        match s3::authorize(who, "s3:HeadObject", Some(bucket), Some(key)) {
            Err(e) => {
                return Err(e);
            },
            Ok(()) => {},
        }
        match self.db.get_object(bucket, key) {
            Some((_, size, etag)) => Ok(
                HeadOutput { content_length: size, e_tag: s3::quote(etag.as_str()) },
            ),
            None => Err(S3Error::with_message(S3Code::NoSuchKey, "Not found")),
        }
    }

    // ── buckets ──────────────────────────────────────────────────────────────

    /// ListBuckets: the buckets with live objects, with the earliest known time, in
    /// microseconds, as a stand-in creation date. A time before the epoch counts as the epoch.
    pub fn list_buckets(&self, who: &Principal) -> (r: Result<Vec<(String, u64)>, S3Error>)
        ensures
            s3::fails_with(r, list_buckets_error(*who)),
            r matches Ok(v) ==> exists|rows: Seq<(Seq<char>, i64)>| #[trigger]
                listing::bucket_listing(self.db@.objects, rows) && seqs::views(v@)
                    == dated(rows),
    {
        match s3::authorize(who, "s3:ListAllMyBuckets", None, None) {
            Err(e) => {
                return Err(e);
            },
            Ok(()) => {},
        }
        let rows = self.db.list_buckets();
        let ghost all = dated(seqs::views(rows@));
        let mut out: Vec<(String, u64)> = Vec::new();
        let mut i: usize = 0;
        assert(seqs::views(out@) =~= all.take(0));
        while i < rows.len()
            invariant
                i <= rows@.len(),
                all == dated(seqs::views(rows@)),
                seqs::views(out@) == all.take(i as int),
            decreases rows@.len() - i,
        {
            let created: u64 = if rows[i].1 > 0 {
                rows[i].1 as u64
            } else {
                0
            };
            let item = (rows[i].0.clone(), created);
            proof {
                seqs::lemma_views_push(out@, item);
                assert(seqs::views(rows@)[i as int] == rows@[i as int]@);
                assert(all.take(i + 1) =~= all.take(i as int).push(item@));
            }
            out.push(item);
            i += 1;
        }
        assert(all.take(all.len() as int) =~= all);
        Ok(out)
    }

    /// CreateBucket. Buckets are implicit, so there is nothing to create.
    pub fn create_bucket(&self, who: &Principal, bucket: &str) -> (r: Result<(), S3Error>)
        ensures
            s3::fails_with(r, create_bucket_error(*who, bucket@)),
    {
        s3::authorize(who, "s3:CreateBucket", Some(bucket), None)
    }

    /// DeleteBucket. Buckets are implicit, so there is nothing to delete.
    pub fn delete_bucket(&self, who: &Principal, bucket: &str) -> (r: Result<(), S3Error>)
        ensures
            s3::fails_with(r, delete_bucket_error(*who, bucket@)),
    {
        s3::authorize(who, "s3:DeleteBucket", Some(bucket), None)
    }

    /// HeadBucket.
    pub fn head_bucket(&self, who: &Principal, bucket: &str) -> (r: Result<(), S3Error>)
        ensures
            s3::fails_with(r, list_error(*who, bucket@)),
    {
        s3::authorize(who, "s3:ListBucket", Some(bucket), None)
    }

    // ── DeleteObject, DeleteObjects ──────────────────────────────────────────

    /// DeleteObject at time `ts`: gives what the object referred to. Deleting what is not
    /// there succeeds.
    pub fn delete_object_at(&mut self, who: &Principal, bucket: &str, key: &str, ts: i64) -> (r:
        Result<Option<References>, S3Error>)
        ensures
            final(self).config == old(self).config,
            final(self).disk_guard == old(self).disk_guard,
            final(self).db.clock == old(self).db.clock,
            s3::fails_with(
                r,
                delete_error(old(self).db@, *who, bucket@, key@),
            ),
            r is Err ==> final(self).db@ == old(self).db@,
            r matches Ok(released) ==> final(self).db@ == old(self).db@.object_deleted(
                bucket@,
                key@,
                ts,
            ) && refers(old(self).db@, bucket@, key@, released),
    {
        match s3::authorize(who, "s3:DeleteObject", Some(bucket), Some(key)) {
            Err(e) => {
                return Err(e);
            },
            Ok(()) => {},
        }
        let released = self.object_references(bucket, key);
        match self.db.delete_object_at(bucket, key, ts) {
            Ok(()) => Ok(released),
            Err(e) => Err(s3::internal_error(e)),
        }
    }

    /// DeleteObject, at the time of the cluster clock.
    pub fn delete_object(&mut self, who: &Principal, bucket: &str, key: &str) -> (r: Result<
        Option<References>,
        S3Error,
    >)
        ensures
            final(self).config == old(self).config,
            final(self).disk_guard == old(self).disk_guard,
            final(self).db.clock == old(self).db.clock,
            s3::fails_with(
                r,
                delete_error(old(self).db@, *who, bucket@, key@),
            ),
            r is Err ==> final(self).db@ == old(self).db@,
            r matches Ok(released) ==> refers(old(self).db@, bucket@, key@, released)
                && exists|t: SystemTime|
                final(self).db@ == old(self).db@.object_deleted(
                    bucket@,
                    key@,
                    #[trigger] old(self).db.clock.micros(t),
                ),
    {
        let ts: i64 = self.db.clock.now_micros();
        self.delete_object_at(who, bucket, key, ts)
    }

    /// DeleteObjects at time `ts`: each key is deleted, or reported with the reason.
    pub fn delete_objects_at(
        &mut self,
        who: &Principal,
        bucket: &str,
        keys: &Vec<String>,
        ts: i64,
    ) -> (r: Result<DeleteOutput, S3Error>)
        ensures
            final(self).config == old(self).config,
            final(self).disk_guard == old(self).disk_guard,
            final(self).db.clock == old(self).db.clock,
            s3::fails_with(r, batch_error(*who, bucket@)),
            r is Err ==> final(self).db@ == old(self).db@,
            r matches Ok(out) ==> {
                let all = seqs::views(keys@);
                &&& final(self).db@ == after_deletes(old(self).db@, bucket@, all, ts)
                &&& batch_answer(old(self).db@, all, out)
            },
    {
        match s3::authorize(who, "s3:DeleteObject", Some(bucket), None) {
            Err(e) => {
                return Err(e);
            },
            Ok(()) => {},
        }
        let ghost before = self.db@;
        let ghost all = seqs::views(keys@);
        let ghost f = |k: Seq<char>| failed(k);
        let mut deleted: Vec<String> = Vec::new();
        let mut errors: Vec<(String, String)> = Vec::new();
        let mut i: usize = 0;
        proof {
            assert(after_deletes(before, bucket@, all.take(0), ts) == before);
            assert(seqs::views(deleted@) =~= all.take(0).take(room_for(before, 0)));
            assert(seqs::views(errors@) =~= all.take(0).skip(room_for(before, 0)).map_values(f));
        }
        while i < keys.len()
            invariant
                i <= keys@.len(),
                all == seqs::views(keys@),
                f == (|k: Seq<char>| failed(k)),
                self.config == old(self).config,
                self.disk_guard == old(self).disk_guard,
                self.db.clock == old(self).db.clock,
                self.db@ == after_deletes(before, bucket@, all.take(i as int), ts),
                seqs::views(deleted@) == all.take(room_for(before, i as int)),
                seqs::views(errors@) == all.subrange(
                    room_for(before, i as int),
                    i as int,
                ).map_values(f),
            decreases keys@.len() - i,
        {
            let key = &keys[i];
            let ghost now = self.db@;
            proof {
                lemma_after_deletes(before, bucket@, all.take(i as int), ts);
                assert(all.take(i + 1).drop_last() =~= all.take(i as int));
                assert(all.take(i + 1).last() == key@);
            }
            match self.db.delete_object_at(bucket, key.as_str(), ts) {
                Ok(()) => {
                    let name = key.clone();
                    proof {
                        seqs::lemma_views_push(deleted@, name);
                        assert(all.take(i + 1) =~= all.take(i as int).push(name@));
                        assert(all.subrange(i + 1, i + 1).map_values(f) =~= all.subrange(
                            i as int,
                            i as int,
                        ).map_values(f));
                    }
                    deleted.push(name);
                },
                Err(e) => {
                    let item = (key.clone(), e.message());
                    proof {
                        let n = room_for(before, i as int);
                        seqs::lemma_views_push(errors@, item);
                        assert(all.subrange(n, i + 1) =~= all.subrange(n, i as int).push(key@));
                        assert(all.subrange(n, i + 1).map_values(f) =~= all.subrange(
                            n,
                            i as int,
                        ).map_values(f).push(item@));
                    }
                    errors.push(item);
                },
            }
            i += 1;
        }
        proof {
            let n = room_for(before, all.len() as int);
            assert(all.take(all.len() as int) =~= all);
            assert(all.subrange(n, all.len() as int) =~= all.skip(n));
        }
        Ok(DeleteOutput { deleted, errors })
    }

    /// DeleteObjects, at the time of the cluster clock.
    pub fn delete_objects(&mut self, who: &Principal, bucket: &str, keys: &Vec<String>) -> (r:
        Result<DeleteOutput, S3Error>)
        ensures
            final(self).config == old(self).config,
            final(self).disk_guard == old(self).disk_guard,
            final(self).db.clock == old(self).db.clock,
            s3::fails_with(r, batch_error(*who, bucket@)),
            r is Err ==> final(self).db@ == old(self).db@,
            r matches Ok(out) ==> {
                let all = seqs::views(keys@);
                &&& exists|t: SystemTime|
                    final(self).db@ == after_deletes(
                        old(self).db@,
                        bucket@,
                        all,
                        #[trigger] old(self).db.clock.micros(t),
                    )
                &&& batch_answer(old(self).db@, all, out)
            },
    {
        let ts: i64 = self.db.clock.now_micros();
        self.delete_objects_at(who, bucket, keys, ts)
    }

    // ── listings ─────────────────────────────────────────────────────────────

    fn list_with(
        &self,
        bucket: &str,
        after: Option<&str>,
        prefix: Option<&str>,
        delimiter: Option<&str>,
        max_keys: Option<i32>,
    ) -> (r: ListOutput)
        ensures
            list_answer(
                self.db@,
                bucket@,
                s3::opt(after),
                s3::opt(prefix),
                s3::opt(delimiter),
                max_keys,
                r,
            ),
            r.key_count <= r.max_keys,
    {
        let limit: i32 = limit_of(max_keys);
        let page = self.db.list_page(bucket, after, prefix, delimiter, limit as usize);
        let ghost rows = quoted_rows(page@.contents);
        let mut contents: Vec<(String, i64, String)> = Vec::new();
        let mut i: usize = 0;
        assert(seqs::views(contents@) =~= rows.take(0));
        while i < page.contents.len()
            invariant
                i <= page.contents@.len(),
                rows == quoted_rows(page@.contents),
                seqs::views(contents@) == rows.take(i as int),
            decreases page.contents@.len() - i,
        {
            let e = &page.contents[i];
            let item = (e.0.clone(), e.1, s3::quote(e.2.as_str()));
            proof {
                seqs::lemma_views_push(contents@, item);
                assert(page@.contents[i as int] == e@);
                assert(rows.take(i + 1) =~= rows.take(i as int).push(item@));
            }
            contents.push(item);
            i += 1;
        }
        assert(rows.take(rows.len() as int) =~= rows);
        let key_count: i32 = (contents.len() + page.common_prefixes.len()) as i32;
        let common_prefixes = if page.common_prefixes.len() == 0 {
            None
        } else {
            Some(page.common_prefixes)
        };
        ListOutput {
            contents,
            common_prefixes,
            is_truncated: page.is_truncated,
            key_count,
            max_keys: limit,
            next: page.next,
        }
    }

    /// ListObjectsV2. The continuation token takes precedence over `start_after`.
    pub fn list_objects_v2(
        &self,
        who: &Principal,
        bucket: &str,
        prefix: Option<&str>,
        delimiter: Option<&str>,
        continuation_token: Option<&str>,
        start_after: Option<&str>,
        max_keys: Option<i32>,
    ) -> (r: Result<ListOutput, S3Error>)
        ensures
            s3::fails_with(r, list_error(*who, bucket@)),
            r matches Ok(out) ==> list_answer(
                self.db@,
                bucket@,
                cursor_of(s3::opt(continuation_token), s3::opt(start_after)),
                s3::opt(prefix),
                s3::opt(delimiter),
                max_keys,
                out,
            ),
            r matches Ok(out) ==> out.key_count <= out.max_keys,
    {
        match s3::authorize(who, "s3:ListBucket", Some(bucket), None) {
            Err(e) => {
                return Err(e);
            },
            Ok(()) => {},
        }
        let after = match continuation_token {
            Some(t) => Some(t),
            None => start_after,
        };
        Ok(self.list_with(bucket, after, prefix, delimiter, max_keys))
    }

    /// ListObjects.
    pub fn list_objects(
        &self,
        who: &Principal,
        bucket: &str,
        prefix: Option<&str>,
        delimiter: Option<&str>,
        marker: Option<&str>,
        max_keys: Option<i32>,
    ) -> (r: Result<ListOutput, S3Error>)
        ensures
            s3::fails_with(r, list_error(*who, bucket@)),
            r matches Ok(out) ==> list_answer(
                self.db@,
                bucket@,
                s3::opt(marker),
                s3::opt(prefix),
                s3::opt(delimiter),
                max_keys,
                out,
            ),
            r matches Ok(out) ==> out.key_count <= out.max_keys,
    {
        match s3::authorize(who, "s3:ListBucket", Some(bucket), None) {
            Err(e) => {
                return Err(e);
            },
            Ok(()) => {},
        }
        Ok(self.list_with(bucket, marker, prefix, delimiter, max_keys))
    }

    // ── CopyObject ───────────────────────────────────────────────────────────

    /// Why a copy fails.
    pub open spec fn copy_error(
        self,
        who: Principal,
        bucket: Seq<char>,
        key: Seq<char>,
        source: CopySource,
    ) -> Option<ErrorView> {
        first_of(
            s3::denial(who, "s3:PutObject"@, Some(bucket), Some(key)),
            first_of(
                source_error(self.db@, source),
                if self.db@.last_seq == i64::MAX {
                    Some(s3::internal(StoreError::LogFull))
                } else {
                    None
                },
            ),
        )
    }

    /// CopyObject at time `ts`: the new object has the manifest of the source.
    pub fn copy_object_at(
        &mut self,
        who: &Principal,
        bucket: &str,
        key: &str,
        source: &CopySource,
        ts: i64,
    ) -> (r: Result<CopyOutput, S3Error>)
        ensures
            final(self).config == old(self).config,
            final(self).disk_guard == old(self).disk_guard,
            final(self).db.clock == old(self).db.clock,
            s3::fails_with(r, old(self).copy_error(*who, bucket@, key@, *source)),
            r is Err ==> final(self).db@ == old(self).db@,
            r matches Ok(out) ==> final(self).db@ == copied(
                old(self).db@,
                bucket@,
                key@,
                *source,
                ts,
            ) && copy_answer(old(self).db@, bucket@, key@, *source, out),
    {
        match s3::authorize(who, "s3:PutObject", Some(bucket), Some(key)) {
            Err(e) => {
                return Err(e);
            },
            Ok(()) => {},
        }
        let (blocks, size, etag) = match find_source(&self.db, source) {
            Ok(found) => found,
            Err(e) => {
                return Err(e);
            },
        };
        let released = self.object_references(bucket, key);
        let taken = References {
            ref_id: s3::object_ref_id(bucket, key),
            hashes: copy_hashes(&blocks),
        };
        let shard_id: i32 = hashing::compute_shard_id(key);
        match self.db.insert_object_at(bucket, shard_id, key, blocks, size, etag.as_str(), ts) {
            Ok(()) => Ok(CopyOutput { e_tag: s3::quote(etag.as_str()), released, taken }),
            Err(e) => Err(s3::internal_error(e)),
        }
    }

    /// CopyObject, at the time of the cluster clock.
    pub fn copy_object(
        &mut self,
        who: &Principal,
        bucket: &str,
        key: &str,
        source: &CopySource,
    ) -> (r: Result<CopyOutput, S3Error>)
        ensures
            final(self).config == old(self).config,
            final(self).disk_guard == old(self).disk_guard,
            final(self).db.clock == old(self).db.clock,
            s3::fails_with(r, old(self).copy_error(*who, bucket@, key@, *source)),
            r is Err ==> final(self).db@ == old(self).db@,
            r matches Ok(out) ==> copy_answer(old(self).db@, bucket@, key@, *source, out)
                && exists|t: SystemTime|
                final(self).db@ == copied(
                    old(self).db@,
                    bucket@,
                    key@,
                    *source,
                    #[trigger] old(self).db.clock.micros(t),
                ),
    {
        let ts: i64 = self.db.clock.now_micros();
        self.copy_object_at(who, bucket, key, source, ts)
    }
}

/// Buckets with their dates as microseconds since the epoch.
pub open spec fn dated(rows: Seq<(Seq<char>, i64)>) -> Seq<(Seq<char>, u64)> {
    rows.map_values(
        |e: (Seq<char>, i64)|
            (
                e.0,
                if e.1 > 0 {
                    e.1 as u64
                } else {
                    0
                },
            ),
    )
}

/// The key that a copy is made from.
pub open spec fn source_key(source: CopySource) -> (Seq<char>, Seq<char>) {
    match source {
        CopySource::Bucket { bucket, key } => (bucket@, key@),
        CopySource::AccessPoint => (seq![], seq![]),
    }
}

/// With the source written under another key.
pub open spec fn copied(
    s: StoreView,
    bucket: Seq<char>,
    key: Seq<char>,
    source: CopySource,
    ts: i64,
) -> StoreView {
    let row = s.objects[source_key(source)];
    s.object_inserted(
        bucket,
        hashing::shard_of(key),
        key,
        store::decoded(row.blocks),
        row.size,
        row.etag,
        ts,
    )
}

/// A copy is answered with `out`.
pub open spec fn copy_answer(
    s: StoreView,
    bucket: Seq<char>,
    key: Seq<char>,
    source: CopySource,
    out: CopyOutput,
) -> bool {
    let row = s.objects[source_key(source)];
    &&& out.e_tag@ == s3::quoted(row.etag)
    &&& refers(s, bucket, key, out.released)
    &&& out.taken.ref_id@ == s3::object_ref(bucket, key)
    &&& seqs::views(out.taken.hashes@) == store::decoded(row.blocks)
}

/// Why there is nothing to copy from.
pub open spec fn source_error(s: StoreView, source: CopySource) -> Option<ErrorView> {
    match source {
        CopySource::AccessPoint => Some(
            s3::told(S3Code::NotImplemented, "AccessPoint copy source not supported"@),
        ),
        CopySource::Bucket { bucket, key } => error_if(
            !store::live(s.objects, (bucket@, key@)),
            S3Code::NoSuchKey,
            "Source object not found"@,
        ),
    }
}

/// The object that a copy is made from.
pub(crate) fn find_source(db: &Store, source: &CopySource) -> (r: Result<
    (Vec<Vec<u8>>, i64, String),
    S3Error,
>)
    ensures
        s3::fails_with(r, source_error(db@, *source)),
        r matches Ok(found) ==> {
            let row = db@.objects[source_key(*source)];
            seqs::views(found.0@) == store::decoded(row.blocks) && found.1 == row.size && found.2@
                == row.etag
        },
{
    match source {
        CopySource::AccessPoint => Err(
            S3Error::with_message(S3Code::NotImplemented, "AccessPoint copy source not supported"),
        ),
        CopySource::Bucket { bucket, key } => match db.get_object(bucket.as_str(), key.as_str()) {
            Some(found) => Ok(found),
            None => Err(S3Error::with_message(S3Code::NoSuchKey, "Source object not found")),
        },
    }
}

pub(crate) fn copy_hashes(v: &Vec<Vec<u8>>) -> (r: Vec<Vec<u8>>)
    ensures
        seqs::views(r@) == seqs::views(v@),
{
    let ghost all = seqs::views(v@);
    let mut out: Vec<Vec<u8>> = Vec::new();
    let mut i: usize = 0;
    assert(seqs::views(out@) =~= all.take(0));
    while i < v.len()
        invariant
            i <= v@.len(),
            all == seqs::views(v@),
            seqs::views(out@) == all.take(i as int),
        decreases v@.len() - i,
    {
        let h = v[i].duplicate();
        proof {
            seqs::lemma_views_push(out@, h);
            assert(all.take(i + 1) =~= all.take(i as int).push(h@));
        }
        out.push(h);
        i += 1;
    }
    assert(all.take(all.len() as int) =~= all);
    out
}

fn plan_whole(blocks: Vec<Vec<u8>>) -> (r: Vec<(Vec<u8>, u64, Option<u64>)>)
    ensures
        steps_view(r@) == whole_plan(seqs::views(blocks@)),
{
    let ghost all = whole_plan(seqs::views(blocks@));
    let mut out: Vec<(Vec<u8>, u64, Option<u64>)> = Vec::new();
    let mut i: usize = 0;
    assert(steps_view(out@) =~= all.take(0));
    while i < blocks.len()
        invariant
            i <= blocks@.len(),
            all == whole_plan(seqs::views(blocks@)),
            steps_view(out@) == all.take(i as int),
        decreases blocks@.len() - i,
    {
        let item: (Vec<u8>, u64, Option<u64>) = (blocks[i].duplicate(), 0, None);
        proof {
            assert(steps_view(out@.push(item)) =~= steps_view(out@).push(step_view(item)));
            assert(seqs::views(blocks@)[i as int] == blocks@[i as int]@);
            assert(all.take(i + 1) =~= all.take(i as int).push(step_view(item)));
        }
        out.push(item);
        i += 1;
    }
    assert(all.take(all.len() as int) =~= all);
    out
}

fn plan_range(blocks: &Vec<Vec<u8>>, sizes: &Vec<i64>, start: u64, end: u64) -> (r: Vec<
    (Vec<u8>, u64, Option<u64>),
>)
    requires
        start <= end,
        sizes@.len() == blocks@.len(),
    ensures
        steps_view(r@) == range_plan(seqs::views(blocks@), sizes@, start as int, end as int),
{
    let ghost hashes = seqs::views(blocks@);
    let ghost all = range_plan(hashes, sizes@, start as int, end as int);
    let slices = ranges::slice_blocks_for_range(sizes.as_slice(), start, end);
    let ghost parts = ranges::slice_views(slices@);
    let mut out: Vec<(Vec<u8>, u64, Option<u64>)> = Vec::new();
    let mut i: usize = 0;
    assert(steps_view(out@) =~= all.take(0));
    while i < slices.len()
        invariant
            i <= slices@.len(),
            hashes == seqs::views(blocks@),
            all == range_plan(hashes, sizes@, start as int, end as int),
            parts == ranges::slice_views(slices@),
            parts == ranges::slices(sizes@, sizes@.len() as int, start as int, end as int),
            sizes@.len() == blocks@.len(),
            forall|j: int| 0 <= j < slices@.len() ==> (#[trigger] slices@[j]).0 < sizes@.len(),
            steps_view(out@) == all.take(i as int),
        decreases slices@.len() - i,
    {
        let (at, skip, take) = slices[i];
        assert(slices@[i as int].0 < sizes@.len());
        let item: (Vec<u8>, u64, Option<u64>) = (blocks[at].duplicate(), skip, Some(take));
        proof {
            assert(parts[i as int] == ranges::slice_view(slices@[i as int]));
            assert(hashes[at as int] == blocks@[at as int]@);
            assert(steps_view(out@.push(item)) =~= steps_view(out@).push(step_view(item)));
            assert(all.take(i + 1) =~= all.take(i as int).push(step_view(item)));
        }
        out.push(item);
        i += 1;
    }
    assert(all.take(all.len() as int) =~= all);
    out
}

/// ListObjects and ListObjectsV2 answer alike: on the same store, with a marker that is the
/// cursor, both give the same contents, common prefixes, limits and token.
pub proof fn lemma_listings_agree(
    s: StoreView,
    bucket: Seq<char>,
    after: Option<Seq<char>>,
    prefix: Option<Seq<char>>,
    delimiter: Option<Seq<char>>,
    max_keys: Option<i32>,
    a: ListOutput,
    b: ListOutput,
)
    requires
        list_answer(s, bucket, after, prefix, delimiter, max_keys, a),
        list_answer(s, bucket, after, prefix, delimiter, max_keys, b),
    ensures
        seqs::views(a.contents@) == seqs::views(b.contents@),
        a.common_prefixes is Some == b.common_prefixes is Some,
        a.common_prefixes is Some ==> seqs::views(a.common_prefixes.unwrap()@) == seqs::views(
            b.common_prefixes.unwrap()@,
        ),
        a.is_truncated == b.is_truncated,
        a.key_count == b.key_count,
        a.max_keys == b.max_keys == (match max_keys {
            None => 1000,
            Some(n) => if n < 1 {
                1
            } else {
                n as int
            },
        }),
        a.next is Some == b.next is Some,
        a.next is Some ==> a.next.unwrap()@ == b.next.unwrap()@,
{
}

} // verus!
