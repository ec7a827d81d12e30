//! The S3 requests on multipart uploads.

use std::time::SystemTime;

use vstd::prelude::*;

use crate::codec;
use crate::digest;
use crate::hashing;
use crate::listing;
use crate::multipart;
use crate::multipart::{PartInfo, PartTuple};
use crate::ranges;
use crate::s3;
use crate::s3::{ErrorView, Principal, References, S3Code, S3Error};
use crate::seqs;
use crate::storage;
use crate::storage::{CopySource, StorageBackend};
use crate::store;
use crate::store::{Store, StoreError, StoreView};
use crate::text;
use crate::upload;
use crate::upload::Upload;

verus! {

// ── answers ──────────────────────────────────────────────────────────────────

/// The answer to ListParts: number, size and quoted etag of each part.
pub struct PartsOutput {
    pub parts: Vec<(i32, i64, String)>,
    pub max_parts: i32,
    pub is_truncated: bool,
    pub next_part_number_marker: Option<String>,
}

/// The answer to ListMultipartUploads: key and id of each upload.
pub struct UploadsOutput {
    pub uploads: Option<Vec<(String, String)>>,
    pub max_uploads: i32,
    pub is_truncated: bool,
    pub next_key_marker: Option<String>,
}

/// What UploadPartCopy reads: the blocks of the source and the range of its bytes.
pub struct PartCopy {
    /// The id under which the part is stored.
    pub upload_id: String,
    pub hashes: Vec<Vec<u8>>,
    pub sizes: Vec<i64>,
    pub start: u64,
    pub end: u64,
}

/// The answer to CompleteMultipartUpload.
pub struct CompleteOutput {
    pub e_tag: String,
    /// What the object of that key referred to before.
    pub released: Option<References>,
    /// What the new object refers to.
    pub taken: References,
    /// What the upload referred to.
    pub dropped: References,
}

// ── common checks ────────────────────────────────────────────────────────────

/// The text of an id.
pub open spec fn opt_id(id: Option<String>) -> Option<Seq<char>> {
    match id {
        Some(t) => Some(t@),
        None => None,
    }
}

/// Why there is no upload to work on under `id`; an id that cannot be read is no id.
pub open spec fn missing_upload(s: StoreView, bucket: Seq<char>, id: Option<Seq<char>>) -> Option<
    ErrorView,
> {
    match id {
        None => Some(s3::told(S3Code::InvalidRequest, "Invalid upload id"@)),
        Some(id) => storage::error_if(
            !s.uploads.dom().contains((bucket, id)),
            S3Code::NoSuchUpload,
            "Upload not found"@,
        ),
    }
}

/// Why a request has no upload to work on.
pub open spec fn upload_error(s: StoreView, bucket: Seq<char>, upload_id: Seq<char>) -> Option<
    ErrorView,
> {
    missing_upload(s, bucket, multipart::canonical_uuid(upload_id))
}

/// The id of an upload in progress and the key that it is for, where a request names `id`.
pub fn known_upload(db: &Store, bucket: &str, id: Option<String>) -> (r: Result<
    (String, String),
    S3Error,
>)
    ensures
        s3::fails_with(r, missing_upload(db@, bucket@, opt_id(id))),
        r matches Ok((known, key)) ==> opt_id(id) == Some(known@) && db@.uploads[(bucket@, known@)]
            == key@,
{
    let id = match id {
        Some(id) => id,
        None => {
            return Err(S3Error::with_message(S3Code::InvalidRequest, "Invalid upload id"));
        },
    };
    match db.get_multipart_key(bucket, id.as_str()) {
        Some(key) => Ok((id, key)),
        None => Err(S3Error::with_message(S3Code::NoSuchUpload, "Upload not found")),
    }
}

/// The id of an upload in progress, as the store keeps it, and the key that it is for.
fn find_upload(db: &Store, bucket: &str, upload_id: &str) -> (r: Result<(String, String), S3Error>)
    ensures
        s3::fails_with(r, upload_error(db@, bucket@, upload_id@)),
        r matches Ok((id, key)) ==> multipart::canonical_uuid(upload_id@) == Some(id@)
            && db@.uploads[(bucket@, id@)] == key@,
{
    known_upload(db, bucket, multipart::parse_upload_id(upload_id))
}

// ── ListParts ────────────────────────────────────────────────────────────────

/// The parts behind a number.
pub open spec fn behind_part(marker: int) -> spec_fn(PartInfo) -> bool {
    |p: PartInfo| p.number > marker
}

/// What a listing says of a part.
pub open spec fn part_row() -> spec_fn(PartInfo) -> (i32, i64, Seq<char>) {
    |p: PartInfo| (p.number, p.size, s3::quoted(p.etag))
}

/// The number that a marker writes; zero where it is missing or no number.
pub open spec fn marker_number(marker: Option<Seq<char>>) -> int {
    match marker {
        Some(t) => match text::decimal_value(t, true) {
            Some(n) => if i32::MIN <= n <= i32::MAX {
                n
            } else {
                0
            },
            None => 0,
        },
        None => 0,
    }
}

/// ListParts answers with the page of `all` behind the marker.
pub open spec fn parts_answer(
    all: Seq<PartInfo>,
    marker: Option<Seq<char>>,
    max_parts: Option<i32>,
    out: PartsOutput,
) -> bool {
    let rows = seqs::pick(all, behind_part(marker_number(marker)), part_row());
    let limit = storage::page_limit(max_parts);
    let kept = seqs::at_most(rows, limit);
    &&& seqs::views(out.parts@) == kept
    &&& out.max_parts == limit
    &&& out.is_truncated == (rows.len() > limit)
    &&& match out.next_part_number_marker {
        Some(t) => out.is_truncated && t@ == text::signed_text(kept.last().0 as int),
        None => !out.is_truncated,
    }
}

/// One page of a list of parts.
pub fn parts_page(parts: &Vec<PartTuple>, marker: Option<&str>, max_parts: Option<i32>) -> (r:
    PartsOutput)
    ensures
        parts_answer(multipart::part_infos(parts@), s3::opt(marker), max_parts, r),
{
    let from: i32 = match marker {
        Some(t) => match text::parse_i32(t) {
            Some(n) => n,
            None => 0,
        },
        None => 0,
    };
    let limit: i32 = storage::limit_of(max_parts);
    let ghost all = multipart::part_infos(parts@);
    let ghost p = behind_part(marker_number(s3::opt(marker)));
    let ghost f = part_row();
    let mut rows: Vec<(i32, i64, String)> = Vec::new();
    let mut i: usize = 0;
    proof {
        seqs::lemma_pick_none(all, p, f);
        assert(seqs::views(rows@) =~= seqs::pick(all.take(0), p, f));
    }
    while i < parts.len()
        invariant
            i <= parts@.len(),
            all == multipart::part_infos(parts@),
            p == behind_part(from as int),
            f == part_row(),
            seqs::views(rows@) == seqs::pick(all.take(i as int), p, f),
        decreases parts@.len() - i,
    {
        let e = &parts[i];
        proof {
            seqs::lemma_pick_step(all, p, f, i as int);
            assert(all[i as int] == multipart::part_info(*e));
        }
        if e.0 > from {
            let item = (e.0, e.2, s3::quote(e.3.as_str()));
            proof {
                seqs::lemma_views_push(rows@, item);
            }
            rows.push(item);
        }
        i += 1;
    }
    proof {
        assert(all.take(all.len() as int) =~= all);
    }
    let ghost shown = seqs::views(rows@);
    let is_truncated = rows.len() > limit as usize;
    if is_truncated {
        rows.truncate(limit as usize);
        assert(seqs::views(rows@) =~= shown.take(limit as int));
    }
    let next_part_number_marker = if is_truncated {
        let last: i32 = rows[rows.len() - 1].0;
        assert(seqs::views(rows@).last() == rows@.last()@);
        Some(text::signed_decimal(last as i64))
    } else {
        None
    };
    PartsOutput { parts: rows, max_parts: limit, is_truncated, next_part_number_marker }
}

// ── ListMultipartUploads ─────────────────────────────────────────────────────

/// ListMultipartUploads answers with the first of `all`.
pub open spec fn uploads_answer(
    all: Seq<(Seq<char>, Seq<char>)>,
    max_uploads: Option<i32>,
    out: UploadsOutput,
) -> bool {
    let limit = storage::page_limit(max_uploads);
    let kept = seqs::at_most(all, limit);
    &&& match out.uploads {
        Some(v) => seqs::views(v@) == kept && kept.len() > 0,
        None => kept.len() == 0,
    }
    &&& out.max_uploads == limit
    &&& out.is_truncated == (all.len() > limit)
    &&& match out.next_key_marker {
        Some(t) => out.is_truncated && t@ == kept.last().0,
        None => !out.is_truncated,
    }
}

/// One page of a list of uploads that holds one more where there is one.
fn uploads_page(rows: Vec<(String, String)>, limit: i32, all: Ghost<Seq<(Seq<char>, Seq<char>)>>) -> (r:
    (Option<Vec<(String, String)>>, bool, Option<String>))
    requires
        limit >= 1,
        seqs::views(rows@) == seqs::at_most(all@, limit + 1),
    ensures
        ({
            let kept = seqs::at_most(all@, limit as int);
            &&& match r.0 {
                Some(v) => seqs::views(v@) == kept && kept.len() > 0,
                None => kept.len() == 0,
            }
            &&& r.1 == (all@.len() > limit)
            &&& match r.2 {
                Some(t) => r.1 && t@ == kept.last().0,
                None => !r.1,
            }
        }),
{
    let mut rows = rows;
    let ghost shown = seqs::views(rows@);
    let is_truncated = rows.len() > limit as usize;
    if is_truncated {
        rows.truncate(limit as usize);
        assert(seqs::views(rows@) =~= shown.take(limit as int));
        assert(shown.take(limit as int) =~= all@.take(limit as int));
    }
    assert(seqs::views(rows@) =~= seqs::at_most(all@, limit as int));
    let next = if is_truncated {
        assert(seqs::views(rows@).last() == rows@.last()@);
        Some(rows[rows.len() - 1].0.clone())
    } else {
        None
    };
    let uploads = if rows.len() == 0 {
        None
    } else {
        Some(rows)
    };
    (uploads, is_truncated, next)
}

// ── the range of a copied part ───────────────────────────────────────────────

/// The text of a range behind an optional `bytes=`.
pub open spec fn range_text(s: Seq<char>) -> Seq<char> {
    if "bytes="@.is_prefix_of(s) {
        s.skip("bytes="@.len() as int)
    } else {
        s
    }
}

/// The number that `s` writes, where it fits in 64 bits.
pub open spec fn u64_value(s: Seq<char>) -> Option<u64> {
    match text::decimal_value(s, false) {
        Some(n) => if n <= u64::MAX {
            Some(n as u64)
        } else {
            None
        },
        None => None,
    }
}

/// The first and last byte of a copied range: `first-last`, split at the first `-`; all of
/// the source where there is no range.
pub open spec fn copy_range_answer(
    range: Option<Seq<char>>,
    src_size: i64,
    r: Result<(u64, u64), S3Error>,
) -> bool {
    match range {
        None => {
            let n = src_size as u64;
            r matches Ok(x) && x.0 == 0 && x.1 == (if n > 0 {
                n - 1
            } else {
                0
            })
        },
        Some(s) => {
            let t = range_text(s);
            if !t.contains('-') {
                r matches Err(e) && e@ == s3::told(
                    S3Code::InvalidArgument,
                    "Invalid copy source range"@,
                )
            } else {
                let at = t.index_of_first('-').unwrap();
                match (u64_value(t.take(at)), u64_value(t.skip(at + 1))) {
                    (None, _) => r matches Err(e) && e@ == s3::told(
                        S3Code::InvalidArgument,
                        "Invalid range start"@,
                    ),
                    (Some(_), None) => r matches Err(e) && e@ == s3::told(
                        S3Code::InvalidArgument,
                        "Invalid range end"@,
                    ),
                    (Some(a), Some(b)) => r matches Ok(x) && x.0 == a && x.1 == b,
                }
            }
        },
    }
}

/// The bytes that a part copies out of a source of `src_size` bytes.
pub fn copy_range(range: Option<&str>, src_size: i64) -> (r: Result<(u64, u64), S3Error>)
    ensures
        copy_range_answer(s3::opt(range), src_size, r),
{
    let s = match range {
        None => {
            let n: u64 = src_size as u64;
            let end: u64 = if n > 0 {
                n - 1
            } else {
                0
            };
            return Ok((0, end));
        },
        Some(s) => s,
    };
    let t = match text::text_strip_prefix(s, "bytes=") {
        Some(rest) => rest,
        None => s.to_string(),
    };
    let v = text::chars_of(t.as_str());
    let at: usize = match text::chars_find_char(v.as_slice(), '-', 0) {
        Some(i) => i,
        None => {
            proof {
                if t@.contains('-') {
                    let j = choose|j: int| 0 <= j < t@.len() && t@[j] == '-';
                    assert(v@[j] == '-');
                }
            }
            return Err(
                S3Error::with_message(S3Code::InvalidArgument, "Invalid copy source range"),
            );
        },
    };
    proof {
        assert(t@.contains(v@[at as int]));
        t@.index_of_first_ensures('-');
    }
    let head = text::text_of(v.as_slice(), 0, at);
    let tail = text::text_of(v.as_slice(), at + 1, v.len());
    assert(head@ =~= t@.take(at as int));
    assert(tail@ =~= t@.skip(at + 1));
    let start: u64 = match text::parse_u64(head.as_str()) {
        Some(n) => n,
        None => {
            return Err(S3Error::with_message(S3Code::InvalidArgument, "Invalid range start"));
        },
    };
    match text::parse_u64(tail.as_str()) {
        Some(end) => Ok((start, end)),
        None => Err(S3Error::with_message(S3Code::InvalidArgument, "Invalid range end")),
    }
}

/// Why an upload cannot be started, or put together.
pub open spec fn create_upload_error(
    who: Principal,
    bucket: Seq<char>,
    key: Seq<char>,
) -> Option<ErrorView> {
    s3::denial(who, "s3:PutObject"@, Some(bucket), Some(key))
}

/// Why the uploads of a bucket cannot be listed.
pub open spec fn list_uploads_error(who: Principal, bucket: Seq<char>) -> Option<ErrorView> {
    s3::denial(who, "s3:ListBucketMultipartUploads"@, Some(bucket), None)
}

/// Why the parts of an upload cannot be listed.
pub open spec fn list_parts_error(
    s: StoreView,
    who: Principal,
    bucket: Seq<char>,
    key: Seq<char>,
    upload_id: Seq<char>,
) -> Option<ErrorView> {
    storage::first_of(
        s3::denial(who, "s3:ListMultipartUploadParts"@, Some(bucket), Some(key)),
        upload_error(s, bucket, upload_id),
    )
}

/// Why an upload cannot be given up.
pub open spec fn abort_error(
    who: Principal,
    bucket: Seq<char>,
    key: Seq<char>,
    upload_id: Seq<char>,
) -> Option<ErrorView> {
    storage::first_of(
        s3::denial(who, "s3:AbortMultipartUpload"@, Some(bucket), Some(key)),
        storage::error_if(
            multipart::canonical_uuid(upload_id) is None,
            S3Code::InvalidRequest,
            "Invalid upload id"@,
        ),
    )
}

/// `copy` is the copy of a span of these blocks.
pub open spec fn copies_part(
    s: StoreView,
    upload_id: Seq<char>,
    hashes: Seq<Seq<u8>>,
    span: (u64, u64),
    copy: PartCopy,
) -> bool {
    &&& multipart::canonical_uuid(upload_id) == Some(copy.upload_id@)
    &&& seqs::views(copy.hashes@) == hashes
    &&& copy.sizes@ == storage::sizes_of(s, hashes)
    &&& copy.start == span.0
    &&& copy.end == span.1
}

/// Why a part cannot be copied.
pub open spec fn part_copy_error(
    s: StoreView,
    bucket: Seq<char>,
    upload_id: Seq<char>,
    source: CopySource,
) -> Option<ErrorView> {
    storage::first_of(upload_error(s, bucket, upload_id), storage::source_error(s, source))
}

impl PartCopy {
    /// What to read of the source: block, bytes to skip, bytes to take.
    pub fn slices(&self) -> (r: Vec<(usize, u64, u64)>)
        requires
            ranges::sliceable(self.sizes@, self.start as int, self.end as int),
        ensures
            ranges::slice_views(r@) == ranges::slices(
                self.sizes@,
                self.sizes@.len() as int,
                self.start as int,
                self.end as int,
            ),
            forall|i: int| 0 <= i < r@.len() ==> (#[trigger] r@[i]).0 < self.sizes@.len(),
    {
        ranges::slice_blocks_for_range(self.sizes.as_slice(), self.start, self.end)
    }
}

// ── putting the parts together ───────────────────────────────────────────────

/// `s` without the quotes around it.
pub open spec fn unquoted(s: Seq<char>) -> Seq<char>
    decreases s.len(),
{
    if s.len() > 0 && s[0] == '"' {
        unquoted(s.drop_first())
    } else if s.len() > 0 && s.last() == '"' {
        unquoted(s.drop_last())
    } else {
        s
    }
}

/// The block hashes of the parts, one part after the other.
pub open spec fn all_blocks(parts: Seq<PartInfo>) -> Seq<Seq<u8>>
    decreases parts.len(),
{
    if parts.len() == 0 {
        seq![]
    } else {
        all_blocks(parts.drop_last()) + parts.last().blocks
    }
}

/// The sizes of the parts added up, in 64-bit arithmetic that wraps.
pub open spec fn sum_sizes(parts: Seq<PartInfo>) -> i64
    decreases parts.len(),
{
    if parts.len() == 0 {
        0
    } else {
        sum_sizes(parts.drop_last()).wrapping_add(parts.last().size)
    }
}

/// All etags are hexadecimal.
pub open spec fn readable_etags(parts: Seq<PartInfo>) -> bool {
    forall|i: int| 0 <= i < parts.len() ==> codec::is_hex(unquoted(#[trigger] parts[i].etag))
}

/// The bytes that the etags of the parts stand for, one after the other.
pub open spec fn etag_bytes(parts: Seq<PartInfo>) -> Seq<u8>
    decreases parts.len(),
{
    if parts.len() == 0 {
        seq![]
    } else {
        etag_bytes(parts.drop_last()) + codec::hex_bytes(unquoted(parts.last().etag))
    }
}

/// The etag of an object of `blocks` blocks that was made of parts, where `digest` is the MD5
/// digest of the digests of the parts.
pub open spec fn counted_etag(digest: Seq<u8>, blocks: nat) -> Seq<char> {
    codec::hex_text(digest) + "-"@ + text::decimal_text(blocks)
}

/// The etag of an object made of parts.
pub open spec fn combined_etag(parts: Seq<PartInfo>) -> Seq<char> {
    counted_etag(digest::md5_digest(etag_bytes(parts)), all_blocks(parts).len())
}

/// The etag of an object of `blocks` blocks that was made of parts.
pub fn counted_etag_text(digest: &[u8; 16], blocks: usize) -> (r: String)
    ensures
        r@ == counted_etag(digest@, blocks as nat),
{
    let mut etag = upload::etag_text(digest);
    text::push_text(&mut etag, "-");
    text::push_decimal(&mut etag, blocks as u64);
    etag
}

fn unquote(s: &str) -> (r: String)
    ensures
        r@ == unquoted(s@),
{
    let v = text::chars_of(s);
    let mut a: usize = 0;
    let mut b: usize = v.len();
    assert(v@.subrange(0, v@.len() as int) =~= s@);
    while a < b && v[a] == '"'
        invariant
            a <= b == v@.len(),
            unquoted(v@.subrange(a as int, b as int)) == unquoted(s@),
        decreases b - a,
    {
        assert(v@.subrange(a as int, b as int).drop_first() =~= v@.subrange(a + 1, b as int));
        a += 1;
    }
    while b > a && v[b - 1] == '"'
        invariant
            a <= b <= v@.len(),
            a < v@.len() ==> v@[a as int] != '"',
            a < b ==> v@[a as int] != '"',
            unquoted(v@.subrange(a as int, b as int)) == unquoted(s@),
        decreases b - a,
    {
        assert(v@.subrange(a as int, b as int).drop_last() =~= v@.subrange(a as int, b - 1));
        b -= 1;
    }
    text::text_of(v.as_slice(), a, b)
}

/// The block hashes, size and etag of the object that the parts make up; nothing where the
/// etag of a part cannot be read.
pub fn assemble(parts: Vec<PartTuple>) -> (r: Option<(Vec<Vec<u8>>, i64, String)>)
    ensures
        ({
            let all = multipart::part_infos(parts@);
            &&& r is Some == readable_etags(all)
            &&& r matches Some(x) ==> {
                &&& seqs::views(x.0@) == all_blocks(all)
                &&& x.1 == sum_sizes(all)
                &&& x.2@ == combined_etag(all)
            }
        }),
{
    let ghost all = multipart::part_infos(parts@);
    let mut hashes: Vec<Vec<u8>> = Vec::new();
    let mut total: i64 = 0;
    let mut md5 = digest::md5_start();
    let mut i: usize = 0;
    assert(seqs::views(hashes@) =~= all_blocks(all.take(0)));
    assert(sum_sizes(all.take(0)) == 0);
    assert(digest::md5_input(md5) =~= etag_bytes(all.take(0)));
    while i < parts.len()
        invariant
            i <= parts@.len(),
            all == multipart::part_infos(parts@),
            forall|j: int| 0 <= j < i ==> codec::is_hex(unquoted(#[trigger] all[j].etag)),
            seqs::views(hashes@) == all_blocks(all.take(i as int)),
            total == sum_sizes(all.take(i as int)),
            digest::md5_input(md5) == etag_bytes(all.take(i as int)),
        decreases parts@.len() - i,
    {
        let part = &parts[i];
        proof {
            assert(all[i as int] == multipart::part_info(*part));
            assert(all.take(i + 1).drop_last() =~= all.take(i as int));
            assert(all.take(i + 1).last() == all[i as int]);
        }
        let mut copy = storage::copy_hashes(&part.1);
        let ghost before = hashes@;
        let ghost more = copy@;
        hashes.append(&mut copy);
        assert(seqs::views(hashes@) =~= seqs::views(before) + seqs::views(more));
        total = total.wrapping_add(part.2);
        let plain = unquote(part.3.as_str());
        match codec::hex_decode(plain.as_str()) {
            Some(bytes) => {
                digest::md5_update(&mut md5, bytes.as_slice());
            },
            None => {
                assert(!codec::is_hex(unquoted(all[i as int].etag)));
                return None;
            },
        }
        i += 1;
    }
    assert(all.take(all.len() as int) =~= all);
    let etag = counted_etag_text(&digest::md5_finish(md5), hashes.len());
    assert(seqs::views(hashes@).len() == hashes@.len());
    Some((hashes, total, etag))
}

/// The parts of an upload, in order.
pub open spec fn upload_parts(s: StoreView, bucket: Seq<char>, id: Seq<char>) -> Seq<PartInfo> {
    multipart::parts_of(s.parts, bucket, id)
}

/// The store without an upload and its parts.
pub open spec fn upload_gone(s: StoreView, bucket: Seq<char>, id: Seq<char>) -> StoreView {
    StoreView {
        uploads: s.uploads.remove((bucket, id)),
        parts: multipart::without_parts(s.parts, bucket, id),
        ..s
    }
}

impl StorageBackend {
    // ── CreateMultipartUpload ────────────────────────────────────────────────

    /// CreateMultipartUpload: starts an upload under a new random id.
    pub fn create_multipart_upload(&mut self, who: &Principal, bucket: &str, key: &str) -> (r:
        Result<String, S3Error>)
        ensures
            final(self).config == old(self).config,
            final(self).disk_guard == old(self).disk_guard,
            final(self).db.clock == old(self).db.clock,
            s3::fails_with(r, create_upload_error(*who, bucket@, key@)),
            r is Err ==> final(self).db@ == old(self).db@,
            r matches Ok(id) ==> multipart::canonical_uuid(id@) == Some(id@) && final(self).db@
                == multipart::with_upload(old(self).db@, bucket@, id@, key@),
    {
        match s3::authorize(who, "s3:PutObject", Some(bucket), Some(key)) {
            Err(e) => {
                return Err(e);
            },
            Ok(()) => {},
        }
        let id = multipart::random_uuid();
        self.db.insert_multipart(bucket, id.as_str(), key);
        Ok(id)
    }

    // ── UploadPart ───────────────────────────────────────────────────────────

    /// Why a part cannot be uploaded.
    pub open spec fn part_error(
        self,
        who: Principal,
        bucket: Seq<char>,
        key: Seq<char>,
        upload_id: Seq<char>,
        has_body: bool,
    ) -> Option<ErrorView> {
        storage::first_of(
            s3::denial(who, "s3:PutObject"@, Some(bucket), Some(key)),
            storage::first_of(
                s3::refusal(self.disk_guard),
                storage::first_of(
                    upload_error(self.db@, bucket, upload_id),
                    storage::error_if(!has_body, S3Code::InvalidRequest, "Missing body"@),
                ),
            ),
        )
    }

    /// Why a part cannot be copied, whatever the range.
    pub open spec fn early_copy_error(
        self,
        who: Principal,
        bucket: Seq<char>,
        key: Seq<char>,
        upload_id: Seq<char>,
        source: CopySource,
    ) -> Option<ErrorView> {
        storage::first_of(
            s3::denial(who, "s3:PutObject"@, Some(bucket), Some(key)),
            storage::first_of(
                s3::refusal(self.disk_guard),
                part_copy_error(self.db@, bucket, upload_id, source),
            ),
        )
    }

    /// Begins UploadPart: gives the id of the upload and the upload to feed the body to.
    pub fn begin_upload_part(
        &self,
        who: &Principal,
        bucket: &str,
        key: &str,
        upload_id: &str,
        has_body: bool,
    ) -> (r: Result<(String, Upload), S3Error>)
        ensures
            s3::fails_with(
                r,
                self.part_error(*who, bucket@, key@, upload_id@, has_body),
            ),
            r matches Ok((id, u)) ==> {
                &&& multipart::canonical_uuid(upload_id@) == Some(id@)
                &&& u.wf()
                &&& u.scheme() == self.scheme()
                &&& u.input() == Seq::<u8>::empty()
                &&& u.handed_out() == Seq::<Seq<u8>>::empty()
                &&& u.waiting() == Seq::<u8>::empty()
            },
    {
        match s3::authorize(who, "s3:PutObject", Some(bucket), Some(key)) {
            Err(e) => {
                return Err(e);
            },
            Ok(()) => {},
        }
        match s3::check_writable(&self.disk_guard) {
            Err(e) => {
                return Err(e);
            },
            Ok(()) => {},
        }
        let id = match find_upload(&self.db, bucket, upload_id) {
            Ok((id, _)) => id,
            Err(e) => {
                return Err(e);
            },
        };
        if !has_body {
            return Err(S3Error::with_message(S3Code::InvalidRequest, "Missing body"));
        }
        Ok((id, self.start_upload()))
    }

    /// Ends UploadPart or UploadPartCopy: records the part, and gives its quoted etag.
    pub fn finish_upload_part(
        &mut self,
        bucket: &str,
        upload_id: &str,
        part_number: i32,
        hashes: Vec<Vec<u8>>,
        total_size: i64,
        etag: &str,
    ) -> (r: String)
        ensures
            final(self).config == old(self).config,
            final(self).disk_guard == old(self).disk_guard,
            final(self).db.clock == old(self).db.clock,
            r@ == s3::quoted(etag@),
            final(self).db@ == multipart::with_part(
                old(self).db@,
                bucket@,
                upload_id@,
                part_number,
                seqs::views(hashes@),
                total_size,
                etag@,
            ),
    {
        self.db.insert_part(bucket, upload_id, part_number, hashes, total_size, etag);
        s3::quote(etag)
    }

    // ── UploadPartCopy ───────────────────────────────────────────────────────

    /// Begins UploadPartCopy: gives what to read of the source, and the upload to feed it to.
    pub fn begin_upload_part_copy(
        &self,
        who: &Principal,
        bucket: &str,
        key: &str,
        upload_id: &str,
        source: &CopySource,
        range: Option<&str>,
    ) -> (r: Result<(PartCopy, Upload), S3Error>)
        ensures
            ({
                let early = self.early_copy_error(*who, bucket@, key@, upload_id@, *source);
                let row = self.db@.objects[storage::source_key(*source)];
                let hashes = store::decoded(row.blocks);
                match early {
                    Some(x) => r matches Err(e) && e@ == x,
                    None => exists|q: Result<(u64, u64), S3Error>| #[trigger]
                        copy_range_answer(s3::opt(range), row.size, q) && match q {
                            Err(x) => r matches Err(e) && e@ == x@,
                            Ok(span) => r matches Ok((copy, u)) && {
                                &&& copies_part(self.db@, upload_id@, hashes, span, copy)
                                &&& u.wf()
                                &&& u.scheme() == self.scheme()
                                &&& u.input() == Seq::<u8>::empty()
                                &&& u.handed_out() == Seq::<Seq<u8>>::empty()
                                &&& u.waiting() == Seq::<u8>::empty()
                            },
                        },
                }
            }),
    {
        match s3::authorize(who, "s3:PutObject", Some(bucket), Some(key)) {
            Err(e) => {
                return Err(e);
            },
            Ok(()) => {},
        }
        match s3::check_writable(&self.disk_guard) {
            Err(e) => {
                return Err(e);
            },
            Ok(()) => {},
        }
        let id = match find_upload(&self.db, bucket, upload_id) {
            Ok((id, _)) => id,
            Err(e) => {
                return Err(e);
            },
        };
        let (hashes, src_size, _) = match storage::find_source(&self.db, source) {
            Ok(found) => found,
            Err(e) => {
                return Err(e);
            },
        };
        let span = copy_range(range, src_size);
        let ghost q = span;
        assert(copy_range_answer(s3::opt(range), src_size, q));
        let (start, end) = match span {
            Ok(span) => span,
            Err(e) => {
                return Err(e);
            },
        };
        let sizes = self.db.block_sizes(&hashes);
        assert(sizes@ =~= storage::sizes_of(self.db@, seqs::views(hashes@)));
        Ok((PartCopy { upload_id: id, hashes, sizes, start, end }, self.start_upload()))
    }

    // ── ListParts, ListMultipartUploads ──────────────────────────────────────

    /// ListParts.
    pub fn list_parts(
        &self,
        who: &Principal,
        bucket: &str,
        key: &str,
        upload_id: &str,
        part_number_marker: Option<&str>,
        max_parts: Option<i32>,
    ) -> (r: Result<PartsOutput, S3Error>)
        ensures
            s3::fails_with(
                r,
                list_parts_error(self.db@, *who, bucket@, key@, upload_id@),
            ),
            r matches Ok(out) ==> parts_answer(
                upload_parts(
                    self.db@,
                    bucket@,
                    multipart::canonical_uuid(upload_id@).unwrap(),
                ),
                s3::opt(part_number_marker),
                max_parts,
                out,
            ),
    {
        match s3::authorize(who, "s3:ListMultipartUploadParts", Some(bucket), Some(key)) {
            Err(e) => {
                return Err(e);
            },
            Ok(()) => {},
        }
        match find_upload(&self.db, bucket, upload_id) {
            Ok((id, _)) => {
                let parts = self.db.list_parts(bucket, id.as_str());
                Ok(parts_page(&parts, part_number_marker, max_parts))
            },
            Err(e) => Err(e),
        }
    }

    /// ListMultipartUploads.
    pub fn list_multipart_uploads(
        &self,
        who: &Principal,
        bucket: &str,
        prefix: Option<&str>,
        key_marker: Option<&str>,
        max_uploads: Option<i32>,
    ) -> (r: Result<UploadsOutput, S3Error>)
        ensures
            s3::fails_with(r, list_uploads_error(*who, bucket@)),
            r matches Ok(out) ==> uploads_answer(
                multipart::upload_listing(
                    self.db@.uploads,
                    bucket@,
                    s3::opt(prefix),
                    s3::opt(key_marker),
                ).map_values(multipart::listed_upload()),
                max_uploads,
                out,
            ),
    {
        match s3::authorize(who, "s3:ListBucketMultipartUploads", Some(bucket), None) {
            Err(e) => {
                return Err(e);
            },
            Ok(()) => {},
        }
        let limit: i32 = storage::limit_of(max_uploads);
        let rows = self.db.list_multipart_uploads(bucket, prefix, key_marker, limit as usize);
        let ghost sorted = multipart::upload_listing(
            self.db@.uploads,
            bucket@,
            listing::opt_text(prefix),
            listing::opt_text(key_marker),
        );
        let ghost all = sorted.map_values(multipart::listed_upload());
        assert(seqs::at_most(sorted, limit + 1).map_values(multipart::listed_upload())
            =~= seqs::at_most(all, limit + 1));
        let (uploads, is_truncated, next_key_marker) = uploads_page(rows, limit, Ghost(all));
        Ok(UploadsOutput { uploads, max_uploads: limit, is_truncated, next_key_marker })
    }

    // ── CompleteMultipartUpload, AbortMultipartUpload ────────────────────────

    /// Why the upload under `id` cannot be completed.
    pub open spec fn complete_error(
        self,
        bucket: Seq<char>,
        key: Seq<char>,
        id: Option<Seq<char>>,
    ) -> Option<ErrorView> {
        storage::first_of(
            missing_upload(self.db@, bucket, id),
            storage::first_of(
                storage::error_if(
                    self.db@.uploads[(bucket, id.unwrap())] != key,
                    S3Code::InvalidRequest,
                    "Key in request does not match key for this upload"@,
                ),
                storage::first_of(
                    storage::error_if(
                        !readable_etags(upload_parts(self.db@, bucket, id.unwrap())),
                        S3Code::InternalError,
                        "Invalid part etag"@,
                    ),
                    if self.db@.last_seq == i64::MAX {
                        Some(s3::internal(StoreError::LogFull))
                    } else {
                        None
                    },
                ),
            ),
        )
    }

    /// Completing the upload `id`, which the request calls `upload_id`, leads from `before` to
    /// the store of `self`, with answer `out`.
    pub open spec fn completed(
        self,
        before: StoreView,
        bucket: Seq<char>,
        key: Seq<char>,
        upload_id: Seq<char>,
        id: Seq<char>,
        ts: i64,
        out: CompleteOutput,
    ) -> bool {
        let parts = upload_parts(before, bucket, id);
        let hashes = all_blocks(parts);
        &&& self.db@ == upload_gone(
            before.object_inserted(
                bucket,
                hashing::shard_of(key),
                key,
                hashes,
                sum_sizes(parts),
                combined_etag(parts),
                ts,
            ),
            bucket,
            id,
        )
        &&& out.e_tag@ == s3::quoted(combined_etag(parts))
        &&& storage::refers(before, bucket, key, out.released)
        &&& out.taken.ref_id@ == s3::object_ref(bucket, key)
        &&& seqs::views(out.taken.hashes@) == hashes
        &&& out.dropped.ref_id@ == s3::upload_ref(bucket, upload_id)
        &&& seqs::views(out.dropped.hashes@) == hashes
    }

    /// CompleteMultipartUpload at time `ts`: the parts, in the order of their numbers, become
    /// the object, and the upload is gone.
    pub fn complete_multipart_upload_at(
        &mut self,
        who: &Principal,
        bucket: &str,
        key: &str,
        upload_id: &str,
        ts: i64,
    ) -> (r: Result<CompleteOutput, S3Error>)
        ensures
            final(self).config == old(self).config,
            final(self).disk_guard == old(self).disk_guard,
            final(self).db.clock == old(self).db.clock,
            s3::fails_with(
                r,
                storage::first_of(
                    create_upload_error(*who, bucket@, key@),
                    old(self).complete_error(bucket@, key@, multipart::canonical_uuid(upload_id@)),
                ),
            ),
            r is Err ==> final(self).db@ == old(self).db@,
            r matches Ok(out) ==> final(self).completed(
                old(self).db@,
                bucket@,
                key@,
                upload_id@,
                multipart::canonical_uuid(upload_id@).unwrap(),
                ts,
                out,
            ),
    {
        match s3::authorize(who, "s3:PutObject", Some(bucket), Some(key)) {
            Err(e) => {
                return Err(e);
            },
            Ok(()) => {},
        }
        self.complete_known_upload_at(bucket, key, upload_id, multipart::parse_upload_id(upload_id), ts)
    }

    /// CompleteMultipartUpload, at the time of the cluster clock.
    pub fn complete_multipart_upload(
        &mut self,
        who: &Principal,
        bucket: &str,
        key: &str,
        upload_id: &str,
    ) -> (r: Result<CompleteOutput, S3Error>)
        ensures
            final(self).config == old(self).config,
            final(self).disk_guard == old(self).disk_guard,
            final(self).db.clock == old(self).db.clock,
            s3::fails_with(
                r,
                storage::first_of(
                    create_upload_error(*who, bucket@, key@),
                    old(self).complete_error(bucket@, key@, multipart::canonical_uuid(upload_id@)),
                ),
            ),
            r is Err ==> final(self).db@ == old(self).db@,
            r matches Ok(out) ==> exists|t: SystemTime|
                final(self).completed(
                    old(self).db@,
                    bucket@,
                    key@,
                    upload_id@,
                    multipart::canonical_uuid(upload_id@).unwrap(),
                    #[trigger] old(self).db.clock.micros(t),
                    out,
                ),
    {
        let ts: i64 = self.db.clock.now_micros();
        self.complete_multipart_upload_at(who, bucket, key, upload_id, ts)
    }

    /// Completes the upload `id`, which the request calls `upload_id`.
    pub fn complete_known_upload_at(
        &mut self,
        bucket: &str,
        key: &str,
        upload_id: &str,
        id: Option<String>,
        ts: i64,
    ) -> (r: Result<CompleteOutput, S3Error>)
        ensures
            final(self).config == old(self).config,
            final(self).disk_guard == old(self).disk_guard,
            final(self).db.clock == old(self).db.clock,
            s3::fails_with(r, old(self).complete_error(bucket@, key@, opt_id(id))),
            r is Err ==> final(self).db@ == old(self).db@,
            r matches Ok(out) ==> final(self).completed(
                old(self).db@,
                bucket@,
                key@,
                upload_id@,
                opt_id(id).unwrap(),
                ts,
                out,
            ),
    {
        let (id, stored_key) = match known_upload(&self.db, bucket, id) {
            Ok(found) => found,
            Err(e) => {
                return Err(e);
            },
        };
        if !text::same_text(stored_key.as_str(), key) {
            return Err(
                S3Error::with_message(
                    S3Code::InvalidRequest,
                    "Key in request does not match key for this upload",
                ),
            );
        }
        let (hashes, total, etag) = match assemble(self.db.list_parts(bucket, id.as_str())) {
            Some(found) => found,
            None => {
                return Err(S3Error::with_message(S3Code::InternalError, "Invalid part etag"));
            },
        };
        let released = self.object_references(bucket, key);
        let taken = References {
            ref_id: s3::object_ref_id(bucket, key),
            hashes: storage::copy_hashes(&hashes),
        };
        let dropped = References {
            ref_id: s3::upload_ref_id(bucket, upload_id),
            hashes: storage::copy_hashes(&hashes),
        };
        let shard_id: i32 = hashing::compute_shard_id(key);
        match self.db.insert_object_at(bucket, shard_id, key, hashes, total, etag.as_str(), ts) {
            Ok(()) => {},
            Err(e) => {
                return Err(s3::internal_error(e));
            },
        }
        self.db.delete_multipart_upload(bucket, id.as_str());
        Ok(CompleteOutput { e_tag: s3::quote(etag.as_str()), released, taken, dropped })
    }

    /// AbortMultipartUpload: forgets the upload and its parts. Aborting what is not there
    /// succeeds.
    pub fn abort_multipart_upload(
        &mut self,
        who: &Principal,
        bucket: &str,
        key: &str,
        upload_id: &str,
    ) -> (r: Result<(), S3Error>)
        ensures
            final(self).config == old(self).config,
            final(self).disk_guard == old(self).disk_guard,
            final(self).db.clock == old(self).db.clock,
            s3::fails_with(
                r,
                abort_error(*who, bucket@, key@, upload_id@),
            ),
            final(self).db@ == (if r is Ok {
                upload_gone(
                    old(self).db@,
                    bucket@,
                    multipart::canonical_uuid(upload_id@).unwrap(),
                )
            } else {
                old(self).db@
            }),
    {
        match s3::authorize(who, "s3:AbortMultipartUpload", Some(bucket), Some(key)) {
            Err(e) => {
                return Err(e);
            },
            Ok(()) => {},
        }
        match multipart::parse_upload_id(upload_id) {
            Some(id) => {
                self.db.delete_multipart_upload(bucket, id.as_str());
                Ok(())
            },
            None => Err(S3Error::with_message(S3Code::InvalidRequest, "Invalid upload id")),
        }
    }
}

} // verus!
