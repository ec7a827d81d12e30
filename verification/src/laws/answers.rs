//! What the requests of the S3 front are answered.

use vstd::prelude::*;

use crate::hashing;
use crate::laws::access::is_there;
use crate::laws::collection::hash_at;
use crate::laws::writes;
use crate::multipart;
use crate::parts;
use crate::parts::CompleteOutput;
use crate::parts::PartCopy;
use crate::s3;
use crate::s3::ErrorView;
use crate::s3::Principal;
use crate::s3::References;
use crate::s3::S3Code;
use crate::seqs;
use crate::storage;
use crate::storage::CopyOutput;
use crate::storage::CopySource;
use crate::storage::DeleteOutput;
use crate::storage::HeadOutput;
use crate::storage::PutOutput;
use crate::storage::StorageBackend;
use crate::store;
use crate::store::StoreView;

verus! {

/// `r` are the blocks of the object under a key, in order and under its name; there are none where
/// there is no such object.
pub open spec fn are_blocks_of(
    s: StoreView,
    bucket: Seq<char>,
    key: Seq<char>,
    r: Option<References>,
) -> bool {
    let k = (bucket, key);
    match r {
        None => !is_there(s.objects, k),
        Some(x) => {
            let raw = s.objects[k].blocks;
            &&& is_there(s.objects, k)
            &&& x.ref_id@ == "obj:"@ + bucket + ":"@ + key
            &&& x.hashes@.len() == raw.len() / 32
            &&& forall|i: int|
                0 <= i < x.hashes@.len() ==> (#[trigger] x.hashes@[i])@ == hash_at(raw, i)
        },
    }
}

proof fn lemma_refers(s: StoreView, bucket: Seq<char>, key: Seq<char>, r: Option<References>)
    requires
        storage::refers(s, bucket, key, r),
    ensures
        are_blocks_of(s, bucket, key, r),
{
    if let Some(x) = r {
        let raw = s.objects[(bucket, key)].blocks;
        let views = seqs::views(x.hashes@);
        assert(views.len() == x.hashes@.len());
        assert forall|i: int| 0 <= i < x.hashes@.len() implies (#[trigger] x.hashes@[i])@ == hash_at(
            raw,
            i,
        ) by {
            assert(views[i] == x.hashes@[i]@);
        }
    }
}

/// A write is answered with the etag in quotes, and releases what the object was made of before.
pub proof fn lemma_put_answer(
    s: StoreView,
    bucket: Seq<char>,
    key: Seq<char>,
    etag: Seq<char>,
    out: PutOutput,
)
    requires
        storage::put_answer(s, bucket, key, etag, out),
    ensures
        out.e_tag@ == "\""@ + etag + "\""@,
        are_blocks_of(s, bucket, key, out.released),
{
    lemma_refers(s, bucket, key, out.released);
}

/// A look at an object tells its size and its etag, and fails where there is no right or no object.
pub proof fn lemma_head_answer(
    s: StoreView,
    who: Principal,
    bucket: Seq<char>,
    key: Seq<char>,
    out: HeadOutput,
)
    ensures
        storage::head_answer(s, bucket, key, out) ==> out.content_length == s.objects[(
            bucket,
            key,
        )].size && out.e_tag@ == "\""@ + s.objects[(bucket, key)].etag + "\""@,
        ({
            let denied = s3::denial(who, "s3:HeadObject"@, Some(bucket), Some(key));
            storage::head_error(s, who, bucket, key) == if denied is Some {
                denied
            } else if is_there(s.objects, (bucket, key)) {
                None
            } else {
                Some(ErrorView { code: S3Code::NoSuchKey, message: Some("Not found"@) })
            }
        }),
{
}

/// A deletion fails where there is no right, or no room in the log.
pub proof fn lemma_delete_refused(
    s: StoreView,
    who: Principal,
    bucket: Seq<char>,
    key: Seq<char>,
)
    ensures
        ({
            let denied = s3::denial(who, "s3:DeleteObject"@, Some(bucket), Some(key));
            storage::delete_error(s, who, bucket, key) == if denied is Some {
                denied
            } else if s.last_seq < i64::MAX {
                None
            } else {
                Some(
                    ErrorView {
                        code: S3Code::InternalError,
                        message: Some("fact log is full"@),
                    },
                )
            }
        }),
{
}

/// Every key of a batch is answered once: as deleted while the log has room, as an error after
/// that.
pub proof fn lemma_batch_answer(s: StoreView, keys: Seq<Seq<char>>, out: DeleteOutput)
    requires
        storage::batch_answer(s, keys, out),
    ensures
        ({
            let n = writes::room(s, keys.len());
            &&& out.deleted@.len() == n
            &&& out.deleted@.len() + out.errors@.len() == keys.len()
            &&& forall|i: int| 0 <= i < n ==> (#[trigger] out.deleted@[i])@ == keys[i]
            &&& forall|i: int|
                0 <= i < out.errors@.len() ==> (#[trigger] out.errors@[i]).0@ == keys[n + i]
                    && out.errors@[i].1@ == "fact log is full"@
        }),
{
    let n = writes::room(s, keys.len());
    let done = seqs::views(out.deleted@);
    let bad = seqs::views(out.errors@);
    assert(0 <= n <= keys.len());
    assert(done.len() == out.deleted@.len());
    assert(bad.len() == out.errors@.len());
    assert forall|i: int| 0 <= i < n implies (#[trigger] out.deleted@[i])@ == keys[i] by {
        assert(done[i] == out.deleted@[i]@);
    }
    assert forall|i: int| 0 <= i < out.errors@.len() implies (#[trigger] out.errors@[i]).0@
        == keys[n + i] && out.errors@[i].1@ == "fact log is full"@ by {
        assert(bad[i] == out.errors@[i]@);
        assert(keys.skip(n)[i] == keys[n + i]);
    }
}

/// A batch is one deletion after the other, in the order of the keys, while the log has room.
pub proof fn lemma_batch_steps(
    s: StoreView,
    bucket: Seq<char>,
    keys: Seq<Seq<char>>,
    key: Seq<char>,
    ts: i64,
)
    ensures
        storage::after_deletes(s, bucket, seq![], ts) == s,
        ({
            let t = storage::after_deletes(s, bucket, keys, ts);
            storage::after_deletes(s, bucket, keys.push(key), ts) == if t.last_seq < i64::MAX {
                t.object_deleted(bucket, key, ts)
            } else {
                t
            }
        }),
{
    assert(keys.push(key).drop_last() =~= keys);
}

/// A listing goes on behind the token of the page before, where there is one.
pub proof fn lemma_list_cursor(token: Seq<char>, start: Option<Seq<char>>)
    ensures
        storage::cursor_of(Some(token), start) == Some(token),
        storage::cursor_of(None, start) == start,
{
}

/// A copy has the blocks, the size and the etag of its source; the source and every other object
/// stay. It is answered with that etag, takes up the blocks of the source, and releases what was
/// there before.
pub proof fn lemma_copied(
    s: StoreView,
    bucket: Seq<char>,
    key: Seq<char>,
    from: String,
    name: String,
    ts: i64,
    out: CopyOutput,
)
    requires
        s.last_seq < i64::MAX,
        is_there(s.objects, (from@, name@)),
        s.objects[(from@, name@)].blocks.len() % 32 == 0,
        writes::overtakes(s.objects, (bucket, key), ts),
        storage::copy_answer(
            s,
            bucket,
            key,
            CopySource::Bucket { bucket: from, key: name },
            out,
        ),
    ensures
        ({
            let k = (bucket, key);
            let row = s.objects[(from@, name@)];
            let t = storage::copied(
                s,
                bucket,
                key,
                CopySource::Bucket { bucket: from, key: name },
                ts,
            );
            &&& is_there(t.objects, k)
            &&& t.objects[k].blocks == row.blocks
            &&& t.objects[k].size == row.size
            &&& t.objects[k].etag == row.etag
            &&& t.objects[k].updated_at == ts
            &&& writes::same_but(s.objects, t.objects, k)
            &&& t == (StoreView { objects: t.objects, log: t.log, last_seq: t.last_seq, ..s })
            &&& out.e_tag@ == "\""@ + row.etag + "\""@
            &&& are_blocks_of(s, bucket, key, out.released)
            &&& out.taken.ref_id@ == "obj:"@ + bucket + ":"@ + key
            &&& out.taken.hashes@.len() == row.blocks.len() / 32
            &&& forall|i: int|
                0 <= i < out.taken.hashes@.len() ==> (#[trigger] out.taken.hashes@[i])@ == hash_at(
                    row.blocks,
                    i,
                )
        }),
{
    let k = (bucket, key);
    let row = s.objects[(from@, name@)];
    let source = CopySource::Bucket { bucket: from, key: name };
    let t = storage::copied(s, bucket, key, source, ts);
    let hashes = store::decoded(row.blocks);
    lemma_refers(s, bucket, key, out.released);
    assert forall|i: int| 0 <= i < hashes.len() implies (#[trigger] hashes[i]).len() == 32 by {
        writes::lemma_decoded(row.blocks, i);
    }
    writes::lemma_put(
        s,
        bucket,
        crate::hashing::shard_of(key),
        key,
        hashes,
        row.size,
        row.etag,
        ts,
    );
    let views = seqs::views(out.taken.hashes@);
    assert(views.len() == out.taken.hashes@.len());
    assert forall|i: int| 0 <= i < out.taken.hashes@.len() implies (
    #[trigger] out.taken.hashes@[i])@ == hash_at(row.blocks, i) by {
        assert(views[i] == out.taken.hashes@[i]@);
        writes::lemma_decoded(row.blocks, i);
    }
    let n = hashes.len();
    let new = t.objects[k].blocks;
    assert(new.len() == 32 * n);
    assert(row.blocks.len() == 32 * n);
    assert(new =~= row.blocks) by {
        assert forall|x: int| 0 <= x < new.len() implies new[x] == row.blocks[x] by {
            let i = x / 32;
            assert(0 <= i < n);
            assert(hash_at(new, i) == hashes[i]);
            writes::lemma_decoded(row.blocks, i);
            assert(hash_at(new, i)[x - 32 * i] == new[x]);
            assert(hash_at(row.blocks, i)[x - 32 * i] == row.blocks[x]);
        }
    }
}

// ── uploads in parts ─────────────────────────────────────────────────────────

/// A part is refused for want of a right first, then for want of room, of an upload, of a body.
pub proof fn lemma_part_refused(
    b: StorageBackend,
    who: Principal,
    bucket: Seq<char>,
    key: Seq<char>,
    upload_id: Seq<char>,
    has_body: bool,
)
    ensures
        ({
            let denied = s3::denial(who, "s3:PutObject"@, Some(bucket), Some(key));
            let refused = s3::refusal(b.disk_guard);
            let missing = parts::upload_error(b.db@, bucket, upload_id);
            b.part_error(who, bucket, key, upload_id, has_body) == if denied is Some {
                denied
            } else if refused is Some {
                refused
            } else if missing is Some {
                missing
            } else if has_body {
                None
            } else {
                Some(
                    ErrorView { code: S3Code::InvalidRequest, message: Some("Missing body"@) },
                )
            }
        }),
{
}

/// A copy into a part is refused for want of a right first, then for want of room, of an upload, of
/// a source.
pub proof fn lemma_early_copy_refused(
    b: StorageBackend,
    who: Principal,
    bucket: Seq<char>,
    key: Seq<char>,
    upload_id: Seq<char>,
    source: CopySource,
)
    ensures
        ({
            let denied = s3::denial(who, "s3:PutObject"@, Some(bucket), Some(key));
            let refused = s3::refusal(b.disk_guard);
            b.early_copy_error(who, bucket, key, upload_id, source) == if denied is Some {
                denied
            } else if refused is Some {
                refused
            } else {
                parts::part_copy_error(b.db@, bucket, upload_id, source)
            }
        }),
{
}

/// The parts of an upload are shown, and an upload is given up, only to those who may; an upload is
/// given up by any id that can be read.
pub proof fn lemma_uploads_refused(
    s: StoreView,
    who: Principal,
    bucket: Seq<char>,
    key: Seq<char>,
    upload_id: Seq<char>,
)
    ensures
        ({
            let denied = s3::denial(who, "s3:ListMultipartUploadParts"@, Some(bucket), Some(key));
            parts::list_parts_error(s, who, bucket, key, upload_id) == if denied is Some {
                denied
            } else {
                parts::upload_error(s, bucket, upload_id)
            }
        }),
        ({
            let denied = s3::denial(who, "s3:AbortMultipartUpload"@, Some(bucket), Some(key));
            parts::abort_error(who, bucket, key, upload_id) == if denied is Some {
                denied
            } else if multipart::canonical_uuid(upload_id) is Some {
                None
            } else {
                Some(
                    ErrorView {
                        code: S3Code::InvalidRequest,
                        message: Some("Invalid upload id"@),
                    },
                )
            }
        }),
{
}

/// A part is kept under its upload and its number, with its blocks in order, its size and its etag;
/// a part of the same number is replaced, and no other part changes.
pub proof fn lemma_part_stored(
    s: StoreView,
    bucket: Seq<char>,
    upload_id: Seq<char>,
    number: i32,
    hashes: Seq<Seq<u8>>,
    size: i64,
    etag: Seq<char>,
    other: ((Seq<char>, Seq<char>), i32),
)
    requires
        forall|i: int| 0 <= i < hashes.len() ==> (#[trigger] hashes[i]).len() == 32,
    ensures
        ({
            let t = multipart::with_part(s, bucket, upload_id, number, hashes, size, etag);
            let k = ((bucket, upload_id), number);
            &&& t.parts.dom().contains(k)
            &&& t.parts[k].size == size
            &&& t.parts[k].etag == etag
            &&& t.parts[k].blocks.len() == 32 * hashes.len()
            &&& forall|i: int|
                0 <= i < hashes.len() ==> #[trigger] hash_at(t.parts[k].blocks, i) == hashes[i]
            &&& other != k ==> t.parts.dom().contains(other) == s.parts.dom().contains(other) && (
            s.parts.dom().contains(other) ==> t.parts[other] == s.parts[other])
            &&& t == (StoreView { parts: t.parts, ..s })
        }),
{
    // The blocks of an object are kept in the same way.
    let blank = StoreView { objects: Map::empty(), last_seq: 0, ..s };
    writes::lemma_put(blank, bucket, 0, upload_id, hashes, size, etag, 0);
}

/// An upload that is put together hands its blocks over from the upload to the object, and releases
/// what the object was made of before.
pub proof fn lemma_complete_answer(
    b: StorageBackend,
    s: StoreView,
    bucket: Seq<char>,
    key: Seq<char>,
    upload_id: Seq<char>,
    id: Seq<char>,
    ts: i64,
    out: CompleteOutput,
)
    requires
        b.completed(s, bucket, key, upload_id, id, ts, out),
    ensures
        are_blocks_of(s, bucket, key, out.released),
        out.taken.ref_id@ == "obj:"@ + bucket + ":"@ + key,
        out.dropped.ref_id@ == "upload:"@ + bucket + ":"@ + upload_id,
        seqs::views(out.taken.hashes@) == seqs::views(out.dropped.hashes@),
        out.taken.hashes@.len() == parts::all_blocks(parts::upload_parts(s, bucket, id)).len(),
{
    lemma_refers(s, bucket, key, out.released);
    assert(seqs::views(out.taken.hashes@).len() == out.taken.hashes@.len());
}

/// A copy of a part reads the blocks of the source, with the sizes that are recorded, over the
/// span that was asked for.
pub proof fn lemma_copies_part(
    s: StoreView,
    upload_id: Seq<char>,
    hashes: Seq<Seq<u8>>,
    span: (u64, u64),
    copy: PartCopy,
)
    requires
        parts::copies_part(s, upload_id, hashes, span, copy),
    ensures
        copy.start == span.0,
        copy.end == span.1,
        multipart::canonical_uuid(upload_id) == Some(copy.upload_id@),
        copy.hashes@.len() == hashes.len(),
        copy.sizes@.len() == hashes.len(),
        forall|i: int|
            0 <= i < hashes.len() ==> (#[trigger] copy.hashes@[i])@ == hashes[i] && copy.sizes@[i]
                == (if s.blocks.dom().contains(hashes[i]) {
                s.blocks[hashes[i]].size
            } else {
                0
            }),
{
    let views = seqs::views(copy.hashes@);
    assert(views.len() == copy.hashes@.len());
    assert forall|i: int| 0 <= i < hashes.len() implies (#[trigger] copy.hashes@[i])@ == hashes[i]
        && copy.sizes@[i] == (if s.blocks.dom().contains(hashes[i]) {
        s.blocks[hashes[i]].size
    } else {
        0
    }) by {
        assert(views[i] == copy.hashes@[i]@);
    }
}

/// An object is written under its key with its blocks in order, its size and its etag; a newer one
/// stays, and so does every other object.
pub proof fn lemma_written(
    s: StoreView,
    bucket: Seq<char>,
    key: Seq<char>,
    hashes: Seq<Seq<u8>>,
    size: i64,
    etag: Seq<char>,
    ts: i64,
)
    requires
        s.last_seq < i64::MAX,
        forall|i: int| 0 <= i < hashes.len() ==> (#[trigger] hashes[i]).len() == 32,
    ensures
        ({
            let k = (bucket, key);
            let t = storage::written(s, bucket, key, hashes, size, etag, ts);
            &&& t.objects.dom().contains(k)
            &&& writes::overtakes(s.objects, k, ts) ==> {
                &&& is_there(t.objects, k)
                &&& t.objects[k].size == size
                &&& t.objects[k].etag == etag
                &&& t.objects[k].updated_at == ts
                &&& t.objects[k].shard_id == hashing::shard_of(key)
                &&& t.objects[k].blocks.len() == 32 * hashes.len()
                &&& forall|i: int|
                    0 <= i < hashes.len() ==> #[trigger] hash_at(t.objects[k].blocks, i)
                        == hashes[i]
            }
            &&& !writes::overtakes(s.objects, k, ts) ==> t.objects[k] == s.objects[k]
            &&& writes::same_but(s.objects, t.objects, k)
            &&& t.last_seq == s.last_seq + 1
            &&& t == (StoreView { objects: t.objects, log: t.log, last_seq: t.last_seq, ..s })
        }),
{
    writes::lemma_put(s, bucket, hashing::shard_of(key), key, hashes, size, etag, ts);
}

/// An upload is for the key that it was started for; no other upload changes.
pub proof fn lemma_upload_started(
    s: StoreView,
    bucket: Seq<char>,
    id: Seq<char>,
    key: Seq<char>,
    other: (Seq<char>, Seq<char>),
)
    ensures
        ({
            let t = multipart::with_upload(s, bucket, id, key);
            &&& multipart::key_of(t, bucket, id) == Some(key)
            &&& other != (bucket, id) ==> multipart::key_of(t, other.0, other.1)
                == multipart::key_of(s, other.0, other.1)
            &&& t == (StoreView { uploads: t.uploads, ..s })
        }),
        multipart::key_of(s, bucket, id) is Some == s.uploads.dom().contains((bucket, id)),
{
}

} // verus!
