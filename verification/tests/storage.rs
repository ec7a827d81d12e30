use shardscape::clock::ClusterClock;
use shardscape::config::{
    BlockBackend, ChunkingConfig, Config, DatabaseConfig, ServerConfig, StorageConfig,
};
use shardscape::disk::DiskGuard;
use shardscape::noise_transport::generate_private_key;
use shardscape::parts::{assemble, counted_etag_text, known_upload, parts_page};
use shardscape::s3::{Principal, S3Code, S3Error};
use shardscape::storage::{PutOutput, StorageBackend};
use shardscape::store::Store;
use shardscape::upload::etag_text;

const WHO: Principal = Principal::Trusted;

fn make_config() -> Config {
    Config {
        server: ServerConfig {
            log_format: "text".to_string(),
            s3_bind_addr: "0.0.0.0:8014".to_string(),
            internal_bind_addr: "0.0.0.0:8015".to_string(),
            advertise_addr: "http://localhost:8014".to_string(),
            cluster_secret: "test-secret".to_string(),
            clock_offset_ms: 0,
            noise_private_key: generate_private_key().expect("generate test noise key"),
        },
        database: DatabaseConfig { db_path: ":memory:".to_string() },
        storage: StorageConfig {
            local_location_id: "test-site".to_string(),
            backend: BlockBackend::Local { path: "/tmp/ss-test-blocks".to_string() },
            min_free_bytes: None,
            max_bytes: None,
            chunking: ChunkingConfig::Fixed { max_block_size: 1024 * 1024 },
            gc_grace_period_seconds: 300,
            gc_interval_seconds: 60,
        },
    }
}

fn make_backend(chunk_size: usize) -> StorageBackend {
    let mut config = make_config();
    config.storage.chunking = ChunkingConfig::Fixed { max_block_size: chunk_size };
    let db = Store::new("test-site".to_string(), ClusterClock::new(0));
    let mut backend = StorageBackend::new(db, config);
    backend.disk_guard = DiskGuard::disabled();
    backend
}

/// A backend that already holds an object under `b/k`.
fn with_existing(blocks: Vec<Vec<u8>>, size: i64, etag: &str, chunk_size: usize) -> StorageBackend {
    let mut backend = make_backend(chunk_size);
    backend.db.insert_object_at("b", 0, "k", blocks, size, etag, 1).unwrap();
    backend
}

fn gc_backend(grace_secs: u64) -> StorageBackend {
    let mut backend = make_backend(1024);
    backend.config.storage.gc_grace_period_seconds = grace_secs;
    backend
}

fn gh(n: u8) -> Vec<u8> {
    vec![n; 32]
}

/// Puts an object, and counts the blocks that were stored for it.
fn put(
    backend: &mut StorageBackend,
    bucket: &str,
    key: &str,
    data: &[u8],
) -> Result<(usize, PutOutput), S3Error> {
    let mut upload = backend.begin_put_object(&WHO, bucket, key, true)?;
    let mut blocks = upload.feed(data);
    let done = upload.finish();
    blocks.extend(done.last);
    for block in &blocks {
        backend.db.store_local_block(&block.hash, b"local", block.data.len() as i64).unwrap();
    }
    let out =
        backend.finish_put_object(bucket, key, done.hashes, done.total_size, &done.etag)?;
    Ok((blocks.len(), out))
}

fn held(backend: &StorageBackend, n: u8) -> bool {
    backend.db.get_local_block_fid(&gh(n)).is_some()
}

// ── garbage collection ────────────────────────────────────────────────────────

#[test]
fn gc_never_reaps_a_referenced_block() {
    let mut backend = gc_backend(0);
    backend.db.store_local_block(&gh(1), b"3,01", 10).unwrap();
    backend.db.insert_object("b", 0, "k", vec![gh(1)], 10, "e").unwrap();

    backend.reap_orphaned_blocks().unwrap(); // grace 0, but referenced
    assert!(held(&backend, 1), "referenced block must survive GC");
}

#[test]
fn gc_reaps_orphan_past_grace() {
    let mut backend = gc_backend(0);
    backend.db.store_local_block(&gh(2), b"3,02", 10).unwrap();
    // No manifest references gh(2): it is an orphan. Grace 0 → reaped now.
    backend.reap_orphaned_blocks().unwrap();
    assert!(!held(&backend, 2), "orphan past grace must be reaped");
}

#[test]
fn gc_respects_grace_then_force_overrides() {
    let mut backend = gc_backend(3600); // 1h grace
    backend.db.store_local_block(&gh(3), b"3,03", 10).unwrap();

    // First sweep: orphan recorded but inside grace → still present.
    backend.reap_orphaned_blocks().unwrap();
    assert!(held(&backend, 3));

    // Forced sweep ignores grace and reaps the confirmed orphan.
    backend.force_sweep_orphaned_blocks().unwrap();
    assert!(!held(&backend, 3));
}

#[test]
fn gc_cancels_pending_when_block_becomes_referenced_again() {
    let mut backend = gc_backend(3600);
    backend.db.store_local_block(&gh(4), b"3,04", 10).unwrap();
    backend.reap_orphaned_blocks().unwrap(); // marks pending (within grace)
    assert_eq!(backend.db.get_pending_deletions().len(), 1);

    // A new object references it → next sweep cancels the pending reap.
    backend.db.insert_object("b", 0, "k4", vec![gh(4)], 10, "e").unwrap();
    backend.reap_orphaned_blocks().unwrap();
    assert!(backend.db.get_pending_deletions().is_empty());
    assert!(held(&backend, 4));
}

// ── disk guard ────────────────────────────────────────────────────────────────

#[test]
fn put_object_refused_when_disk_guard_tripped() {
    let mut backend = make_backend(10);
    backend.disk_guard = DiskGuard::tripped();

    let err = match put(&mut backend, "b", "k", &[0x41u8; 25]) {
        Ok(_) => panic!("write should be refused under disk pressure"),
        Err(e) => e,
    };
    assert_eq!(err.code, S3Code::ServiceUnavailable);
    // Nothing was written.
    assert!(backend.db.list_local_block_hashes().is_empty());
    assert!(backend.db.get_object("b", "k").is_none());
}

#[test]
fn put_object_refused_when_over_quota() {
    let mut backend = make_backend(10);
    backend.disk_guard = DiskGuard::over_quota();

    let err = match put(&mut backend, "b", "k", &[0x41u8; 25]) {
        Ok(_) => panic!("write should be refused when over quota"),
        Err(e) => e,
    };
    assert_eq!(err.code, S3Code::ServiceUnavailable);
    assert!(err.message.unwrap().contains("quota"));
    assert!(backend.db.list_local_block_hashes().is_empty());
    assert!(backend.db.get_object("b", "k").is_none());
}

#[test]
fn put_object_allowed_when_guard_disabled() {
    // Sanity: the default test backend (disabled guard) still writes.
    let mut backend = make_backend(10);
    put(&mut backend, "b", "k", &[1, 2, 3]).unwrap();
    assert!(backend.db.get_object("b", "k").is_some());
}

// ── put_object ────────────────────────────────────────────────────────────────

#[test]
fn put_object_25_bytes_produces_3_blocks_and_correct_etag() {
    let mut backend = make_backend(10);
    let data = vec![0x41u8; 25]; // 'A' * 25
    let (stored, out) = put(&mut backend, "b", "k", &data).unwrap();

    assert_eq!(stored, 3); // 10 + 10 + 5
    let (_, size, etag) = backend.db.get_object("b", "k").unwrap();
    assert_eq!(size, 25);
    assert_eq!(etag, "1995da96cd16a48cebcbc08424f6f945");
    assert_eq!(out.e_tag, "\"1995da96cd16a48cebcbc08424f6f945\"");
}

#[test]
fn put_object_empty_body_produces_zero_blocks_and_stored() {
    let mut backend = make_backend(10);
    let (stored, out) = put(&mut backend, "b", "empty", &[]).unwrap();

    // No blocks to store.
    assert_eq!(stored, 0);
    let (_, size, _) = backend.db.get_object("b", "empty").unwrap();
    assert_eq!(size, 0);
    // MD5 of empty string
    assert_eq!(out.e_tag, "\"d41d8cd98f00b204e9800998ecf8427e\"");
}

#[test]
fn put_object_single_byte() {
    let mut backend = make_backend(10);
    let (stored, out) = put(&mut backend, "b", "one", &[0x61]).unwrap();

    assert_eq!(stored, 1);
    let (_, size, _) = backend.db.get_object("b", "one").unwrap();
    assert_eq!(size, 1);
    // MD5 of a single byte 0x61 ('a') = 0cc175b9c0f1b6a831c399e269772661
    assert_eq!(out.e_tag, "\"0cc175b9c0f1b6a831c399e269772661\"");
}

#[test]
fn put_object_exact_chunk_boundary() {
    // Exactly 20 bytes with chunk_size=10 → 2 blocks, nothing in finalize.
    let mut backend = make_backend(10);
    let (stored, _) = put(&mut backend, "b", "k", &[0xBBu8; 20]).unwrap();
    assert_eq!(stored, 2);
}

#[test]
fn put_object_overwrite_removes_old_block_references() {
    // Seed an existing object with one "block" hash.
    let old_hash = vec![0xAAu8; 32];
    let mut backend = with_existing(vec![old_hash.clone()], 10, "old-etag", 10);

    let (_, out) = put(&mut backend, "b", "k", &[0x42u8; 5]).unwrap();

    // The references of the old object are given up.
    let released = out.released.unwrap();
    assert_eq!(released.ref_id, "obj:b:k");
    assert_eq!(released.hashes, vec![old_hash]);
}

#[test]
fn put_object_etag_is_quoted_in_response() {
    let mut backend = make_backend(64);
    let (_, out) = put(&mut backend, "b", "k", &[1, 2, 3]).unwrap();
    let etag = out.e_tag;
    assert!(etag.starts_with('"') && etag.ends_with('"'), "ETag must be quoted: {etag}");
}

#[test]
fn put_object_etag_independent_of_chunk_size() {
    // MD5 is computed on the raw bytes, not the chunks, so different
    // chunk sizes must produce the same ETag.
    let data = vec![0x42u8; 100];
    let etag_for_chunk_size =
        |chunk: usize| put(&mut make_backend(chunk), "b", "k", &data).unwrap().1.e_tag;

    let e1 = etag_for_chunk_size(10);
    let e2 = etag_for_chunk_size(50);
    let e3 = etag_for_chunk_size(200);
    assert_eq!(e1, e2);
    assert_eq!(e2, e3);
}

// ── get_object ────────────────────────────────────────────────────────────────

#[test]
fn get_object_returns_correct_size_and_etag() {
    let backend = with_existing(vec![vec![0u8; 32]], 42, "myetag", 64);
    let out = backend.get_object(&WHO, "b", "k", None).unwrap();
    assert_eq!(out.content_length, 42);
    assert_eq!(out.e_tag, "\"myetag\"");
}

#[test]
fn get_object_missing_key_returns_no_such_key() {
    let backend = make_backend(64);
    match backend.get_object(&WHO, "b", "missing", None) {
        Err(e) => assert_eq!(e.code, S3Code::NoSuchKey),
        Ok(_) => panic!("expected NoSuchKey error"),
    }
}

// ── delete_object ─────────────────────────────────────────────────────────────

#[test]
fn delete_object_removes_block_references() {
    let hash = vec![0xDDu8; 32];
    let mut backend = with_existing(vec![hash.clone()], 5, "e", 64);

    let released = backend.delete_object_at(&WHO, "b", "k", 2).unwrap().unwrap();
    assert_eq!(released.ref_id, "obj:b:k");
    assert_eq!(released.hashes, vec![hash]);
    assert!(backend.db.get_object("b", "k").is_none());
}

#[test]
fn delete_object_missing_key_still_succeeds() {
    let mut backend = make_backend(64);
    let released = backend.delete_object_at(&WHO, "b", "ghost", 2).unwrap();
    assert!(released.is_none());
    // The tombstone is there: an older put loses to it.
    backend.db.insert_object_at("b", 0, "ghost", vec![], 0, "e", 1).unwrap();
    assert!(backend.db.get_object("b", "ghost").is_none());
}

#[test]
fn delete_objects_batch_all_succeed() {
    let mut backend = make_backend(64);
    let keys = vec!["k1".to_string(), "k2".to_string()];
    let out = backend.delete_objects_at(&WHO, "b", &keys, 2).unwrap();
    assert_eq!(out.deleted.len(), 2);
    assert!(out.errors.is_empty());
}

// ── head_object ───────────────────────────────────────────────────────────────

#[test]
fn head_object_returns_size_and_etag_without_body() {
    let backend = with_existing(vec![vec![0u8; 32]], 99, "headetag", 64);
    let out = backend.head_object(&WHO, "b", "k").unwrap();
    assert_eq!(out.content_length, 99);
    assert_eq!(out.e_tag, "\"headetag\"");
}

#[test]
fn head_object_missing_returns_no_such_key() {
    let backend = make_backend(64);
    match backend.head_object(&WHO, "b", "gone") {
        Err(e) => assert_eq!(e.code, S3Code::NoSuchKey),
        Ok(_) => panic!("expected NoSuchKey error"),
    }
}

// ── list_objects_v2 ───────────────────────────────────────────────────────────

#[test]
fn list_objects_v2_empty_bucket() {
    let backend = make_backend(64);
    let out = backend.list_objects_v2(&WHO, "b", None, None, None, None, None).unwrap();
    assert_eq!(out.key_count, 0);
    assert_eq!(out.is_truncated, false);
}

// ── complete_multipart_upload ─────────────────────────────────────────────────

/// A backend with an upload of two small parts under `b/k`.
fn with_upload() -> (StorageBackend, String) {
    let mut backend = make_backend(64);
    let upload_id = backend.create_multipart_upload(&WHO, "b", "k").unwrap();
    backend.db.insert_part("b", &upload_id, 1, vec![vec![0u8; 32]], 10, "aabbccdd");
    backend.db.insert_part("b", &upload_id, 2, vec![vec![1u8; 32]], 10, "eeff0011");
    (backend, upload_id)
}

#[test]
fn complete_multipart_upload_assembles_parts_and_stores_object() {
    let (mut backend, upload_id) = with_upload();
    let out = backend.complete_multipart_upload_at(&WHO, "b", "k", &upload_id, 5).unwrap();

    assert!(!out.e_tag.is_empty(), "expected an ETag in the response");
    let (blocks, size, _) = backend.db.get_object("b", "k").unwrap();
    assert_eq!(blocks, vec![vec![0u8; 32], vec![1u8; 32]]);
    assert_eq!(size, 20);
}

#[test]
fn complete_multipart_upload_swaps_upload_ref_for_object_ref() {
    let (mut backend, upload_id) = with_upload();
    let out = backend.complete_multipart_upload_at(&WHO, "b", "k", &upload_id, 5).unwrap();

    assert_eq!(out.taken.ref_id, "obj:b:k");
    assert_eq!(out.dropped.ref_id, format!("upload:b:{upload_id}"));
}

#[test]
fn complete_multipart_upload_rejects_key_mismatch() {
    // The stored key is "k" but the request says "different-key".
    let (mut backend, upload_id) = with_upload();
    match backend.complete_multipart_upload_at(&WHO, "b", "different-key", &upload_id, 5) {
        Err(e) => assert_eq!(e.code, S3Code::InvalidRequest),
        Ok(_) => panic!("expected InvalidRequest error for key mismatch"),
    }
}

// ── abort_multipart_upload ────────────────────────────────────────────────────

#[test]
fn abort_multipart_upload_succeeds() {
    let (mut backend, upload_id) = with_upload();
    backend.abort_multipart_upload(&WHO, "b", "k", &upload_id).unwrap();
    assert!(backend.db.get_multipart_key("b", &upload_id).is_none());
    assert!(backend.db.list_parts("b", &upload_id).is_empty());
}

// ── what follows an id or a digest ────────────────────────────────────────────

#[test]
fn known_upload_needs_a_readable_id_of_an_upload() {
    let (mut backend, _) = with_upload();
    backend.db.insert_multipart("b", "one", "key");
    assert_eq!(
        known_upload(&backend.db, "b", Some("one".to_string())).ok(),
        Some(("one".to_string(), "key".to_string()))
    );
    let unread = known_upload(&backend.db, "b", None).err().unwrap();
    assert_eq!((unread.code, unread.message.as_deref()), (S3Code::InvalidRequest, Some("Invalid upload id")));
    let absent = known_upload(&backend.db, "b", Some("two".to_string())).err().unwrap();
    assert_eq!((absent.code, absent.message.as_deref()), (S3Code::NoSuchUpload, Some("Upload not found")));
}

#[test]
fn complete_known_upload_takes_the_parts_of_its_id() {
    let mut backend = make_backend(64);
    backend.db.insert_multipart("b", "one", "k");
    backend.db.insert_part("b", "one", 2, vec![vec![1u8; 32]], 7, "00ff");
    backend.db.insert_part("b", "one", 1, vec![vec![0u8; 32]], 5, "\"aabb\"");
    let out = backend.complete_known_upload_at("b", "k", "ONE", Some("one".to_string()), 5).unwrap();
    assert_eq!(out.dropped.ref_id, "upload:b:ONE");
    let (blocks, size, etag) = backend.db.get_object("b", "k").unwrap();
    assert_eq!(blocks, vec![vec![0u8; 32], vec![1u8; 32]]);
    assert_eq!(size, 12);
    assert_eq!(out.e_tag, format!("\"{etag}\""));
    assert!(etag.ends_with("-2"));
    assert!(backend.db.get_multipart_key("b", "one").is_none());
}

#[test]
fn etags_write_the_digest_in_hex() {
    let mut digest = [0u8; 16];
    digest[0] = 0xab;
    digest[15] = 0x01;
    assert_eq!(etag_text(&digest), "ab000000000000000000000000000001");
    assert_eq!(counted_etag_text(&digest, 12), "ab000000000000000000000000000001-12");
}

#[test]
fn assemble_refuses_an_etag_that_is_not_hex() {
    assert!(assemble(vec![(1, vec![], 1, "not hex".to_string())]).is_none());
    let (hashes, total, _) = assemble(vec![(1, vec![vec![3u8; 32]], 9, "00".to_string())]).unwrap();
    assert_eq!((hashes, total), (vec![vec![3u8; 32]], 9));
}

#[test]
fn parts_page_starts_behind_the_marker() {
    let parts: Vec<(i32, Vec<Vec<u8>>, i64, String)> =
        (1..5).map(|n| (n, vec![], n as i64 * 10, format!("e{n}"))).collect();
    let page = parts_page(&parts, Some("1"), Some(2));
    assert_eq!(
        page.parts,
        vec![(2, 20, "\"e2\"".to_string()), (3, 30, "\"e3\"".to_string())]
    );
    assert!(page.is_truncated);
    assert_eq!(page.next_part_number_marker.as_deref(), Some("3"));
    let whole = parts_page(&parts, Some("no number"), None);
    assert_eq!(whole.parts.len(), 4);
    assert!(!whole.is_truncated);
}
