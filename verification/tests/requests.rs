use shardscape::clock::ClusterClock;
use shardscape::config::{ChunkingConfig, Config};
use shardscape::db::{admin_policy, Policy, PolicyStatement};
use shardscape::disk::DiskGuard;
use shardscape::parts::copy_range;
use shardscape::ranges::{can_slice, slice_block_bytes, Range};
use shardscape::s3::{
    authorize, block_unavailable, check_writable, pause_reason, secret_for, Principal, S3Code,
    S3Error,
};
use shardscape::storage::{CopySource, StorageBackend};
use shardscape::store::Store;
use shardscape::upload::Upload;

const WHO: Principal = Principal::Trusted;

fn backend() -> StorageBackend {
    let mut config = Config::default();
    config.storage.local_location_id = "site-a".to_string();
    config.storage.chunking = ChunkingConfig::Fixed { max_block_size: 4 };
    config.storage.min_free_bytes = None;
    let db = Store::new("site-a".to_string(), ClusterClock::new(0));
    StorageBackend::new(db, config)
}

/// Puts an object at time `ts`, and keeps its blocks.
fn put(b: &mut StorageBackend, key: &str, body: &[u8], ts: i64) -> Vec<(Vec<u8>, Vec<u8>)> {
    let mut upload = b.begin_put_object(&WHO, "b", key, true).unwrap();
    let mut blocks = Vec::new();
    for piece in body.chunks(3) {
        blocks.extend(upload.feed(piece));
    }
    let done = upload.finish();
    blocks.extend(done.last);
    for block in &blocks {
        b.db.store_local_block_at(&block.hash, b"f", block.data.len() as i64, ts).unwrap();
    }
    b.finish_put_object_at("b", key, done.hashes, done.total_size, &done.etag, ts).unwrap();
    blocks.iter().map(|x| (x.hash.clone(), x.data.to_vec())).collect()
}

/// The bytes that a plan reads.
fn read(plan: &[(Vec<u8>, u64, Option<u64>)], blocks: &[(Vec<u8>, Vec<u8>)]) -> Vec<u8> {
    let mut out = Vec::new();
    for (hash, skip, take) in plan {
        let data = &blocks.iter().find(|b| &b.0 == hash).unwrap().1;
        out.extend_from_slice(&slice_block_bytes(data.clone().into(), *skip, *take));
    }
    out
}

fn copy_of(key: &str) -> CopySource {
    CopySource::Bucket { bucket: "b".to_string(), key: key.to_string() }
}

fn error<T>(r: Result<T, S3Error>) -> (S3Code, Option<String>) {
    match r {
        Ok(_) => panic!("expected an error"),
        Err(e) => (e.code, e.message),
    }
}

fn told(code: S3Code, message: &str) -> (S3Code, Option<String>) {
    (code, Some(message.to_string()))
}

// ── who may do what ───────────────────────────────────────────────────────────

fn policy(effect: &str, action: &str, resource: &str) -> Policy {
    Policy {
        statements: vec![PolicyStatement {
            effect: effect.to_string(),
            actions: vec![action.to_string()],
            resources: vec![resource.to_string()],
        }],
    }
}

#[test]
fn requests_need_authorization() {
    let ask = |who: Principal| error(authorize(&who, "s3:GetObject", Some("b"), Some("k"))).0;
    assert_eq!(ask(Principal::Anonymous), S3Code::AccessDenied);
    assert_eq!(ask(Principal::Unknown), S3Code::AccessDenied);
    assert_eq!(ask(Principal::Broken), S3Code::InternalError);
    assert_eq!(ask(Principal::Known(policy("Deny", "*", "*"))), S3Code::AccessDenied);
    assert_eq!(ask(Principal::Known(policy("allow", "*", "*"))), S3Code::AccessDenied);
    let who = Principal::Known(policy("Allow", "s3:GetObject", "arn:ss:bucket:::b/k"));
    assert!(authorize(&who, "s3:GetObject", Some("b"), Some("k")).is_ok());
    assert!(authorize(&who, "s3:GetObject", Some("b"), None).is_err());
    let root = Principal::Known(policy("Allow", "s3:ListAllMyBuckets", "*"));
    assert!(authorize(&root, "s3:ListAllMyBuckets", None, None).is_ok());
    assert!(authorize(&Principal::Known(admin_policy()), "s3:X", Some("b"), Some("k")).is_ok());
}

#[test]
fn every_request_names_its_action() {
    let mut b = backend();
    let only = |action: &str, resource: &str| Principal::Known(policy("Allow", action, resource));
    let id = b.create_multipart_upload(&WHO, "b", "k").unwrap();
    put(&mut b, "k", b"x", 1);
    let key = "arn:ss:bucket:::b/k";
    let bucket = "arn:ss:bucket:::b";
    assert!(b.begin_put_object(&only("s3:PutObject", key), "b", "k", true).is_ok());
    assert!(b.get_object(&only("s3:GetObject", key), "b", "k", None).is_ok());
    assert!(b.head_object(&only("s3:HeadObject", key), "b", "k").is_ok());
    assert!(b.create_bucket(&only("s3:CreateBucket", bucket), "b").is_ok());
    assert!(b.delete_bucket(&only("s3:DeleteBucket", bucket), "b").is_ok());
    assert!(b.head_bucket(&only("s3:ListBucket", bucket), "b").is_ok());
    assert!(b.list_buckets(&only("s3:ListAllMyBuckets", "*")).is_ok());
    let list = only("s3:ListBucket", bucket);
    assert!(b.list_objects_v2(&list, "b", None, None, None, None, None).is_ok());
    assert!(b.list_objects(&list, "b", None, None, None, None).is_ok());
    let parts = only("s3:ListMultipartUploadParts", key);
    assert!(b.list_parts(&parts, "b", "k", &id, None, None).is_ok());
    let uploads = only("s3:ListBucketMultipartUploads", bucket);
    assert!(b.list_multipart_uploads(&uploads, "b", None, None, None).is_ok());
    let keys = vec!["k".to_string()];
    assert!(b.delete_objects_at(&only("s3:DeleteObject", bucket), "b", &keys, 9).is_ok());
    assert!(b.abort_multipart_upload(&only("s3:AbortMultipartUpload", key), "b", "k", &id).is_ok());
    // And nothing goes through on another one.
    let other = only("s3:Other", "*");
    assert_eq!(error(b.get_object(&other, "b", "k", None)).0, S3Code::AccessDenied);
    assert_eq!(error(b.delete_object_at(&other, "b", "k", 9)).0, S3Code::AccessDenied);
    assert_eq!(error(b.create_multipart_upload(&other, "b", "k")).0, S3Code::AccessDenied);
}

#[test]
fn signatures_are_checked_against_the_secret() {
    let user = || Some(("SK".to_string(), "{}".to_string()));
    assert_eq!(secret_for(user(), true).unwrap(), "SK");
    assert_eq!(error(secret_for(None, true)), (S3Code::InvalidAccessKeyId, None));
    assert_eq!(error(secret_for(user(), false)), (S3Code::InternalError, None));
}

#[test]
fn a_refused_write_says_why() {
    let low = DiskGuard { min_free_bytes: 2048, free: 1024, max_bytes: 0, local_usage: 0 };
    assert_eq!(
        error(check_writable(&low)),
        told(
            S3Code::ServiceUnavailable,
            "node is low on disk space (1.0Ki free, reserve 2.0Ki); write rejected"
        )
    );
    assert_eq!(pause_reason(&low).unwrap(), "low disk (1.0Ki free, reserve 2.0Ki)");
    let full = DiskGuard::over_quota();
    assert_eq!(
        error(check_writable(&full)),
        told(
            S3Code::ServiceUnavailable,
            "node has reached storage quota (200B used, cap 100B); write rejected"
        )
    );
    assert_eq!(pause_reason(&full).unwrap(), "over quota (200B used, cap 100B)");
    assert_eq!(pause_reason(&DiskGuard::disabled()), None);
}

#[test]
fn an_unavailable_first_block_slows_the_client_down() {
    let e = block_unavailable(true, "peer asleep");
    assert_eq!((e.code, e.message), told(S3Code::SlowDown, "block unavailable: peer asleep"));
    let e = block_unavailable(false, "peer asleep");
    assert_eq!((e.code, e.message), told(S3Code::InternalError, "peer asleep"));
}

// ── reading what was written ──────────────────────────────────────────────────

#[test]
fn what_is_put_is_what_is_got() {
    let mut b = backend();
    let body = b"0123456789abcdef-";
    let blocks = put(&mut b, "k", body, 5);
    let out = b.get_object(&WHO, "b", "k", None).unwrap();
    assert_eq!(out.content_length, 17);
    assert_eq!(out.content_range, None);
    assert_eq!(read(&out.plan, &blocks), body);
    // The parts of the body that differ are different blocks.
    assert_eq!(out.plan.len(), 5);
}

#[test]
fn a_range_reads_exactly_its_bytes() {
    let mut b = backend();
    let body = b"0123456789abcdef-";
    let blocks = put(&mut b, "k", body, 5);
    for first in 0..17u64 {
        for last in first..20u64 {
            let range = Range::Int { first, last: Some(last) };
            let out = b.get_object(&WHO, "b", "k", Some(range)).unwrap();
            let end = last.min(16);
            assert_eq!(read(&out.plan, &blocks), &body[first as usize..=end as usize]);
            assert_eq!(out.content_length, (end - first + 1) as i64);
            assert_eq!(out.content_range.unwrap(), format!("bytes {first}-{end}/17"));
            // No block is fetched for nothing.
            assert!(out.plan.iter().all(|s| s.2.unwrap() > 0));
        }
    }
    let out = b.get_object(&WHO, "b", "k", Some(Range::Suffix { length: 3 })).unwrap();
    assert_eq!(read(&out.plan, &blocks), b"ef-");
    let wrong = Range::Int { first: 17, last: None };
    assert_eq!(
        error(b.get_object(&WHO, "b", "k", Some(wrong))),
        told(S3Code::InvalidRange, "Requested range not satisfiable")
    );
    assert_eq!(
        error(b.get_object(&WHO, "b", "none", None)),
        told(S3Code::NoSuchKey, "Not found")
    );
}

#[test]
fn blocks_go_by_the_digest_of_their_contents() {
    let mut b = backend();
    let blocks = put(&mut b, "k", b"0123", 5);
    assert_eq!(blocks[0].0, blake3::hash(b"0123").as_bytes());
    assert_eq!(b.db.get_object("b", "k").unwrap().0, vec![blocks[0].0.clone()]);
    // The same contents are the same block.
    let again = put(&mut b, "other", b"01230123", 6);
    assert_eq!(again[0].0, blocks[0].0);
    assert_eq!(again[1].0, blocks[0].0);
}

#[test]
fn content_defined_blocks_make_up_the_body() {
    let mut b = backend();
    b.config.storage.chunking =
        ChunkingConfig::Cdc { min_block_size: 64, avg_block_size: 256, max_block_size: 1024 };
    let body: Vec<u8> = (0..9000u32).map(|i| (i.wrapping_mul(2654435761) >> 11) as u8).collect();
    let mut upload = b.begin_put_object(&WHO, "b", "k", true).unwrap();
    let mut blocks = Vec::new();
    for piece in body.chunks(700) {
        blocks.extend(upload.feed(piece));
    }
    let done = upload.finish();
    blocks.extend(done.last);
    let all: Vec<u8> = blocks.iter().flat_map(|x| x.data.to_vec()).collect();
    assert_eq!(all, body);
    assert!(blocks.len() > 5);
    assert!(blocks.iter().all(|x| x.data.len() <= 1024));
    assert_eq!(done.total_size, 9000);
}

fn cdc(min_block_size: usize, avg_block_size: usize, max_block_size: usize) -> ChunkingConfig {
    ChunkingConfig::Cdc { min_block_size, avg_block_size, max_block_size }
}

fn upload_with(chunking: ChunkingConfig) -> Upload {
    let mut b = backend();
    b.config.storage.chunking = chunking;
    b.begin_put_object(&WHO, "b", "k", true).unwrap()
}

#[test]
fn block_sizes_must_be_in_range() {
    let body = [7u8; 2000];
    let fixed = |max_block_size| upload_with(ChunkingConfig::Fixed { max_block_size });
    assert!(fixed(1).can_feed(&body));
    assert!(!fixed(0).can_feed(&body));
    assert!(upload_with(cdc(64, 256, 1024)).can_feed(&body));
    assert!(!upload_with(cdc(63, 256, 1024)).can_feed(&body));
    assert!(!upload_with(cdc(64, 2048, 1024)).can_feed(&body));
    assert!(!upload_with(cdc(64, 256, 16_777_217)).can_feed(&body));
}

#[test]
fn short_bodies_are_taken_in_whatever_the_sizes() {
    // Below the minimum size nothing is cut.
    let mut upload = upload_with(cdc(5000, 1, 0));
    for piece in [[1u8; 2000], [2u8; 2000]] {
        assert!(upload.can_feed(&piece));
        assert!(upload.feed(&piece).is_empty());
    }
    assert!(!upload.can_feed(&[3u8; 1000]));
    let done = upload.finish();
    assert_eq!(done.total_size, 4000);
    assert_eq!(done.last.unwrap().data.len(), 4000);
    // An average above the maximum matters only to what is longer than the maximum.
    let mut upload = upload_with(cdc(64, 2048, 1024));
    assert!(upload.can_feed(&[4u8; 1024]));
    assert!(upload.feed(&[4u8; 100]).is_empty());
    assert!(!upload.can_feed(&[4u8; 925]));
}

#[test]
fn deleting_a_put_is_final_for_older_writes() {
    let mut b = backend();
    put(&mut b, "k", b"new", 10);
    assert!(b.delete_object_at(&WHO, "b", "k", 11).is_ok());
    assert_eq!(error(b.get_object(&WHO, "b", "k", None)).0, S3Code::NoSuchKey);
    put(&mut b, "k", b"old", 11);
    assert_eq!(error(b.head_object(&WHO, "b", "k")).0, S3Code::NoSuchKey);
    put(&mut b, "k", b"newer", 12);
    assert_eq!(b.head_object(&WHO, "b", "k").unwrap().content_length, 5);
}

#[test]
fn a_put_protects_its_blocks() {
    let mut b = backend();
    let blocks = put(&mut b, "k", b"0123456789", 10);
    assert!(b.force_sweep_orphaned_blocks().unwrap().is_empty());
    b.delete_object_at(&WHO, "b", "k", 11).unwrap();
    let reaped = b.force_sweep_orphaned_blocks().unwrap();
    assert_eq!(reaped.len(), blocks.len());
    assert!(reaped.iter().all(|(hash, fid)| blocks.iter().any(|x| &x.0 == hash) && fid == b"f"));
}

#[test]
fn a_put_without_a_body_is_invalid() {
    let b = backend();
    assert_eq!(
        error(b.begin_put_object(&WHO, "b", "k", false)),
        told(S3Code::InvalidRequest, "Missing body")
    );
}

#[test]
fn a_copy_shares_the_blocks() {
    let mut b = backend();
    let blocks = put(&mut b, "src", b"0123456789", 10);
    put(&mut b, "dst", b"zz", 10);
    let out = b.copy_object_at(&WHO, "b", "dst", &copy_of("src"), 20).unwrap();
    assert_eq!(out.taken.ref_id, "obj:b:dst");
    assert_eq!(out.taken.hashes.len(), blocks.len());
    assert_eq!(out.released.unwrap().hashes.len(), 1);
    let got = b.get_object(&WHO, "b", "dst", None).unwrap();
    assert_eq!(read(&got.plan, &blocks), b"0123456789");
    assert_eq!(got.e_tag, out.e_tag);
    assert_eq!(
        error(b.copy_object_at(&WHO, "b", "dst", &CopySource::AccessPoint, 21)),
        told(S3Code::NotImplemented, "AccessPoint copy source not supported")
    );
    assert_eq!(
        error(b.copy_object_at(&WHO, "b", "dst", &copy_of("none"), 21)),
        told(S3Code::NoSuchKey, "Source object not found")
    );
}

#[test]
fn buckets_are_those_of_live_objects() {
    let mut b = backend();
    b.db.insert_object_at("two", 0, "x", vec![], 0, "e", 30).unwrap();
    b.db.insert_object_at("two", 0, "y", vec![], 0, "e", 20).unwrap();
    b.db.insert_object_at("one", 0, "x", vec![], 0, "e", -7).unwrap();
    b.db.insert_object_at("gone", 0, "x", vec![], 0, "e", 1).unwrap();
    b.db.delete_object_at("gone", "x", 2).unwrap();
    let buckets = b.list_buckets(&WHO).unwrap();
    assert_eq!(buckets, vec![("one".to_string(), 0), ("two".to_string(), 20)]);
}

// ── listings ──────────────────────────────────────────────────────────────────

fn filled(keys: &[&str]) -> StorageBackend {
    let mut b = backend();
    for key in keys {
        b.db.insert_object_at("b", 0, key, vec![], 3, "e", 1).unwrap();
    }
    b
}

fn keys_of(out: &shardscape::storage::ListOutput) -> Vec<String> {
    out.contents.iter().map(|c| c.0.clone()).collect()
}

#[test]
fn pages_continue_where_the_last_one_ended() {
    let names: Vec<String> = (0..25).map(|i| format!("k{i:02}")).collect();
    let refs: Vec<&str> = names.iter().map(|s| s.as_str()).collect();
    let b = filled(&refs);
    let mut seen = Vec::new();
    let mut token: Option<String> = None;
    loop {
        let out = b
            .list_objects_v2(&WHO, "b", Some("k"), None, token.as_deref(), Some("zzz"), Some(7))
            .unwrap();
        if token.is_none() {
            // A start behind every key gives nothing; the token takes its place.
            assert!(out.contents.is_empty() && !out.is_truncated);
            token = Some("a".to_string());
            continue;
        }
        assert_eq!(out.key_count as usize, out.contents.len());
        seen.extend(keys_of(&out));
        if !out.is_truncated {
            assert_eq!(out.next, None);
            break;
        }
        assert_eq!(out.contents.len(), 7);
        token = out.next;
    }
    assert_eq!(seen, names);
}

#[test]
fn a_delimiter_rolls_keys_up() {
    let b = filled(&["a.txt", "d/1", "d/2", "d/e/3", "f/4", "z.txt"]);
    let out = b.list_objects(&WHO, "b", None, Some("/"), None, None).unwrap();
    assert_eq!(keys_of(&out), vec!["a.txt", "z.txt"]);
    assert_eq!(out.common_prefixes.unwrap(), vec!["d/", "f/"]);
    assert_eq!((out.key_count, out.max_keys, out.is_truncated), (4, 1000, false));
    assert_eq!(out.contents[0], ("a.txt".to_string(), 3, "\"e\"".to_string()));

    let out = b.list_objects(&WHO, "b", Some("d/"), Some("/"), None, Some(2)).unwrap();
    assert_eq!(keys_of(&out), vec!["d/1", "d/2"]);
    assert_eq!(out.common_prefixes, None);
    assert!(out.is_truncated);
    assert_eq!(out.next.as_deref(), Some("d/2"));
    let out = b.list_objects(&WHO, "b", Some("d/"), Some("/"), Some("d/2"), Some(2)).unwrap();
    assert_eq!(out.common_prefixes.unwrap(), vec!["d/e/"]);

    // A limit below one counts as one.
    let out = b.list_objects_v2(&WHO, "b", None, None, None, None, Some(-4)).unwrap();
    assert_eq!((out.max_keys, out.contents.len(), out.is_truncated), (1, 1, true));
}

// ── multipart uploads ─────────────────────────────────────────────────────────

#[test]
fn parts_read_in_the_order_of_their_numbers() {
    let mut b = backend();
    let id = b.create_multipart_upload(&WHO, "b", "big").unwrap();
    let mut blocks = Vec::new();
    for (number, body) in [(2, &b"second"[..]), (1, &b"first!!"[..])] {
        let (id, mut upload) = b.begin_upload_part(&WHO, "b", "big", &id, true).unwrap();
        let mut stored = upload.feed(body);
        let done = upload.finish();
        stored.extend(done.last);
        for x in &stored {
            b.db.store_local_block_at(&x.hash, b"f", x.data.len() as i64, 1).unwrap();
            blocks.push((x.hash.clone(), x.data.to_vec()));
        }
        let e_tag =
            b.finish_upload_part("b", &id, number, done.hashes, done.total_size, &done.etag);
        assert_eq!(e_tag, format!("\"{}\"", done.etag));
    }
    // The parts of an unfinished upload are referred to.
    assert!(b.force_sweep_orphaned_blocks().unwrap().is_empty());

    let out = b.complete_multipart_upload_at(&WHO, "b", "big", &id, 9).unwrap();
    let got = b.get_object(&WHO, "b", "big", None).unwrap();
    assert_eq!(read(&got.plan, &blocks), b"first!!second");
    assert_eq!(got.content_length, 13);
    assert_eq!(got.e_tag, out.e_tag);
    // Four blocks of four bytes at most: the tag ends in their number.
    assert!(out.e_tag.ends_with("-4\""));
    assert!(b.db.list_parts("b", &id).is_empty());
}

#[test]
fn the_tag_of_parts_is_the_digest_of_their_tags() {
    let mut b = backend();
    let id = b.create_multipart_upload(&WHO, "b", "k").unwrap();
    // The digests of the empty text and of "a".
    let one = "d41d8cd98f00b204e9800998ecf8427e";
    b.db.insert_part("b", &id, 1, vec![], 0, one);
    b.db.insert_part("b", &id, 2, vec![], 0, "\"0cc175b9c0f1b6a831c399e269772661\"");
    let out = b.complete_multipart_upload_at(&WHO, "b", "k", &id, 9).unwrap();
    let mut both = hex::decode(one).unwrap();
    both.extend(hex::decode("0cc175b9c0f1b6a831c399e269772661").unwrap());
    let digest: [u8; 16] = <md5::Md5 as md5::Digest>::digest(&both).into();
    assert_eq!(out.e_tag, format!("\"{}-0\"", hex::encode(digest)));
}

#[test]
fn broken_uploads_are_refused() {
    let mut b = backend();
    let id = b.create_multipart_upload(&WHO, "b", "k").unwrap();
    let none = "00000000-0000-4000-8000-000000000000";
    let invalid = told(S3Code::InvalidRequest, "Invalid upload id");
    let missing = told(S3Code::NoSuchUpload, "Upload not found");
    assert_eq!(error(b.begin_upload_part(&WHO, "b", "k", "no id", true)), invalid);
    assert_eq!(error(b.begin_upload_part(&WHO, "b", "k", none, true)), missing);
    assert_eq!(
        error(b.begin_upload_part(&WHO, "b", "k", &id, false)),
        told(S3Code::InvalidRequest, "Missing body")
    );
    assert_eq!(error(b.list_parts(&WHO, "b", "k", "no id", None, None)), invalid);
    assert_eq!(error(b.list_parts(&WHO, "b", "k", none, None, None)), missing);
    assert_eq!(error(b.complete_multipart_upload_at(&WHO, "b", "k", "no id", 1)), invalid);
    assert_eq!(error(b.complete_multipart_upload_at(&WHO, "b", "k", none, 1)), missing);
    assert_eq!(error(b.abort_multipart_upload(&WHO, "b", "k", "no id")), invalid);
    // Aborting what is not there succeeds.
    assert!(b.abort_multipart_upload(&WHO, "b", "k", none).is_ok());
    b.db.insert_part("b", &id, 1, vec![], 0, "not hex");
    assert_eq!(
        error(b.complete_multipart_upload_at(&WHO, "b", "k", &id, 1)),
        told(S3Code::InternalError, "Invalid part etag")
    );
    b.disk_guard = DiskGuard::over_quota();
    assert_eq!(
        error(b.begin_upload_part(&WHO, "b", "k", &id, true)).0,
        S3Code::ServiceUnavailable
    );
}

#[test]
fn upload_ids_are_taken_in_any_spelling() {
    let mut b = backend();
    let id = b.create_multipart_upload(&WHO, "b", "k").unwrap();
    assert_eq!(id.len(), 36);
    let loud = id.to_uppercase();
    assert_eq!(b.begin_upload_part(&WHO, "b", "k", &loud, true).unwrap().0, id);
    let bare = id.replace('-', "");
    assert_eq!(b.begin_upload_part(&WHO, "b", "k", &bare, true).unwrap().0, id);
    assert_ne!(b.create_multipart_upload(&WHO, "b", "k").unwrap(), id);
}

#[test]
fn a_copied_part_reads_its_range() {
    let mut b = backend();
    let blocks = put(&mut b, "src", b"0123456789", 1);
    let id = b.create_multipart_upload(&WHO, "b", "k").unwrap();
    let (copy, mut upload) = b
        .begin_upload_part_copy(&WHO, "b", "k", &id, &copy_of("src"), Some("bytes=2-8"))
        .unwrap();
    assert_eq!(copy.upload_id, id);
    assert!(can_slice(&copy.sizes, copy.start, copy.end));
    let mut all = Vec::new();
    for (i, skip, take) in copy.slices() {
        all.extend(read(&[(copy.hashes[i].clone(), skip, Some(take))], &blocks));
    }
    assert_eq!(all, b"2345678");
    upload.feed(&all);
    assert_eq!(upload.finish().total_size, 7);
    let source = copy_of("none");
    assert_eq!(
        error(b.begin_upload_part_copy(&WHO, "b", "k", &id, &source, None)),
        told(S3Code::NoSuchKey, "Source object not found")
    );
    assert_eq!(
        error(b.begin_upload_part_copy(&WHO, "b", "k", &id, &CopySource::AccessPoint, None)),
        told(S3Code::NotImplemented, "AccessPoint copy source not supported")
    );
}

#[test]
fn copy_ranges() {
    assert_eq!(copy_range(None, 10).unwrap(), (0, 9));
    assert_eq!(copy_range(None, 0).unwrap(), (0, 0));
    assert_eq!(copy_range(Some("bytes=3-7"), 10).unwrap(), (3, 7));
    assert_eq!(copy_range(Some("3-700"), 10).unwrap(), (3, 700));
    let bad = |s: &str| error(copy_range(Some(s), 10));
    assert_eq!(bad("bytes=3"), told(S3Code::InvalidArgument, "Invalid copy source range"));
    assert_eq!(bad("bytes=-3"), told(S3Code::InvalidArgument, "Invalid range start"));
    assert_eq!(bad("bytes=3-"), told(S3Code::InvalidArgument, "Invalid range end"));
    assert_eq!(bad("bytes=3-4-5"), told(S3Code::InvalidArgument, "Invalid range end"));
    // A range that ends inside the block before its start cannot be cut.
    assert!(!can_slice(&[10], 5, 2));
    assert!(can_slice(&[10], 5, 5));
}

#[test]
fn parts_are_listed_in_pages() {
    let mut b = backend();
    let id = b.create_multipart_upload(&WHO, "b", "k").unwrap();
    for n in [5, 1, 3] {
        b.db.insert_part("b", &id, n, vec![], 10 * n as i64, "e");
    }
    let out = b.list_parts(&WHO, "b", "k", &id, None, Some(2)).unwrap();
    let numbers: Vec<i32> = out.parts.iter().map(|p| p.0).collect();
    assert_eq!(numbers, vec![1, 3]);
    assert_eq!(out.parts[0], (1, 10, "\"e\"".to_string()));
    assert!(out.is_truncated);
    assert_eq!(out.next_part_number_marker.as_deref(), Some("3"));
    let out = b.list_parts(&WHO, "b", "k", &id, Some("3"), Some(2)).unwrap();
    assert_eq!(out.parts.len(), 1);
    assert_eq!((out.is_truncated, out.next_part_number_marker), (false, None));
    // A marker that is no number counts as none.
    assert_eq!(b.list_parts(&WHO, "b", "k", &id, Some("x"), None).unwrap().parts.len(), 3);
}

#[test]
fn uploads_are_listed_by_key() {
    let mut b = backend();
    for (key, id) in [("b2", "u1"), ("a1", "u2"), ("A2", "u3"), ("a1", "u0"), ("x%y", "u4")] {
        b.db.insert_multipart("b", id, key);
    }
    let out = b.list_multipart_uploads(&WHO, "b", None, None, None).unwrap();
    let all: Vec<(String, String)> = out.uploads.unwrap();
    let ids: Vec<&str> = all.iter().map(|u| u.1.as_str()).collect();
    assert_eq!(ids, vec!["u3", "u0", "u2", "u1", "u4"]);
    // A prefix is taken literally.
    let count = |prefix: &str| {
        let out = b.list_multipart_uploads(&WHO, "b", Some(prefix), None, None).unwrap();
        out.uploads.map(|u| u.len()).unwrap_or(0)
    };
    assert_eq!(count("a"), 2);
    assert_eq!(count("A"), 1);
    assert_eq!(count("_2"), 0);
    assert_eq!(count("%y"), 0);
    assert_eq!(count("x%"), 1);
    assert_eq!(count(""), 5);
    assert_eq!(count("q"), 0);
    assert_eq!(count(&"p".repeat(50_000)), 0);
    let out = b.list_multipart_uploads(&WHO, "b", None, Some("A2"), Some(2)).unwrap();
    assert!(out.is_truncated);
    assert_eq!(out.next_key_marker.as_deref(), Some("a1"));
}

// ── paging ────────────────────────────────────────────────────────────────────

/// All pages of a listing: its keys, and its common prefixes.
fn page_through(
    b: &StorageBackend,
    prefix: Option<&str>,
    delimiter: Option<&str>,
    max_keys: i32,
) -> (Vec<String>, Vec<String>) {
    let (mut keys, mut common) = (Vec::new(), Vec::new());
    let mut token: Option<String> = None;
    for _ in 0..100 {
        let out = b
            .list_objects_v2(&WHO, "b", prefix, delimiter, token.as_deref(), None, Some(max_keys))
            .unwrap();
        assert!(out.key_count <= max_keys);
        keys.extend(out.contents.into_iter().map(|e| e.0));
        common.extend(out.common_prefixes.unwrap_or_default());
        assert_eq!(out.next.is_some(), out.is_truncated);
        match out.next {
            Some(next) => token = Some(next),
            None => return (keys, common),
        }
    }
    panic!("paging does not end");
}

#[test]
fn paging_lists_each_key_and_prefix_once() {
    let mut b = backend();
    for key in ["a/x", "a/y", "a", "b/y", "b0", "c", "c//d", "z/1/2", "z/1/3", "z/2"] {
        b.db.insert_object("b", 0, key, vec![], 1, "e").unwrap();
    }
    for max_keys in 1..8 {
        let (keys, common) = page_through(&b, None, Some("/"), max_keys);
        assert_eq!(keys, vec!["a", "b0", "c"]);
        assert_eq!(common, vec!["a/", "b/", "c/", "z/"]);
        let (keys, common) = page_through(&b, Some("z/"), Some("/"), max_keys);
        assert_eq!(keys, vec!["z/2"]);
        assert_eq!(common, vec!["z/1/"]);
        let (keys, common) = page_through(&b, Some("z/"), None, max_keys);
        assert_eq!(keys, vec!["z/1/2", "z/1/3", "z/2"]);
        assert!(common.is_empty());
        // Every key has the empty delimiter at once.
        let (keys, common) = page_through(&b, Some("z"), Some(""), max_keys);
        assert!(keys.is_empty());
        assert_eq!(common, vec!["z"]);
    }
}

#[test]
fn a_cursor_before_the_prefix_changes_nothing() {
    let mut b = backend();
    for key in ["b", "m/1", "n"] {
        b.db.insert_object("b", 0, key, vec![], 1, "e").unwrap();
    }
    let (rows, more) = b.db.list_objects("b", Some("a"), Some("m/"), 10);
    assert_eq!(rows, vec![("m/1".to_string(), 1, "e".to_string())]);
    assert!(!more);
}

#[test]
fn both_listings_agree() {
    let mut b = backend();
    for key in ["a/x", "b", "c/y", "d"] {
        b.db.insert_object("b", 0, key, vec![], 1, "e").unwrap();
    }
    for marker in [None, Some("a/"), Some("b")] {
        for max_keys in [None, Some(0), Some(1), Some(2)] {
            let v1 = b.list_objects(&WHO, "b", None, Some("/"), marker, max_keys).unwrap();
            let v2 =
                b.list_objects_v2(&WHO, "b", None, Some("/"), None, marker, max_keys).unwrap();
            assert_eq!(v1.contents, v2.contents);
            assert_eq!(v1.common_prefixes, v2.common_prefixes);
            assert_eq!((v1.is_truncated, v1.next), (v2.is_truncated, v2.next));
        }
    }
}

// ── times ─────────────────────────────────────────────────────────────────────

#[test]
fn requests_are_stamped_by_the_cluster_clock() {
    let mut b = backend();
    // An hour ahead of the system time.
    b.db.clock = ClusterClock::new(3_600_000);
    let before = b.db.clock.now_micros();
    b.finish_put_object("b", "src", Vec::new(), 0, "e").unwrap();
    b.copy_object(&WHO, "b", "dst", &copy_of("src")).unwrap();
    b.delete_object(&WHO, "b", "src").unwrap();
    let out = b.delete_objects(&WHO, "b", &vec!["dst".to_string()]).unwrap();
    assert_eq!(out.deleted, vec!["dst".to_string()]);
    let id = b.create_multipart_upload(&WHO, "b", "big").unwrap();
    b.complete_multipart_upload(&WHO, "b", "big", &id).unwrap();
    let after = b.db.clock.now_micros();
    let facts = b.db.facts_since(0, 100);
    assert_eq!(facts.len(), 5);
    assert!(facts.iter().all(|f| before <= f.ts && f.ts <= after));
}
