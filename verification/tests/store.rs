use shardscape::clock::ClusterClock;
use shardscape::db::{Policy, PolicyStatement};
use shardscape::multipart::parse_upload_id;
use shardscape::store::Store;

fn store() -> Store {
    store_with("site-a", 0)
}

/// A store with a chosen location id and clock offset. The offset lets tests
/// make one site's writes deterministically newer (LWW) without sleeping.
fn store_with(id: &str, offset_ms: i64) -> Store {
    Store::new(id.to_string(), ClusterClock::new(offset_ms))
}

/// Waits until the store's clock has moved on, so that the next write is newer.
fn tick(s: &Store) {
    let t = s.clock.now_micros();
    while s.clock.now_micros() == t {}
}

/// Pulls all of `src`'s new facts into `dst` and advances the cursor — the
/// in-process equivalent of the background peer-sync task.
fn pump(src: &Store, dst: &mut Store) {
    let after = dst.get_cursor(&src.local_location_id);
    let facts = src.facts_since(after, 1000);
    let mut max = after;
    for f in &facts {
        dst.apply_fact(f).unwrap();
        max = max.max(f.seq);
    }
    dst.set_cursor(&src.local_location_id, max);
}

fn h(n: u8) -> Vec<u8> {
    vec![n; 32]
}

#[test]
fn fact_sync_converges_object_and_delete() {
    let mut a = store_with("site-a", 0);
    let mut b = store_with("site-b", 0);

    // A put propagates to B.
    a.insert_object("bk", 0, "k", vec![h(1), h(2)], 99, "e1").unwrap();
    pump(&a, &mut b);
    let got = b.get_object("bk", "k").unwrap();
    assert_eq!(got.0, vec![h(1), h(2)]);
    assert_eq!(got.2, "e1");

    // A delete (tombstone) propagates: the key disappears on B.
    tick(&a);
    a.delete_object("bk", "k").unwrap();
    pump(&a, &mut b);
    assert!(b.get_object("bk", "k").is_none());

    // Cursor is monotonic — a second pump with no new facts is a no-op.
    let before = b.get_cursor("site-a");
    pump(&a, &mut b);
    assert_eq!(b.get_cursor("site-a"), before);
}

#[test]
fn lww_newer_clock_wins_regardless_of_apply_order() {
    // site-b's clock runs 60s ahead, so its writes always carry a newer ts.
    let mut a = store_with("site-a", 0);
    let mut b = store_with("site-b", 60_000);

    a.insert_object("bk", 0, "k", vec![h(1)], 1, "from-a").unwrap();
    b.insert_object("bk", 0, "k", vec![h(2)], 2, "from-b").unwrap();

    // Exchange both ways; both must converge to B's (newer) value.
    pump(&a, &mut b);
    pump(&b, &mut a);
    assert_eq!(a.get_object("bk", "k").unwrap().2, "from-b");
    assert_eq!(b.get_object("bk", "k").unwrap().2, "from-b");
}

#[test]
fn tombstone_not_resurrected_by_older_put() {
    // a (newer clock) deletes; b (older) put. The delete must win.
    let mut a = store_with("site-a", 60_000);
    let mut b = store_with("site-b", 0);

    b.insert_object("bk", 0, "k", vec![h(1)], 1, "older").unwrap();
    a.delete_object("bk", "k").unwrap();

    pump(&b, &mut a); // a sees b's older put — loses to the tombstone
    assert!(a.get_object("bk", "k").is_none());
    pump(&a, &mut b); // b sees a's newer tombstone — key removed
    assert!(b.get_object("bk", "k").is_none());
}

#[test]
fn block_announce_enqueues_self_pull() {
    let mut a = store_with("site-a", 0);
    let mut b = store_with("site-b", 0);

    // A stores a block locally and announces it.
    a.store_local_block(&h(5), b"3,abc", 10).unwrap();
    pump(&a, &mut b);

    // B now knows site-a holds it...
    let locs = b.get_block_fids(&h(5)).unwrap();
    assert!(locs.iter().any(|(id, _)| id == "site-a"));
    // ...and has queued a self-pull so the drainer fetches a local copy.
    let q = b.get_replication_queue();
    assert!(q.iter().any(|e| e.hash == h(5)));

    // Applying the same announce again is idempotent (no duplicate queue row).
    pump(&a, &mut b);
    let q2 = b.get_replication_queue();
    assert_eq!(q2.iter().filter(|e| e.hash == h(5)).count(), 1);
}

#[test]
fn object_round_trip_and_lww() {
    let mut s = store();
    let blocks = vec![h(1), h(2)];
    s.insert_object("b", 0, "k", blocks.clone(), 100, "etag1").unwrap();
    let got = s.get_object("b", "k").unwrap();
    assert_eq!(got.0, blocks);
    assert_eq!(got.1, 100);
    assert_eq!(got.2, "etag1");

    // A newer write wins; the manifest and etag update.
    tick(&s);
    s.insert_object("b", 0, "k", vec![h(3)], 50, "etag2").unwrap();
    let got = s.get_object("b", "k").unwrap();
    assert_eq!(got.0, vec![h(3)]);
    assert_eq!(got.2, "etag2");
}

#[test]
fn delete_object_removes_it() {
    let mut s = store();
    s.insert_object("b", 0, "k", vec![h(1)], 1, "e").unwrap();
    tick(&s);
    s.delete_object("b", "k").unwrap();
    assert!(s.get_object("b", "k").is_none());
}

#[test]
fn list_is_globally_sorted_and_paginates() {
    let mut s = store();
    for key in ["c", "a", "b", "e", "d"] {
        s.insert_object("b", 0, key, vec![h(1)], 1, "e").unwrap();
    }
    let (page, truncated) = s.list_objects("b", None, None, 3);
    let keys: Vec<_> = page.iter().map(|(k, _, _)| k.clone()).collect();
    assert_eq!(keys, vec!["a", "b", "c"]);
    assert!(truncated);

    let (page2, truncated2) = s.list_objects("b", Some("c"), None, 3);
    let keys2: Vec<_> = page2.iter().map(|(k, _, _)| k.clone()).collect();
    assert_eq!(keys2, vec!["d", "e"]);
    assert!(!truncated2);
}

#[test]
fn list_prefix_filters() {
    let mut s = store();
    for key in ["app/1", "app/2", "zoo/1"] {
        s.insert_object("b", 0, key, vec![h(1)], 1, "e").unwrap();
    }
    let (page, _) = s.list_objects("b", None, Some("app/"), 10);
    let keys: Vec<_> = page.iter().map(|(k, _, _)| k.clone()).collect();
    assert_eq!(keys, vec!["app/1", "app/2"]);
}

#[test]
fn live_set_tracks_manifests_and_tombstones() {
    let mut s = store();
    s.store_local_block(&h(1), b"3,01", 10).unwrap();
    s.store_local_block(&h(2), b"3,02", 10).unwrap();

    // Both blocks held locally; neither referenced yet → live set empty.
    assert_eq!(s.list_local_block_hashes().len(), 2);
    assert!(s.compute_live_block_set().is_empty());

    // An object referencing h(1) puts it in the live set; h(2) stays orphan.
    s.insert_object("b", 0, "k", vec![h(1)], 10, "e").unwrap();
    let live = s.compute_live_block_set();
    assert!(live.contains(&h(1)));
    assert!(!live.contains(&h(2)));

    // Deleting the object (tombstone) drops h(1) from the live set.
    tick(&s);
    s.delete_object("b", "k").unwrap();
    assert!(s.compute_live_block_set().is_empty());
}

#[test]
fn delete_local_block_drops_row_when_last_copy() {
    let mut s = store();
    s.store_local_block(&h(1), b"3,01", 10).unwrap();
    // A peer also holds it → not the last copy: row survives.
    s.add_block_location(&h(1), "site-b", b"9,xx");
    assert!(s.delete_local_block(&h(1)));
    assert!(s.get_local_block_fid(&h(1)).is_none());
    assert!(s.get_block_fids(&h(1)).is_some()); // site-b entry remains

    // Now remove the only remaining (foreign) copy bookkeeping → row gone.
    let mut s2 = store_with("site-b", 0);
    s2.store_local_block(&h(3), b"1,a", 5).unwrap();
    assert!(s2.delete_local_block(&h(3)));
    assert!(s2.get_block_fids(&h(3)).is_none());
}

#[test]
fn replication_queue_drain_for_local_target() {
    let mut s = store_with("site-b", 0);
    // site-a wrote a block targeting site-b; here we ARE site-b, enqueue to self.
    s.enqueue_replication(&h(7), &vec!["site-b".to_string()]);
    let q = s.get_replication_queue();
    assert_eq!(q.len(), 1);
    assert_eq!(q[0].hash, h(7));

    // Defer pushes it into the future, so it drops out of the ready set.
    s.defer_replication(&q[0]);
    assert!(s.get_replication_queue().is_empty());

    // Dequeue removes it entirely.
    s.enqueue_replication(&h(8), &vec!["site-b".to_string()]);
    s.dequeue_replication(&h(8), 0);
    let remaining: Vec<_> = s.get_replication_queue();
    assert!(remaining.iter().all(|e| e.hash != h(8)));
}

/// The strings of a JSON array.
fn strings(v: &serde_json::Value) -> Vec<String> {
    v.as_array().unwrap().iter().map(|s| s.as_str().unwrap().to_string()).collect()
}

#[test]
fn user_round_trip() {
    let mut s = store();
    let json = r#"{"statements":[{"effect":"Allow","actions":["s3:*"],"resources":["*"]}]}"#;
    s.create_user("AK", "SK", json).unwrap();
    let (secret, got) = s.get_user("AK").unwrap();
    assert_eq!(secret, "SK");
    let parsed: serde_json::Value = serde_json::from_str(&got).unwrap();
    let policy = Policy {
        statements: parsed["statements"]
            .as_array()
            .unwrap()
            .iter()
            .map(|st| PolicyStatement {
                effect: st["effect"].as_str().unwrap().to_string(),
                actions: strings(&st["actions"]),
                resources: strings(&st["resources"]),
            })
            .collect(),
    };
    assert!(policy.is_allowed("s3:GetObject", "arn:ss:bucket:::b/k"));
    assert!(s.get_user("nope").is_none());
}

#[test]
fn peer_registry_records_peers_and_excludes_self() {
    let mut s = store();
    s.register_node("http://a:8015");
    s.record_peer("site-b", "http://b:8015");
    // record_peer ignores attempts to overwrite self.
    s.record_peer("site-a", "http://evil:9999");

    let peers = s.get_peers_with_urls();
    let of = |id: &str| peers.iter().find(|p| p.0 == id).map(|p| p.1.as_str());
    assert_eq!(of("site-b"), Some("http://b:8015"));
    assert!(of("site-a").is_none(), "self excluded from peers");

    // all_nodes includes self.
    let all = s.all_nodes();
    assert!(all.iter().any(|(id, url)| id == "site-a" && url == "http://a:8015"));
    assert!(all.iter().any(|(id, _)| id == "site-b"));
}

#[test]
fn multipart_trait_delegation_round_trips_without_recursing() {
    let mut s = store();
    let upload_id = parse_upload_id("6f2c1f0a-8f2e-4c55-9a5e-3d0b7a1c2d3e").unwrap();
    let other = "00000000-0000-4000-8000-000000000000";

    s.insert_multipart("test", &upload_id, "big.bin");
    let key = s.get_multipart_key("test", &upload_id);
    assert_eq!(key.as_deref(), Some("big.bin"));

    // Unknown upload id yields None rather than an error.
    assert!(s.get_multipart_key("test", other).is_none());

    // Parts round-trip too.
    s.insert_part("test", &upload_id, 1, vec![vec![1u8; 32]], 32, "e1");
    s.insert_part("test", &upload_id, 2, vec![vec![2u8; 32]], 32, "e2");
    let parts = s.list_parts("test", &upload_id);
    assert_eq!(parts.len(), 2);
    assert_eq!(parts[0].0, 1);
    assert_eq!(parts[1].0, 2);

    // Abort/complete cleanup removes the upload and its parts.
    s.delete_multipart_upload("test", &upload_id);
    assert!(s.get_multipart_key("test", &upload_id).is_none());
    assert!(s.list_parts("test", &upload_id).is_empty());
}
