use shardscape::clock::{leader_offset_ms, millis_of, offset_drifted, ClusterClock};
use shardscape::config::{BlockBackend, Config};
use shardscape::db::ReplicationEntry;
use shardscape::digest::block_hash;
use shardscape::disk::DiskGuard;
use shardscape::drain::{block_path, not_in_cluster, not_reachable, BlockSource};
use shardscape::fetching::{DrainAction, FetchEvent, ReadAction, Unavailable};
use shardscape::hashing::{compute_shard_id, increment_bytes, prefix_key_range};
use shardscape::internal::{can_route, route, Answer, Route};
use shardscape::maintenance::DrainStart;
use shardscape::noise_transport::derive_psk;
use shardscape::peers::{
    block_request_path, facts_path, peer_id, peer_link_failed, peer_link_ok, register_path,
    PeerLinks,
};
use shardscape::replication::replication_backoff_ms;
use shardscape::rows::{Fact, FactRecord};
use shardscape::site::{build_site_config, render_k8s_manifests, status_text, SiteArgs};
use shardscape::storage::StorageBackend;
use shardscape::store::{Store, StoreError};
use shardscape::web::{
    can_decode, can_decode_query, dial_target, host_header, percent_decode, query_value,
    url_query_pairs,
};

fn store(id: &str) -> Store {
    Store::new(id.to_string(), ClusterClock::new(0))
}

fn backend() -> StorageBackend {
    let mut config = Config::default();
    config.storage.local_location_id = "site-a".to_string();
    config.storage.min_free_bytes = None;
    config.server.cluster_secret = "sesame".to_string();
    config.server.advertise_addr = "http://a:8015".to_string();
    StorageBackend::new(store("site-a"), config)
}

fn h(n: u8) -> Vec<u8> {
    vec![n; 32]
}

fn pairs(p: &[(&str, &str)]) -> Vec<(String, String)> {
    p.iter().map(|(a, b)| (a.to_string(), b.to_string())).collect()
}

// ── clock ─────────────────────────────────────────────────────────────────────

#[test]
fn offsets_shift_the_clock() {
    assert_eq!(ClusterClock::new(5).at_micros(1_000_000), 1_005_000);
    assert_eq!(ClusterClock::new(-5).at_micros(1_000_000), 995_000);
    assert_eq!(millis_of(1999), 1);
    assert_eq!(millis_of(-1999), -1);
    assert!(ClusterClock::new(0).at_micros(7) <= ClusterClock::new(0).at_micros(8));
}

#[test]
fn the_leader_sets_the_offset() {
    // The leader read 5_000_000 half of 4_000 microseconds ago.
    assert_eq!(leader_offset_ms(5_000_000, 4_000, 4_900_000), 102);
    assert_eq!(leader_offset_ms(5_000_000, 4_001, 5_010_000), -8);
    assert!(!offset_drifted(100, 110));
    assert!(offset_drifted(100, 111));
    assert!(offset_drifted(100, 89));
    let mut clock = ClusterClock::new(100);
    assert!(!clock.refresh_offset(110));
    assert_eq!(clock.get_offset(), 100);
    assert!(clock.refresh_offset(111));
    assert_eq!(clock.get_offset(), 111);
}

// ── hashing ───────────────────────────────────────────────────────────────────

#[test]
fn shards_come_from_the_digest_of_the_key() {
    for key in ["", "a", "object1", "logs/2024"] {
        let digest = blake3::hash(key.as_bytes());
        assert_eq!(block_hash(key.as_bytes()), digest.as_bytes());
        assert_eq!(&derive_psk(key), digest.as_bytes());
        assert!((0..64).contains(&compute_shard_id(key)));
    }
    assert_eq!(
        hex::encode(block_hash(b"")),
        "af1349b9f5f9a1a6a0404dea36dcc9499bcb25c9adc112b7cc9a93cae41f3262"
    );
}

#[test]
fn prefix_ranges_hold_exactly_the_prefixed_keys() {
    let keys = ["", "a", "ab", "ab\u{7f}", "abc", "abé", "ab🦀", "ac", "b", "é", "éa", "ê"];
    for prefix in ["", "a", "ab", "é", "ab\u{7f}", "ab\u{10ffff}", "\u{d7ff}", "\u{10ffff}"] {
        let (lower, upper) = prefix_key_range(prefix);
        for key in keys {
            let inside = key >= lower.as_str() && upper.as_deref().map_or(true, |u| key < u);
            assert_eq!(inside, key.starts_with(prefix), "{prefix} {key}");
        }
    }
    let upper = |prefix: &str| prefix_key_range(prefix).1;
    assert_eq!(upper("\u{7f}").as_deref(), Some("\u{80}"));
    assert_eq!(upper("ÿ").as_deref(), Some("\u{100}"));
    assert_eq!(upper("a\u{d7ff}").as_deref(), Some("a\u{e000}"));
    assert_eq!(upper("a\u{10ffff}").as_deref(), Some("b"));
    assert_eq!(upper("\u{10ffff}"), None);
    assert_eq!(increment_bytes(&[1, 0xFF]), Some(vec![2]));
    assert_eq!(increment_bytes(&[]), None);
}

// ── facts ─────────────────────────────────────────────────────────────────────

fn object_put(seq: i64, ts: i64, key: &str, etag: &str) -> FactRecord {
    FactRecord {
        seq,
        ts,
        fact: Fact::ObjectPut {
            bucket: "b".to_string(),
            key: key.to_string(),
            blocks: vec![hex::encode(h(1))],
            size: 7,
            etag: etag.to_string(),
        },
    }
}

fn object_delete(seq: i64, ts: i64, key: &str) -> FactRecord {
    let fact = Fact::ObjectDelete { bucket: "b".to_string(), key: key.to_string() };
    FactRecord { seq, ts, fact }
}

#[test]
fn sites_converge_in_any_order() {
    let facts = vec![
        object_put(1, 10, "k", "old"),
        object_delete(2, 20, "k"),
        object_put(3, 30, "k", "new"),
        object_put(4, 5, "l", "x"),
        object_delete(5, 6, "l"),
        FactRecord {
            seq: 6,
            ts: 9,
            fact: Fact::UserPut {
                access_key: "AK".to_string(),
                secret_key: "SK".to_string(),
                policy: "{}".to_string(),
            },
        },
    ];
    let orders: [Vec<usize>; 4] = [
        vec![0, 1, 2, 3, 4, 5],
        vec![5, 4, 3, 2, 1, 0],
        vec![2, 0, 4, 1, 5, 3],
        vec![1, 1, 3, 0, 2, 2, 5, 4, 0],
    ];
    for order in orders {
        let mut s = store("site-b");
        for i in order {
            s.apply_fact(&facts[i]).unwrap();
        }
        assert_eq!(s.get_object("b", "k").unwrap(), (vec![h(1)], 7, "new".to_string()));
        assert!(s.get_object("b", "l").is_none());
        assert_eq!(s.get_user("AK").unwrap().0, "SK");
        // What came from elsewhere is not logged again.
        assert!(s.facts_since(0, 100).is_empty());
    }
}

#[test]
fn facts_that_cannot_be_read_are_refused() {
    let mut s = store("site-b");
    let mut bad = object_put(1, 10, "k", "e");
    if let Fact::ObjectPut { blocks, .. } = &mut bad.fact {
        blocks.push("xyz".to_string());
    }
    assert_eq!(s.apply_fact(&bad), Err(StoreError::BadHex));
    assert!(s.get_object("b", "k").is_none());
    let announce = |hash: &str, fid: &str| FactRecord {
        seq: 1,
        ts: 1,
        fact: Fact::BlockAnnounce {
            hash: hash.to_string(),
            location_id: "site-a".to_string(),
            fid: fid.to_string(),
            size: 1,
        },
    };
    assert_eq!(s.apply_fact(&announce("0g", "00")), Err(StoreError::BadHex));
    assert_eq!(s.apply_fact(&announce("00", "0")), Err(StoreError::BadHex));
    assert_eq!(s.apply_fact(&announce("00", "AB")), Ok(()));
    assert_eq!(s.get_block_fids(&[0]).unwrap(), vec![("site-a".to_string(), vec![0xAB])]);
}

#[test]
fn what_is_logged_replays() {
    let mut a = store("site-a");
    let mut b = store("site-b");
    a.insert_object_at("b", 3, "k", vec![h(1), h(2)], 64, "e", 10).unwrap();
    a.store_local_block_at(&h(1), b"fid", 32, 11).unwrap();
    a.create_user_at("AK", "SK", "{}", 12).unwrap();
    a.delete_object_at("b", "gone", 13).unwrap();
    let log = a.facts_since(0, 100);
    let kinds: Vec<&str> = log.iter().map(|r| r.fact.kind_str()).collect();
    assert_eq!(kinds, vec!["object_put", "block_announce", "user_put", "object_delete"]);
    let seqs: Vec<(i64, i64)> = log.iter().map(|r| (r.seq, r.ts)).collect();
    assert_eq!(seqs, vec![(1, 10), (2, 11), (3, 12), (4, 13)]);
    for rec in &log {
        b.apply_fact(rec).unwrap();
    }
    assert_eq!(b.get_object("b", "k"), a.get_object("b", "k"));
    assert_eq!(b.get_user("AK"), a.get_user("AK"));
    assert_eq!(b.get_block_fids(&h(1)).unwrap(), vec![("site-a".to_string(), b"fid".to_vec())]);
    assert_eq!(b.pending_pulls(), 1);
    // Paging through the log.
    assert_eq!(a.facts_since(1, 2).len(), 2);
    assert_eq!(a.facts_since(4, 2).len(), 0);
}

#[test]
fn a_full_log_refuses_writes() {
    let mut s = store("site-a");
    assert!(s.fact_log.restore(object_delete(i64::MAX, 1, "x")));
    assert_eq!(s.insert_object("b", 0, "k", vec![], 0, "e"), Err(StoreError::LogFull));
    assert_eq!(s.delete_object("b", "k"), Err(StoreError::LogFull));
    assert_eq!(s.store_local_block(&h(1), b"f", 1), Err(StoreError::LogFull));
    assert_eq!(s.create_user("AK", "SK", "{}"), Err(StoreError::LogFull));
    assert!(s.get_object("b", "k").is_none());
    assert_eq!(StoreError::LogFull.message(), "fact log is full");
}

#[test]
fn cursors_never_go_back() {
    let mut s = store("site-a");
    assert_eq!(s.get_cursor("p"), 0);
    s.set_cursor("p", 9);
    s.set_cursor("p", 4);
    assert_eq!(s.get_cursor("p"), 9);
}

#[test]
fn pages_move_the_cursor() {
    let mut s = store("site-b");
    let page = vec![object_put(3, 1, "k", "e"), object_put(7, 2, "l", "e")];
    // A short page: caught up.
    assert!(!s.apply_page("site-a", &page));
    assert_eq!(s.get_cursor("site-a"), 7);
    assert!(s.get_object("b", "k").is_some() && s.get_object("b", "l").is_some());
    assert!(!s.apply_page("site-a", &vec![]));
    // A full page: there may be more.
    let full: Vec<FactRecord> =
        (0..500).map(|i| object_put(8 + i, 3, &format!("k{i}"), "e")).collect();
    assert!(s.apply_page("site-a", &full));
    assert_eq!(s.get_cursor("site-a"), 507);
    // What cannot be read is skipped.
    let mut bad = object_put(600, 9, "m", "e");
    if let Fact::ObjectPut { blocks, .. } = &mut bad.fact {
        blocks.push("?".to_string());
    }
    s.apply_page("site-a", &vec![bad]);
    assert_eq!(s.get_cursor("site-a"), 507);
}

#[test]
fn an_absent_site_catches_up_page_by_page() {
    let mut a = store("site-a");
    for i in 0..1203i64 {
        a.insert_object_at("b", 0, &format!("k{i}"), vec![], i, "e", i + 1).unwrap();
    }
    a.delete_object_at("b", "k7", 5000).unwrap();
    let mut b = store("site-b");
    let mut pages = 0;
    loop {
        let page = a.facts_since(b.get_cursor("site-a"), 500);
        pages += 1;
        if !b.apply_page("site-a", &page) {
            break;
        }
    }
    assert_eq!(pages, 3);
    assert_eq!(b.get_cursor("site-a"), 1204);
    assert_eq!(b.stats().unwrap().live_objects, 1202);
    assert!(b.get_object("b", "k7").is_none());
    assert_eq!(b.get_object("b", "k1202").unwrap().1, 1202);
}

#[test]
fn identical_data_is_stored_once() {
    let mut s = store("site-a");
    s.store_local_block_at(&h(1), b"f", 7, 1).unwrap();
    s.store_local_block_at(&h(1), b"g", 7, 2).unwrap();
    assert_eq!(s.list_local_block_hashes(), vec![h(1)]);
    assert_eq!(s.local_block_bytes(), Ok(7));
}

#[test]
fn sums_that_leave_the_range_are_errors() {
    let mut s = store("site-a");
    s.store_local_block(&h(1), b"f", i64::MAX).unwrap();
    assert_eq!(s.local_block_bytes(), Ok(i64::MAX));
    s.store_local_block(&h(2), b"f", 1).unwrap();
    assert_eq!(s.local_block_bytes(), Err(StoreError::SumOverflow));
    assert!(s.stats().is_err());
}

// ── blocks ────────────────────────────────────────────────────────────────────

#[test]
fn sizes_of_unknown_blocks_are_zero() {
    let mut s = store("site-a");
    s.store_local_block_at(&h(1), b"f", 12, 5).unwrap();
    s.insert_block_at(&h(2), b"g", 13, 5);
    assert_eq!(s.block_sizes(&vec![h(2), h(9), h(1)]), vec![13, 0, 12]);
    // The newer record of a block wins.
    s.store_local_block_at(&h(1), b"older", 99, 5).unwrap();
    assert_eq!(s.get_local_block_fid(&h(1)).unwrap(), b"f");
    s.store_local_block_at(&h(1), b"newer", 14, 6).unwrap();
    assert_eq!(s.get_local_block_fid(&h(1)).unwrap(), b"newer");
    assert_eq!(s.block_sizes(&vec![h(1)]), vec![14]);
    // A location alone keeps the size.
    s.add_block_location_at(&h(1), "site-b", b"x", 7);
    assert_eq!(s.block_sizes(&vec![h(1)]), vec![14]);
    assert_eq!(s.get_block_fids(&h(1)).unwrap().len(), 2);
}

#[test]
fn blocks_are_found_where_they_are() {
    let mut s = store("site-a");
    assert!(s.lacks_block(&h(1)));
    assert!(matches!(s.locate_block(&h(1)), BlockSource::Unknown));
    s.add_block_location(&h(1), "site-b", b"x");
    match s.locate_block(&h(1)) {
        BlockSource::Remote(candidates) => assert!(candidates.is_empty()),
        _ => panic!("expected a remote block"),
    }
    s.record_peer("site-b", "http://b");
    s.record_peer("site-c", "http://c");
    match s.locate_block(&h(1)) {
        BlockSource::Remote(c) => assert_eq!(c, pairs(&[("site-b", "http://b")])),
        _ => panic!("expected a remote block"),
    }
    assert!(s.lacks_block(&h(1)));
    s.store_local_block(&h(1), b"fid", 1).unwrap();
    assert!(!s.lacks_block(&h(1)));
    match s.locate_block(&h(1)) {
        BlockSource::Local(fid) => assert_eq!(fid, b"fid"),
        _ => panic!("expected a local block"),
    }
    let hex = "01".repeat(32);
    assert_eq!(not_in_cluster(&h(1)), format!("Block {hex} not found in cluster"));
    assert_eq!(not_reachable(&h(1)), format!("Block {hex} missing at all reachable locations"));
    assert_eq!(block_path(&[0xAB, 0xCD, 0xEF]), "ab/cd/abcdef");
}

// ── replication ───────────────────────────────────────────────────────────────

#[test]
fn the_time_is_taken_from_a_known_peer() {
    let mut s = store("site-a");
    assert_eq!(s.draw_peer(), None);
    s.register_node("http://a");
    assert_eq!(s.draw_peer(), None);
    s.record_peer("site-b", "http://b");
    s.record_peer("site-c", "http://c");
    let peers = s.get_peers();
    for _ in 0..20 {
        assert!(peers.contains(&s.draw_peer().unwrap()));
    }
}

#[test]
fn backoff_doubles_up_to_six_hours() {
    let got: Vec<i64> = (-1..11).map(replication_backoff_ms).collect();
    let minutes: Vec<i64> = vec![1, 1, 2, 4, 8, 16, 32, 64, 128, 256, 360, 360];
    assert_eq!(got, minutes.iter().map(|m| m * 60_000).collect::<Vec<_>>());
    assert_eq!(replication_backoff_ms(i32::MAX), 21_600_000);
    assert_eq!(replication_backoff_ms(i32::MIN), 60_000);
}

#[test]
fn deferred_entries_stay_queued() {
    let mut s = store("site-a");
    s.enqueue_replication_at(&h(1), &vec!["site-a".to_string(), "site-b".to_string()], 1000);
    assert_eq!(s.pending_pulls(), 1);
    let entry = &s.get_replication_queue_at(1000)[0];
    assert_eq!((entry.next_attempt_at, entry.attempts, entry.enqueued_at), (0, 0, 1000));
    let entry = ReplicationEntry { hash: h(1), next_attempt_at: 0, attempts: 0, enqueued_at: 1000 };
    s.defer_replication_at(&entry, 2000);
    assert!(s.get_replication_queue_at(61_999).is_empty());
    let again = s.get_replication_queue_at(62_000);
    assert_eq!((again[0].next_attempt_at, again[0].attempts, again[0].enqueued_at), (62_000, 1, 1000));
    assert!(s.get_stuck_replications().is_empty());
    for _ in 0..9 {
        s.defer_replication_at(&entry, 2000);
    }
    assert_eq!(s.get_stuck_replications(), vec![(h(1), 10, 1000)]);
    // Queueing again changes nothing.
    s.enqueue_replication_at(&h(1), &vec!["site-a".to_string()], 5000);
    assert_eq!(s.get_stuck_replications(), vec![(h(1), 10, 1000)]);
}

#[test]
fn entries_are_settled_one_by_one() {
    let mut s = store("site-a");
    let entry = |n: u8| ReplicationEntry { hash: h(n), next_attempt_at: 0, attempts: 0, enqueued_at: 0 };
    let here = vec!["site-a".to_string()];
    let peers = pairs(&[("site-b", "http://b")]);
    for n in 1..4 {
        s.enqueue_replication_at(&h(n), &here, 0);
    }
    // Gone everywhere: dropped. Only at an unknown site: deferred. At a peer: to be fetched.
    s.add_block_location(&h(2), "site-z", b"x");
    s.add_block_location(&h(3), "site-b", b"x");
    assert_eq!(s.start_entry_at(&entry(1), &peers, 0), None);
    assert_eq!(s.pending_pulls(), 2);
    assert_eq!(s.start_entry_at(&entry(2), &peers, 0), None);
    assert_eq!(s.pending_pulls(), 2);
    assert_eq!(s.get_replication_queue_at(0).len(), 1);
    assert_eq!(s.start_entry_at(&entry(3), &peers, 0), Some(peers));
    s.settle_entry_at(&entry(3), false, 0);
    assert!(s.get_replication_queue_at(59_999).is_empty());
    s.settle_entry_at(&entry(3), true, 0);
    assert_eq!(s.pending_pulls(), 1);
}

fn asks(action: &DrainAction) -> Option<(Vec<u8>, &str)> {
    match action {
        DrainAction::Ask(hash, id, _) => Some((hash.clone(), id.as_str())),
        _ => None,
    }
}

#[test]
fn a_drain_asks_each_source_in_turn() {
    let mut s = store("site-a");
    let here = vec!["site-a".to_string()];
    for n in 1..6 {
        s.enqueue_replication_at(&h(n), &here, n as i64);
    }
    s.record_peer("site-b", "http://b");
    s.record_peer("site-c", "http://c");
    // 1 is gone everywhere, 2 is at an unknown site, 4 is here.
    s.add_block_location(&h(2), "site-z", b"x");
    for n in [3, 5] {
        s.add_block_location(&h(n), "site-b", b"x");
        s.add_block_location(&h(n), "site-c", b"x");
    }
    s.store_local_block(&h(4), b"fid", 1).unwrap();
    let entries = s.get_replication_queue_at(10);
    assert_eq!(entries.len(), 5);
    let peers = s.get_peers_with_urls();
    let (mut drain, action) = s.begin_drain_at(entries, peers, 10);
    assert_eq!(asks(&action), Some((h(3), "site-b")));
    // 1 has left the queue; 2 has been put off.
    assert_eq!(s.pending_pulls(), 4);
    assert_eq!(s.get_replication_queue_at(10).len(), 3);
    let action = s.drain_step_at(&mut drain, FetchEvent::Missed, 10);
    assert_eq!(asks(&action), Some((h(3), "site-c")));
    let action = s.drain_step_at(&mut drain, FetchEvent::Missed, 10);
    // 3 has been put off, 4 has left the queue.
    assert_eq!(asks(&action), Some((h(5), "site-b")));
    assert_eq!(s.pending_pulls(), 3);
    // What answers nothing changes nothing.
    let action = s.drain_step_at(&mut drain, FetchEvent::Stored(true), 10);
    assert_eq!(asks(&action), Some((h(5), "site-b")));
    let action = s.drain_step_at(&mut drain, FetchEvent::Arrived, 10);
    assert!(matches!(action, DrainAction::Keep(hash) if hash == h(5)));
    let action = s.drain_step_at(&mut drain, FetchEvent::Stored(true), 10);
    assert!(matches!(action, DrainAction::Done));
    assert_eq!(s.pending_pulls(), 2);
    assert!(s.get_replication_queue_at(10).is_empty());
    assert_eq!(s.get_replication_queue_at(60_010).len(), 2);
}

#[test]
fn a_block_that_cannot_be_stored_is_put_off() {
    let mut s = store("site-a");
    s.enqueue_replication_at(&h(1), &vec!["site-a".to_string()], 0);
    s.record_peer("site-b", "http://b");
    s.add_block_location(&h(1), "site-b", b"x");
    let entries = s.get_replication_queue_at(0);
    let peers = s.get_peers_with_urls();
    let (mut drain, _) = s.begin_drain_at(entries, peers, 0);
    s.drain_step_at(&mut drain, FetchEvent::Arrived, 0);
    let action = s.drain_step_at(&mut drain, FetchEvent::Stored(false), 0);
    assert!(matches!(action, DrainAction::Done));
    assert_eq!(s.pending_pulls(), 1);
    assert!(s.get_replication_queue_at(59_999).is_empty());
}

#[test]
fn a_read_falls_back_from_peer_to_peer() {
    let mut s = store("site-a");
    let hex = "01".repeat(32);
    match s.begin_read(&h(1)).1 {
        ReadAction::Fail(t) => assert_eq!(t, format!("Block {hex} not found in cluster")),
        _ => panic!("the block is nowhere"),
    }
    s.add_block_location(&h(1), "site-b", b"x");
    s.add_block_location(&h(1), "site-c", b"x");
    let missing = format!("Block {hex} missing at all reachable locations");
    match s.begin_read(&h(1)).1 {
        ReadAction::Fail(t) => assert_eq!(t, missing),
        _ => panic!("no holder is known"),
    }
    s.record_peer("site-b", "http://b");
    s.record_peer("site-c", "http://c");
    let (mut read, action) = s.begin_read(&h(1));
    assert!(matches!(action, ReadAction::Ask(id, url) if id == "site-b" && url == "http://b"));
    let action = s.read_step_at(&mut read, FetchEvent::Missed, 7);
    assert!(matches!(action, ReadAction::Ask(id, _) if id == "site-c"));
    match s.read_step_at(&mut read, FetchEvent::Missed, 7) {
        ReadAction::Fail(t) => assert_eq!(t, missing),
        _ => panic!("both peers failed"),
    }
    assert_eq!(s.pending_pulls(), 0);
    s.store_local_block(&h(1), b"fid", 1).unwrap();
    assert!(matches!(s.begin_read(&h(1)).1, ReadAction::ReadLocal(fid) if fid == b"fid"));
}

#[test]
fn a_failed_read_tells_lost_blocks_from_failed_fetches() {
    let mut s = store("site-a");
    let (read, _) = s.begin_read(&h(1));
    assert_eq!(read.why_unavailable(), Unavailable::Unknown);
    assert!(read.holders.is_empty());
    s.add_block_location(&h(1), "site-c", b"x");
    s.add_block_location(&h(1), "site-b", b"x");
    s.record_peer("site-d", "http://d");
    // No known peer holds the block.
    let (read, _) = s.begin_read(&h(1));
    assert_eq!(read.why_unavailable(), Unavailable::HoldersDown);
    assert_eq!(read.holders, vec!["site-b".to_string(), "site-c".to_string()]);
    assert_eq!(s.block_holders(&h(1)), read.holders);
    // One does, and does not deliver.
    s.record_peer("site-c", "http://c");
    let (mut read, _) = s.begin_read(&h(1));
    assert!(matches!(s.read_step(&mut read, FetchEvent::Missed), ReadAction::Fail(_)));
    assert_eq!(read.why_unavailable(), Unavailable::FetchFailed);
    assert_eq!(read.holders.len(), 2);
}

#[test]
fn a_read_that_cannot_be_kept_is_queued() {
    let mut s = store("site-a");
    s.add_block_location(&h(1), "site-b", b"x");
    s.record_peer("site-b", "http://b");
    for (kept, pulls) in [(true, 0), (false, 1)] {
        let (mut read, _) = s.begin_read(&h(1));
        assert!(matches!(s.read_step_at(&mut read, FetchEvent::Arrived, 7), ReadAction::Keep));
        let action = s.read_step_at(&mut read, FetchEvent::Stored(kept), 7);
        assert!(matches!(action, ReadAction::HandOut));
        assert_eq!(s.pending_pulls(), pulls);
    }
}

#[test]
fn a_drain_pauses_under_pressure() {
    let mut b = backend();
    b.db.enqueue_replication(&h(1), &vec!["site-a".to_string()]);
    b.db.record_peer("site-b", "http://b");
    match b.drain_replication_queue() {
        DrainStart::Ready { entries, peers } => {
            assert_eq!(entries.len(), 1);
            assert_eq!(peers, pairs(&[("site-b", "http://b")]));
        }
        DrainStart::Paused { .. } => panic!("nothing presses"),
    }
    b.db.store_local_block(&h(2), b"fid", 150).unwrap();
    b.disk_guard = DiskGuard::over_quota();
    match b.drain_replication_queue() {
        DrainStart::Paused { reason, reaped } => {
            assert_eq!(reason, "over quota (200B used, cap 100B)");
            assert_eq!(reaped, vec![(h(2), b"fid".to_vec())]);
        }
        DrainStart::Ready { .. } => panic!("the guard has tripped"),
    }
    assert_eq!(b.db.pending_pulls(), 1);
    b.refresh_guard(None);
    assert_eq!(b.disk_guard.local_usage(), 0);
    assert!(b.disk_guard.writes_allowed());
}

#[test]
fn sweeps_wait_for_the_grace_period() {
    let mut s = store("site-a");
    s.store_local_block(&h(1), b"f", 1).unwrap();
    s.add_block_location(&h(1), "site-b", b"x");
    assert!(s.sweep_orphaned_blocks_at(1_000, 60, false).is_empty());
    assert_eq!(s.get_pending_deletions(), vec![(h(1), 61_000)]);
    assert!(s.sweep_orphaned_blocks_at(60_999, 60, false).is_empty());
    assert_eq!(s.sweep_orphaned_blocks_at(61_000, 60, false), vec![(h(1), b"f".to_vec())]);
    assert!(s.get_pending_deletions().is_empty());
    // The copy at the other site stays known.
    assert_eq!(s.get_block_fids(&h(1)).unwrap(), vec![("site-b".to_string(), b"x".to_vec())]);
    // What is scheduled but not held is forgotten.
    s.add_pending_deletion(&h(9), 5);
    s.sweep_orphaned_blocks_at(0, 60, false);
    assert!(s.get_pending_deletions().is_empty());
}

// ── membership ────────────────────────────────────────────────────────────────

#[test]
fn gossip_only_adds() {
    let mut s = store("site-a");
    s.register_node_at("http://a", 1);
    s.record_peer_at("site-b", "http://b", 1);
    let nodes = pairs(&[("site-c", "http://c"), ("site-a", "http://evil"), ("site-b", "http://b2")]);
    s.merge_members_at(&nodes, 2);
    assert_eq!(
        s.all_nodes(),
        pairs(&[("site-a", "http://a"), ("site-b", "http://b2"), ("site-c", "http://c")])
    );
    assert_eq!(s.get_peers(), pairs(&[("site-b", "http://b2"), ("site-c", "http://c")]));
    s.merge_members(&pairs(&[("site-d", "http://d"), ("site-a", "http://evil")]));
    assert_eq!(s.get_peers().len(), 3);
    assert_eq!(s.all_nodes()[0], ("site-a".to_string(), "http://a".to_string()));
}

#[test]
fn outages_are_reported_once() {
    let mut links = PeerLinks::new();
    assert!(!peer_link_ok(&mut links, "p"));
    assert!(peer_link_failed(&mut links, "p"));
    assert!(!peer_link_failed(&mut links, "p"));
    assert!(peer_link_failed(&mut links, "q"));
    assert!(peer_link_ok(&mut links, "p"));
    assert!(!peer_link_ok(&mut links, "p"));
    assert!(peer_link_failed(&mut links, "p"));
}

#[test]
fn paths_of_requests_to_peers() {
    assert_eq!(register_path("site-b", "http://b:1"), "/internal/join?id=site-b&addr=http://b:1");
    assert_eq!(facts_path(-3), "/internal/facts/-3");
    assert_eq!(block_request_path(&[0xAB, 1]), "/internal/blocks/ab01");
    assert_eq!(peer_id("site-b", "http://b"), "site-b");
    assert_eq!(peer_id("", "http://b"), "http://b");
    assert_eq!(dial_target("http://site-a:8015//"), "site-a:8015");
    assert_eq!(dial_target("https://site-a:8015"), "site-a:8015");
    assert_eq!(dial_target("http://http://https://x/"), "x");
    assert_eq!(host_header("http://site-a:8015/"), "site-a:8015");
}

// ── queries ───────────────────────────────────────────────────────────────────

#[test]
fn percent_escapes_are_decoded() {
    let d = |s: &str| {
        assert!(can_decode(s));
        percent_decode(s)
    };
    assert_eq!(d("a%20b+c"), "a b c");
    assert_eq!(d("%41"), "A");
    assert_eq!(d("%4"), "%4");
    assert_eq!(d("%zz%"), "%zz%");
    // A sign is taken for part of the number.
    assert_eq!(d("%+4"), "\u{4}");
    assert_eq!(d("%C3%a9"), "é");
    // What is not UTF-8 is replaced.
    assert_eq!(d("%ffx"), "\u{FFFD}x");
    assert_eq!(d("é"), "é");
    // An escape that ends inside a character cannot be cut out.
    assert_eq!(d("%é"), "%é");
    assert!(!can_decode("%aé"));
}

#[test]
fn queries_are_split_into_pairs() {
    let q = "id=site%2Da&&flag&addr=http://x?a=b&id=last&=v";
    assert!(can_decode_query(q));
    let got = url_query_pairs(q);
    assert_eq!(
        got,
        pairs(&[("id", "site-a"), ("addr", "http://x?a=b"), ("id", "last"), ("", "v")])
    );
    assert_eq!(query_value(&got, "id"), "last");
    assert_eq!(query_value(&got, "none"), "");
    assert!(!can_decode_query("a=%aé"));
}

// ── internal requests ─────────────────────────────────────────────────────────

fn ask(b: &mut StorageBackend, path: &str, query: Option<&str>) -> Answer {
    assert!(can_route(Some("sesame"), "sesame", path, query));
    b.handle_internal_request(Some("sesame"), path, query)
}

fn text(a: Answer) -> (u16, String) {
    match a {
        Answer::Text { status, body } => (status, body),
        _ => panic!("expected a text"),
    }
}

#[test]
fn internal_requests_need_the_secret() {
    let mut b = backend();
    for provided in [None, Some(""), Some("sesame2"), Some("Sesame")] {
        let answer = b.handle_internal_request(provided, "/internal/gc/force", None);
        assert_eq!(text(answer), (401, "Unauthorized".to_string()));
        let answer =
            b.handle_internal_request(provided, "/internal/join", Some("id=x&addr=http://x"));
        assert_eq!(text(answer), (401, "Unauthorized".to_string()));
    }
    assert!(b.db.all_nodes().is_empty());
}

#[test]
fn internal_requests_are_answered() {
    let mut b = backend();
    b.db.register_node("http://a:8015");
    match ask(&mut b, "/internal/cluster/config", None) {
        Answer::ClusterConfig { cluster_time_micros, location_id, advertise_addr } => {
            assert!(cluster_time_micros > 0);
            assert_eq!((location_id.as_str(), advertise_addr.as_str()), ("site-a", "http://a:8015"));
        }
        _ => panic!("expected the configuration"),
    }
    assert_eq!(
        text(ask(&mut b, "/internal/join", Some("addr=http%3A%2F%2Fb&id=site-b"))),
        (200, "ok".to_string())
    );
    // Without an address there is nothing to register.
    text(ask(&mut b, "/internal/join", Some("id=site-c")));
    text(ask(&mut b, "/internal/join", None));
    match ask(&mut b, "/internal/nodes", None) {
        Answer::Nodes(nodes) => {
            assert_eq!(nodes, pairs(&[("site-a", "http://a:8015"), ("site-b", "http://b")]))
        }
        _ => panic!("expected nodes"),
    }
    b.db.store_local_block(&h(1), b"fid", 5).unwrap();
    match ask(&mut b, "/internal/facts/0", None) {
        Answer::Facts(facts) => assert_eq!(facts.len(), 1),
        _ => panic!("expected facts"),
    }
    match ask(&mut b, "/internal/facts/x", None) {
        Answer::Facts(facts) => assert_eq!(facts.len(), 1),
        _ => panic!("expected facts"),
    }
    match ask(&mut b, "/internal/facts/1", None) {
        Answer::Facts(facts) => assert!(facts.is_empty()),
        _ => panic!("expected facts"),
    }
    match ask(&mut b, "/internal/gc/force", None) {
        Answer::Swept(reaped) => assert_eq!(reaped, vec![(h(1), b"fid".to_vec())]),
        _ => panic!("expected a sweep"),
    }
    let path = format!("/internal/blocks/{}", "0A".repeat(32));
    match ask(&mut b, &path, None) {
        Answer::Block { hash } => assert_eq!(hash, h(10)),
        _ => panic!("expected a block"),
    }
    assert_eq!(
        text(ask(&mut b, "/internal/blocks/00", None)),
        (400, "Hash must be 32 bytes".to_string())
    );
    assert_eq!(text(ask(&mut b, "/internal/blocks/0", None)), (400, "Invalid hash".to_string()));
    assert_eq!(text(ask(&mut b, "/other", None)), (404, "Not found".to_string()));
    assert!(matches!(route(Some("s"), "s", "/internal/nodes/", None), Route::NotFound));
    // Only a join looks into its query.
    let broken = Some("a=%aé");
    assert!(can_route(Some("s"), "s", "/internal/nodes", broken));
    assert!(!can_route(Some("s"), "s", "/internal/join", broken));
    // A request with a wrong secret is refused whatever it holds.
    assert!(can_route(Some("t"), "s", "/internal/join", broken));
    let before = b.db.all_nodes();
    for provided in [None, Some("wrong")] {
        let answer = b.handle_internal_request(provided, "/internal/join", broken);
        assert_eq!(text(answer), (401, "Unauthorized".to_string()));
    }
    assert_eq!(b.db.all_nodes(), before);
    // No sweep before the epoch.
    assert_eq!(
        text(b.answer_at(Route::ForceGc, 0, 0, None)),
        (500, "sweep failed".to_string())
    );
}

// ── the site ──────────────────────────────────────────────────────────────────

#[test]
fn a_site_keeps_its_data_in_its_directory() {
    let args = |dir: &str| SiteArgs {
        location_id: "home".to_string(),
        s3_addr: "1.2.3.4:1".to_string(),
        internal_addr: "1.2.3.4:2".to_string(),
        advertise: "http://home:2".to_string(),
        data_dir: dir.to_string(),
    };
    let c = build_site_config(&args("/data"), "secret", "key");
    assert_eq!(c.database.db_path, "/data/shardscape.db");
    assert!(matches!(c.storage.backend, BlockBackend::Local { path } if path == "/data/blocks"));
    assert_eq!(c.server.s3_bind_addr, "1.2.3.4:1");
    assert_eq!(c.server.internal_bind_addr, "1.2.3.4:2");
    assert_eq!(c.server.advertise_addr, "http://home:2");
    assert_eq!(c.server.cluster_secret, "secret");
    assert_eq!(c.server.noise_private_key, "key");
    assert_eq!(c.storage.local_location_id, "home");
    for dir in [".", "", "a/", "/"] {
        let joined = std::path::PathBuf::from(dir).join("shardscape.db");
        let c = build_site_config(&args(dir), "secret", "key");
        assert_eq!(c.database.db_path, joined.to_string_lossy());
    }
}

#[test]
fn ports_are_what_follows_the_last_colon() {
    let mut config = Config::default();
    config.server.s3_bind_addr = "[::1]:7000".to_string();
    config.server.internal_bind_addr = "7001".to_string();
    let y = render_k8s_manifests(&config);
    assert!(y.contains("containerPort: 7000"));
    assert!(y.contains("containerPort: 7001"));
    assert!(y.starts_with("# Rendered by `shardscape render-k8s` for site 'default'. Do not hand-edit;\n"));
    assert!(y.contains("    matchLabels: { app: shardscape, site: default }\n"));
    assert!(y.ends_with("    - { name: internal, port: 7001, targetPort: internal }\n"));
}

#[test]
fn the_status_sums_up_the_site() {
    let mut b = backend();
    b.db.insert_object_at("b", 0, "k", vec![h(1)], 2048, "e", 1).unwrap();
    b.db.store_local_block_at(&h(1), b"f", 2048, 1).unwrap();
    b.db.record_peer("site-b", "http://b");
    b.db.set_cursor("site-b", 12);
    let stats = b.db.stats().unwrap();
    let status = status_text(&b.db, &b.config, &stats, &b.disk_guard);
    let lines: Vec<&str> = status.lines().collect();
    assert_eq!(
        lines,
        vec![
            "Shardscape site 'site-a'",
            "  S3 endpoint:        http://0.0.0.0:8014",
            "  live objects:       1",
            "  local blocks:       1 (2.0Ki)",
            "  blocks to pull:     0",
            "  pending GC:         0",
            "  fact-log length:    2",
            "  disk guard:         off",
            "  peers:              1",
            "    - site-b         http://b  (synced through fact #12)",
        ]
    );
    let guard = DiskGuard { min_free_bytes: 1024, free: 4096, max_bytes: 0, local_usage: 0 };
    let status = status_text(&b.db, &b.config, &stats, &guard);
    assert!(status.contains("  disk free:          4.0Ki (guard: OK, reserve 1.0Ki)\n"));
}
