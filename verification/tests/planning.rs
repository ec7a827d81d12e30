use bytes::Bytes;
use shardscape::db::ReplicationEntry;
use shardscape::drain::{plan_replication, ReplicationPlan};
use shardscape::grouping::{group_by_delimiter, merge_and_truncate};
use shardscape::ranges::{resolve_range, slice_block_bytes, slice_blocks_for_range, Range};

fn entry() -> ReplicationEntry {
    ReplicationEntry { hash: vec![0xAB; 32], next_attempt_at: 0, attempts: 0, enqueued_at: 0 }
}

fn locations(ids: &[&str]) -> Vec<(String, Vec<u8>)> {
    ids.iter().map(|id| (id.to_string(), vec![1, 2, 3])).collect()
}

fn peers(pairs: &[(&str, &str)]) -> Vec<(String, String)> {
    pairs.iter().map(|(id, url)| (id.to_string(), url.to_string())).collect()
}

fn kv(keys: &[&str]) -> Vec<(String, i64, String)> {
    keys.iter().map(|k| (k.to_string(), 0i64, "etag".to_string())).collect()
}

#[test]
fn delimiter_groups_root_prefixes() {
    // Root listing with "/" collapses each top-level segment into one prefix.
    let (contents, common) = group_by_delimiter(
        kv(&["datasets/a.txt", "datasets/b/c.txt", "notes/x", "top.txt"]),
        "",
        "/",
    );
    assert_eq!(common, vec!["datasets/".to_string(), "notes/".to_string()]);
    // Only the key with no delimiter past the prefix stays in Contents.
    assert_eq!(contents.iter().map(|(k, _, _)| k.clone()).collect::<Vec<_>>(), vec!["top.txt"]);
}

#[test]
fn delimiter_groups_under_prefix() {
    // prefix=datasets/ delimiter=/ rolls up the next segment.
    let (contents, common) = group_by_delimiter(
        kv(&[
            "datasets/knob_flame_v3/a.xml",
            "datasets/knob_flame_v3/b.xml",
            "datasets/other/z",
            "datasets/top.txt",
        ]),
        "datasets/",
        "/",
    );
    assert_eq!(common, vec!["datasets/knob_flame_v3/".to_string(), "datasets/other/".to_string()]);
    assert_eq!(contents.iter().map(|(k, _, _)| k.clone()).collect::<Vec<_>>(), vec!["datasets/top.txt"]);
}

#[test]
fn delimiter_no_match_keeps_all_contents() {
    // No key contains the delimiter past the prefix → no common prefixes.
    let (contents, common) = group_by_delimiter(kv(&["a.txt", "b.txt"]), "", "/");
    assert!(common.is_empty());
    assert_eq!(contents.len(), 2);
}

#[test]
fn merge_and_truncate_counts_prefixes_and_contents() {
    let (contents, common, truncated, next) = merge_and_truncate(
        kv(&["a.txt", "z.txt"]),
        vec!["m/".to_string(), "n/".to_string()],
        3,
    );
    // 4 items, max 3 → truncated at the 3rd in key order (a.txt, m/, n/).
    assert!(truncated);
    assert_eq!(contents.iter().map(|(k, _, _)| k.clone()).collect::<Vec<_>>(), vec!["a.txt"]);
    assert_eq!(common, vec!["m/".to_string(), "n/".to_string()]);
    assert_eq!(next.as_deref(), Some("n/"));
}

#[test]
fn merge_and_truncate_not_truncated_when_within_max() {
    let (_c, _p, truncated, next) = merge_and_truncate(kv(&["a"]), vec!["b/".to_string()], 10);
    assert!(!truncated);
    assert_eq!(next, None);
}

#[test]
fn resolve_range_int_and_suffix() {
    // Explicit start-end (inclusive).
    assert_eq!(resolve_range(&Range::Int { first: 0, last: Some(9) }, 100), Some((0, 9)));
    // Open-ended start → to EOF.
    assert_eq!(resolve_range(&Range::Int { first: 50, last: None }, 100), Some((50, 99)));
    // last past EOF clamps.
    assert_eq!(resolve_range(&Range::Int { first: 90, last: Some(999) }, 100), Some((90, 99)));
    // Suffix: last N bytes.
    assert_eq!(resolve_range(&Range::Suffix { length: 20 }, 100), Some((80, 99)));
    // Suffix longer than object → whole object.
    assert_eq!(resolve_range(&Range::Suffix { length: 500 }, 100), Some((0, 99)));
    // Unsatisfiable: start beyond EOF, or empty object.
    assert_eq!(resolve_range(&Range::Int { first: 100, last: None }, 100), None);
    assert_eq!(resolve_range(&Range::Int { first: 0, last: None }, 0), None);
}

#[test]
fn slice_blocks_for_range_spans_and_boundaries() {
    // Three blocks of 10 bytes each: [0,10) [10,20) [20,30).
    let sizes = [10i64, 10, 10];
    // A range fully inside the middle block.
    assert_eq!(slice_blocks_for_range(&sizes, 12, 15), vec![(1, 2, 4)]);
    // A range spanning all three blocks with partial first/last.
    assert_eq!(slice_blocks_for_range(&sizes, 5, 24), vec![(0, 5, 5), (1, 0, 10), (2, 0, 5)]);
    // Exactly on a block boundary.
    assert_eq!(slice_blocks_for_range(&sizes, 10, 19), vec![(1, 0, 10)]);
    // Whole object.
    assert_eq!(slice_blocks_for_range(&sizes, 0, 29), vec![(0, 0, 10), (1, 0, 10), (2, 0, 10)]);
    // Last byte only.
    assert_eq!(slice_blocks_for_range(&sizes, 29, 29), vec![(2, 9, 1)]);
}

#[test]
fn slice_block_bytes_skips_and_takes() {
    let b = Bytes::from_static(b"0123456789");
    assert_eq!(slice_block_bytes(b.clone(), 0, None), Bytes::from_static(b"0123456789"));
    assert_eq!(slice_block_bytes(b.clone(), 2, Some(3)), Bytes::from_static(b"234"));
    assert_eq!(slice_block_bytes(b.clone(), 8, Some(50)), Bytes::from_static(b"89"));
    assert_eq!(slice_block_bytes(b, 20, None), Bytes::from_static(b""));
}

#[test]
fn plan_drops_when_block_has_no_locations() {
    // Block was deleted globally before replication ran.
    let plan = plan_replication(&entry(), &locations(&[]), "site-a", &peers(&[("site-b", "u")]));
    assert_eq!(plan, ReplicationPlan::Drop);
}

#[test]
fn plan_drops_when_we_already_hold_it_locally() {
    // local_id is among the block's locations — nothing to replicate.
    let plan = plan_replication(&entry(), &locations(&["site-a", "site-b"]), "site-a", &peers(&[("site-b", "u")]));
    assert_eq!(plan, ReplicationPlan::Drop);
}

#[test]
fn plan_defers_when_no_live_peer_holds_it() {
    // The block lives only on site-c, which is NOT in the live peer set
    // (it's down / evicted by heartbeat). Must back off, not drop.
    let plan = plan_replication(&entry(), &locations(&["site-c"]), "site-a", &peers(&[("site-b", "u")]));
    assert_eq!(plan, ReplicationPlan::Defer);
}

#[test]
fn plan_defers_when_peer_set_is_empty() {
    let plan = plan_replication(&entry(), &locations(&["site-b"]), "site-a", &peers(&[]));
    assert_eq!(plan, ReplicationPlan::Defer);
}

#[test]
fn plan_fetches_from_the_live_peer_that_holds_it() {
    let plan = plan_replication(
        &entry(),
        &locations(&["site-b"]),
        "site-a",
        &peers(&[("site-b", "http://b:8115"), ("site-c", "http://c:8115")]),
    );
    match plan {
        ReplicationPlan::FetchFrom(c) => {
            assert_eq!(c, vec![("site-b".to_string(), "http://b:8115".to_string())]);
        }
        other => panic!("expected FetchFrom, got {other:?}"),
    }
}

#[test]
fn plan_fetch_candidates_exclude_peers_that_dont_hold_the_block() {
    // site-c is live but doesn't hold the block; only site-b is a candidate.
    let plan = plan_replication(
        &entry(),
        &locations(&["site-b", "site-d"]),
        "site-a",
        &peers(&[("site-b", "ub"), ("site-c", "uc")]),
    );
    match plan {
        ReplicationPlan::FetchFrom(c) => {
            assert_eq!(c.len(), 1);
            assert_eq!(c[0].0, "site-b");
        }
        other => panic!("expected FetchFrom, got {other:?}"),
    }
}

#[test]
fn plan_local_presence_takes_precedence_over_fetchable_peers() {
    // Even though site-b (live) holds it, we already have it locally → Drop.
    let plan = plan_replication(
        &entry(),
        &locations(&["site-a", "site-b"]),
        "site-a",
        &peers(&[("site-b", "u")]),
    );
    assert_eq!(plan, ReplicationPlan::Drop);
}
