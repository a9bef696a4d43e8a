use rdfs::{
    compact, load_snapshot, plan_remove, plan_upload, sample_snapshot, LivenessTracker,
    MetadataStore, PlanError, Status,
};

fn sample_records() -> Vec<Option<rdfs::MetaStore>> {
    sample_snapshot().into_iter().map(Some).collect()
}

#[test]
fn compaction_last_write_wins() {
    let records = sample_records();
    let prune: Vec<String> = Vec::new();
    let compacted = compact(&records, &prune);
    assert_eq!(compacted.len(), 2);
    assert_eq!(compacted[0].chunk_id, 1);
    assert_eq!(compacted[0].hosts[0].ip, "192.168.1.80");
    assert_eq!(compacted[0].hosts[1].ip, "192.168.1.83");
    // The two records sharing (hash, chunk_id 2) collapse to the later one,
    // at the position where the key first appeared.
    assert_eq!(compacted[1].chunk_id, 2);
    assert_eq!(compacted[1].hosts[0].ip, "192.168.1.82");
    assert_eq!(compacted[1].hosts[1].ip, "192.168.1.255");
}

#[test]
fn compaction_skips_malformed_lines() {
    let mut records: Vec<Option<rdfs::MetaStore>> = Vec::new();
    records.push(None);
    for r in sample_records() {
        records.push(r);
    }
    records.push(None);
    let prune: Vec<String> = Vec::new();
    let compacted = compact(&records, &prune);
    assert_eq!(compacted.len(), 2);
}

#[test]
fn tombstone_excludes_pruned_hash() {
    let records = sample_records();
    let prune = vec!["5c9d231c8b6d10f43fd0768ca80755d2".to_string()];
    let compacted = compact(&records, &prune);
    assert_eq!(compacted.len(), 0);
}

#[test]
fn compaction_is_idempotent() {
    let records = sample_records();
    let prune = vec!["unrelated-hash".to_string()];
    let once = compact(&records, &prune);
    let reread: Vec<Option<rdfs::MetaStore>> = once.iter().map(|d| Some(d.duplicate())).collect();
    // After an export the prune log is gone, so the reload sees none.
    let twice = compact(&reread, &Vec::new());
    assert_eq!(once.len(), twice.len());
    for (x, y) in once.iter().zip(twice.iter()) {
        assert_eq!(x.file_name, y.file_name);
        assert_eq!(x.hash, y.hash);
        assert_eq!(x.chunk_id, y.chunk_id);
        assert_eq!(x.hosts.len(), y.hosts.len());
        for (hx, hy) in x.hosts.iter().zip(y.hosts.iter()) {
            assert_eq!(hx.ip, hy.ip);
        }
    }
}

#[test]
fn load_snapshot_fills_the_store() {
    let records = sample_records();
    let store = load_snapshot(&records, &Vec::new());
    assert_eq!(store.len(), 2);
    let names = store.list_files();
    assert_eq!(names, vec!["README.md".to_string()]);
}

#[test]
fn list_files_deduplicates() {
    let mut store = MetadataStore::new();
    store.load(sample_snapshot());
    assert_eq!(store.len(), 3);
    let names = store.list_files();
    assert_eq!(names, vec!["README.md".to_string()]);
}

#[test]
fn load_snapshot_honours_the_prune_log() {
    let records = sample_records();
    let prune = vec!["5c9d231c8b6d10f43fd0768ca80755d2".to_string()];
    let store = load_snapshot(&records, &prune);
    assert_eq!(store.len(), 0);
    assert!(store.list_files().is_empty());
}

#[test]
fn list_files_keeps_first_occurrence_order() {
    let mut store = MetadataStore::new();
    let mut batch = Vec::new();
    for (name, chunk_id) in [("b.txt", 1), ("a.txt", 1), ("b.txt", 2), ("c.txt", 1)] {
        batch.push(rdfs::MetaStore {
            file_name: name.to_string(),
            hash: format!("hash-{}", name),
            chunk_id,
            hosts: Vec::new(),
        });
    }
    store.load(batch);
    let names = store.list_files();
    assert_eq!(
        names,
        vec!["b.txt".to_string(), "a.txt".to_string(), "c.txt".to_string()]
    );
}

#[test]
fn get_leaves_the_store_unchanged() {
    let mut store = MetadataStore::new();
    store.load(sample_snapshot());
    let before = store.len();
    let _ = store.get(&"README.md".to_string());
    assert_eq!(store.len(), before);
}

#[test]
fn remove_without_hosts_still_appends_a_tombstone() {
    let mut store = MetadataStore::new();
    store.load(vec![rdfs::MetaStore {
        file_name: "bare.txt".to_string(),
        hash: "hash-bare".to_string(),
        chunk_id: 1,
        hosts: Vec::new(),
    }]);
    let outcome = plan_remove(&mut store, &"bare.txt".to_string());
    assert_eq!(outcome.deletes.len(), 0);
    // A descriptor was removed, so a tombstone line is owed, but no
    // descriptor had a host to take its hash from.
    assert_eq!(outcome.tombstone, Some(String::new()));
}

#[test]
fn get_filters_by_name() {
    let mut store = MetadataStore::new();
    store.load(sample_snapshot());
    let hits = store.get(&"README.md".to_string());
    assert_eq!(hits.len(), 3);
    let misses = store.get(&"missing.txt".to_string());
    assert_eq!(misses.len(), 0);
}

#[test]
fn remove_purges_and_plans_fan_out() {
    let records = sample_records();
    let mut store = load_snapshot(&records, &Vec::new());
    let outcome = plan_remove(&mut store, &"README.md".to_string());
    // Two surviving descriptors with two hosts each: four remote deletes.
    assert_eq!(outcome.deletes.len(), 4);
    assert_eq!(
        outcome.tombstone,
        Some("5c9d231c8b6d10f43fd0768ca80755d2".to_string())
    );
    assert_eq!(store.len(), 0);
    let ips: Vec<String> = outcome.deletes.iter().map(|d| d.ip.clone()).collect();
    assert_eq!(
        ips,
        vec![
            "192.168.1.80".to_string(),
            "192.168.1.83".to_string(),
            "192.168.1.82".to_string(),
            "192.168.1.255".to_string(),
        ]
    );
    for d in &outcome.deletes {
        assert_eq!(d.hash, "5c9d231c8b6d10f43fd0768ca80755d2");
    }
}

#[test]
fn remove_unknown_file_touches_nothing() {
    let records = sample_records();
    let mut store = load_snapshot(&records, &Vec::new());
    let before = store.len();
    let outcome = plan_remove(&mut store, &"missing.txt".to_string());
    assert_eq!(outcome.deletes.len(), 0);
    assert_eq!(outcome.tombstone, None);
    assert_eq!(store.len(), before);
}

fn three_workers() -> Vec<String> {
    vec![
        "10.0.0.1".to_string(),
        "10.0.0.2".to_string(),
        "10.0.0.3".to_string(),
    ]
}

#[test]
fn placement_boundary_three_chunks() {
    // size 1536 with chunk size 512 gives a chunk count of 3, but the
    // planner's iteration excludes the final chunk index, so the plan holds
    // two descriptors, for chunk ids 1 and 2.
    let workers = three_workers();
    let plan = plan_upload(
        &"foo.txt".to_string(),
        &"hash-1".to_string(),
        1536,
        &workers,
    )
    .unwrap();
    assert_eq!(plan.len(), 2);
    assert_eq!(plan[0].chunk_id, 1);
    assert_eq!(plan[1].chunk_id, 2);
}

#[test]
fn placement_small_files_plan_nothing() {
    let workers = three_workers();
    let plan = plan_upload(&"a".to_string(), &"h".to_string(), 511, &workers).unwrap();
    assert_eq!(plan.len(), 0);
    let plan = plan_upload(&"a".to_string(), &"h".to_string(), 512, &workers).unwrap();
    assert_eq!(plan.len(), 0);
    let plan = plan_upload(&"a".to_string(), &"h".to_string(), 1024, &workers).unwrap();
    assert_eq!(plan.len(), 1);
}

#[test]
fn placement_replicates_on_distinct_workers() {
    let workers = three_workers();
    let plan = plan_upload(
        &"foo.txt".to_string(),
        &"hash-1".to_string(),
        4096,
        &workers,
    )
    .unwrap();
    assert_eq!(plan.len(), 7);
    for d in &plan {
        assert_eq!(d.file_name, "foo.txt");
        assert_eq!(d.hash, "hash-1");
        assert_eq!(d.hosts.len(), 3);
        for h in &d.hosts {
            assert_eq!(h.status, Status::Healthy);
            assert!(workers.contains(&h.ip));
        }
        for a in 0..d.hosts.len() {
            for b in a + 1..d.hosts.len() {
                assert_ne!(d.hosts[a].ip, d.hosts[b].ip);
            }
        }
    }
}

#[test]
fn placement_fails_under_capacity() {
    let workers = vec!["10.0.0.1".to_string(), "10.0.0.2".to_string()];
    let r = plan_upload(
        &"foo.txt".to_string(),
        &"hash-1".to_string(),
        1536,
        &workers,
    );
    assert_eq!(r.unwrap_err(), PlanError::Capacity);
}

#[test]
fn upload_consults_liveness() {
    let mut tracker = LivenessTracker::new();
    let now: i64 = 1_000_000;
    tracker.record_heartbeat("10.0.0.1".to_string(), now - 10);
    tracker.record_heartbeat("10.0.0.2".to_string(), now - 20);
    // Only two live workers: capacity error.
    let r = rdfs::upload(
        &tracker,
        now,
        &"foo.txt".to_string(),
        &"h".to_string(),
        1536,
    );
    assert_eq!(r.unwrap_err(), PlanError::Capacity);
    // A stale worker does not count.
    tracker.record_heartbeat("10.0.0.3".to_string(), now - 3600);
    let r = rdfs::upload(
        &tracker,
        now,
        &"foo.txt".to_string(),
        &"h".to_string(),
        1536,
    );
    assert_eq!(r.unwrap_err(), PlanError::Capacity);
    // A third live worker lets the plan through.
    tracker.record_heartbeat("10.0.0.3".to_string(), now - 30);
    let plan = rdfs::upload(
        &tracker,
        now,
        &"foo.txt".to_string(),
        &"h".to_string(),
        1536,
    )
    .unwrap();
    assert_eq!(plan.len(), 2);
}

#[test]
fn heartbeat_upsert_keeps_one_entry() {
    let mut tracker = LivenessTracker::new();
    tracker.record_heartbeat("10.0.0.1".to_string(), 100);
    tracker.record_heartbeat("10.0.0.1".to_string(), 200);
    assert_eq!(tracker.len(), 1);
    assert_eq!(tracker.last_seen(&"10.0.0.1".to_string()), Some(200));
}

#[test]
fn liveness_window_boundary() {
    let mut tracker = LivenessTracker::new();
    let now: i64 = 10_000;
    // 359 seconds old: still within five whole minutes.
    tracker.record_heartbeat("a".to_string(), now - 359);
    // 360 seconds old: six whole minutes have started, no longer live.
    tracker.record_heartbeat("b".to_string(), now - 360);
    // A heartbeat from the future counts as live.
    tracker.record_heartbeat("c".to_string(), now + 50);
    let eligible = tracker.eligible_workers(now);
    assert_eq!(eligible, vec!["a".to_string(), "c".to_string()]);
}
