use std::collections::HashMap;

use bili_live_notify::batcher::chunk;
use bili_live_notify::config::{Config, ConfigError};
use bili_live_notify::db::{RoomRecord, RoomStore};
use bili_live_notify::response_type::LiveStatus;
use bili_live_notify::task::{
    reconcile_batch, FetchBatchFailed, FetchedStatus, SyncPass, SyncReport,
};

fn record(room_id: i64, status: LiveStatus, last: Option<i64>) -> RoomRecord {
    RoomRecord {
        room_id,
        local_id: None,
        status,
        last_refreshed_at: last,
        display_name: None,
    }
}

fn store_of(records: Vec<RoomRecord>) -> RoomStore {
    let mut store = RoomStore::new();
    for r in records {
        assert!(store.register(r));
    }
    store
}

/// Runs a whole pass; batch `k` fails when `failing` holds `k`, and the others
/// are answered from `remote`.
fn run_pass(
    store: &mut RoomStore,
    cfg: &Config,
    now: i64,
    remote: &HashMap<i64, i64>,
    failing: &[usize],
) -> (SyncReport, Vec<Vec<i64>>) {
    let mut pass = SyncPass::start(store, cfg, now);
    let mut asked = Vec::new();
    let mut k = 0;
    while let Some(batch) = pass.next_batch() {
        let batch = batch.clone();
        let answer = if failing.contains(&k) {
            Err(FetchBatchFailed { reason: "timeout".to_string() })
        } else {
            Ok(batch
                .iter()
                .filter_map(|id| remote.get(id).map(|raw| FetchedStatus { room_id: *id, raw_status: *raw }))
                .collect())
        };
        asked.push(batch);
        pass.complete_batch(store, answer, now);
        k += 1;
    }
    assert!(pass.is_done());
    (pass.finish(), asked)
}

fn status_of(store: &RoomStore, room_id: i64) -> LiveStatus {
    store.records().iter().find(|r| r.room_id == room_id).unwrap().status
}

#[test]
fn chunk_concatenates_back_in_order() {
    let ids: Vec<i64> = (1..=7).collect();
    let chunks = chunk(&ids, 3);
    assert_eq!(chunks, vec![vec![1, 2, 3], vec![4, 5, 6], vec![7]]);
    assert_eq!(chunks.concat(), ids);
}

#[test]
fn chunk_exact_multiple_has_only_full_batches() {
    let ids: Vec<i64> = vec![10, 20, 30, 40];
    assert_eq!(chunk(&ids, 2), vec![vec![10, 20], vec![30, 40]]);
    assert_eq!(chunk(&ids, 1), vec![vec![10], vec![20], vec![30], vec![40]]);
    assert_eq!(chunk(&ids, 100), vec![ids.clone()]);
}

#[test]
fn chunk_of_empty_input_is_empty() {
    for n in [1usize, 2, 100] {
        assert!(chunk(&Vec::new(), n).is_empty());
    }
}

#[test]
fn config_refuses_unusable_values() {
    assert_eq!(Config::new(60, 0).unwrap_err(), ConfigError::ZeroQueryAmount);
    assert_eq!(Config::new(-1, 10).unwrap_err(), ConfigError::NegativeDuration);
    let cfg = Config::new(60, 10).unwrap();
    assert_eq!((cfg.duration(), cfg.query_amount()), (60, 10));
}

#[test]
fn three_rooms_two_batches() {
    let (a, b, c) = (1, 2, 3);
    let mut store = store_of(vec![
        record(a, LiveStatus::Sleep, None),
        record(b, LiveStatus::Sleep, None),
        record(c, LiveStatus::Living, None),
    ]);
    let cfg = Config::new(300, 2).unwrap();
    let remote = HashMap::from([(a, 1), (b, 0), (c, 0)]);
    let (report, asked) = run_pass(&mut store, &cfg, 1_000, &remote, &[]);
    assert_eq!(asked, vec![vec![a, b], vec![c]]);
    assert_eq!(report.changed, vec![a, c]);
    assert!(report.failed_batches.is_empty());
    assert_eq!(status_of(&store, a), LiveStatus::Living);
    assert_eq!(status_of(&store, b), LiveStatus::Sleep);
    assert_eq!(status_of(&store, c), LiveStatus::Sleep);
}

#[test]
fn failed_batch_leaves_its_rooms_stale() {
    let mut store = store_of(vec![
        record(1, LiveStatus::Sleep, None),
        record(2, LiveStatus::Sleep, None),
        record(3, LiveStatus::Sleep, None),
        record(4, LiveStatus::Living, None),
    ]);
    let cfg = Config::new(300, 2).unwrap();
    let remote = HashMap::from([(1, 1), (2, 1), (3, 1), (4, 0)]);
    let (report, _) = run_pass(&mut store, &cfg, 1_000, &remote, &[0]);
    assert_eq!(report.changed, vec![3, 4]);
    assert_eq!(report.failed_batches.len(), 1);
    assert_eq!(report.failed_batches[0].room_ids, vec![1, 2]);
    assert_eq!(report.failed_batches[0].reason, "timeout");
    assert_eq!(status_of(&store, 1), LiveStatus::Sleep);
    assert_eq!(status_of(&store, 2), LiveStatus::Sleep);
    assert_eq!(store.get_stale(1_000, 300), vec![1, 2]);
}

#[test]
fn unknown_code_skips_only_that_room() {
    let d = 40;
    let mut store = store_of(vec![
        record(d, LiveStatus::Sleep, None),
        record(41, LiveStatus::Sleep, None),
    ]);
    let cfg = Config::new(300, 10).unwrap();
    let remote = HashMap::from([(d, 7), (41, 1)]);
    let (report, _) = run_pass(&mut store, &cfg, 1_000, &remote, &[]);
    assert_eq!(report.changed, vec![41]);
    assert_eq!(report.undecodable, vec![FetchedStatus { room_id: d, raw_status: 7 }]);
    assert_eq!(status_of(&store, d), LiveStatus::Sleep);
    assert_eq!(store.get_stale(1_000, 300), vec![d]);
}

#[test]
fn second_pass_without_remote_change_finds_nothing() {
    let mut store = store_of(vec![
        record(1, LiveStatus::Sleep, None),
        record(2, LiveStatus::Living, None),
        record(3, LiveStatus::Loop, Some(0)),
    ]);
    let cfg = Config::new(300, 2).unwrap();
    let remote = HashMap::from([(1, 1), (2, 0), (3, 2)]);
    let (first, _) = run_pass(&mut store, &cfg, 1_000, &remote, &[]);
    assert_eq!(first.changed, vec![1, 2]);
    let (within, asked) = run_pass(&mut store, &cfg, 1_100, &remote, &[]);
    assert!(within.changed.is_empty());
    assert!(asked.is_empty());
    let (elapsed, asked) = run_pass(&mut store, &cfg, 5_000, &remote, &[]);
    assert!(elapsed.changed.is_empty());
    assert_eq!(asked, vec![vec![1, 2], vec![3]]);
}

#[test]
fn pass_with_no_stale_room_has_no_batch() {
    let mut store = store_of(vec![record(1, LiveStatus::Sleep, Some(990))]);
    let cfg = Config::new(300, 2).unwrap();
    let pass = SyncPass::start(&store, &cfg, 1_000);
    assert!(pass.is_done());
    assert!(pass.next_batch().is_none());
    let report = pass.finish();
    assert!(report.changed.is_empty());
    let (report, asked) = run_pass(&mut store, &cfg, 1_000, &HashMap::new(), &[]);
    assert!(asked.is_empty() && report.changed.is_empty());
}

#[test]
fn stopping_early_keeps_changes_found() {
    let mut store = store_of(vec![
        record(1, LiveStatus::Sleep, None),
        record(2, LiveStatus::Sleep, None),
    ]);
    let cfg = Config::new(300, 1).unwrap();
    let mut pass = SyncPass::start(&store, &cfg, 1_000);
    assert_eq!(pass.next_batch(), Some(&vec![1]));
    pass.complete_batch(&mut store, Ok(vec![FetchedStatus { room_id: 1, raw_status: 1 }]), 1_000);
    assert_eq!(pass.next_batch(), Some(&vec![2]));
    assert_eq!(pass.report().changed, vec![1]);
    let report = pass.finish();
    assert_eq!(report.changed, vec![1]);
    assert_eq!(store.get_stale(1_000, 300), vec![2]);
}

#[test]
fn completing_a_done_pass_changes_nothing() {
    let mut store = store_of(vec![record(1, LiveStatus::Sleep, None)]);
    let cfg = Config::new(300, 5).unwrap();
    let mut pass = SyncPass::start(&store, &cfg, 1_000);
    pass.complete_batch(&mut store, Ok(vec![FetchedStatus { room_id: 1, raw_status: 0 }]), 1_000);
    assert!(pass.is_done());
    pass.complete_batch(&mut store, Ok(vec![FetchedStatus { room_id: 1, raw_status: 1 }]), 2_000);
    assert_eq!(status_of(&store, 1), LiveStatus::Sleep);
    assert!(pass.finish().changed.is_empty());
}

#[test]
fn reconcile_reports_rooms_without_record() {
    let mut store = store_of(vec![record(1, LiveStatus::Sleep, None)]);
    let mut report = SyncReport::new();
    let entries = vec![
        FetchedStatus { room_id: 9, raw_status: 1 },
        FetchedStatus { room_id: 1, raw_status: 2 },
        FetchedStatus { room_id: 8, raw_status: 5 },
    ];
    reconcile_batch(&mut store, &entries, 10, &mut report);
    assert_eq!(report.not_found, vec![9]);
    assert_eq!(report.changed, vec![1]);
    assert_eq!(report.undecodable, vec![FetchedStatus { room_id: 8, raw_status: 5 }]);
    assert_eq!(status_of(&store, 1), LiveStatus::Loop);
    reconcile_batch(&mut store, &entries, 20, &mut report);
    assert_eq!(report.changed, vec![1]);
}
