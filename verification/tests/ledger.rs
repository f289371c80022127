use deck_playtime::db::{bucket_of, DeckDB, EventType, OpenError};
use deck_playtime::mem_store::MemStore;
use deck_playtime::store::{BucketRow, EventRow, StoreOp};

const HOUR: u64 = 3600;

/// Opens a ledger over `store` as a caller with a real store would: read
/// the snapshot, build, run the writes.
fn open(store: &mut MemStore, now: u64) -> DeckDB {
    let (db, ops) =
        DeckDB::build(store.objects(), store.last_timestamp(), store.bucket_rows(bucket_of(now)), now)
            .expect("a store kept by the ledger opens");
    store.apply_all(&ops);
    db
}

fn commit(db: &mut DeckDB, store: &mut MemStore, now: u64) {
    let done = db.commit(now);
    store.apply_all(&done.ops);
    if let Some(bucket) = done.reload {
        db.load_cache(bucket, store.bucket_rows(bucket));
    }
}

fn event(db: &mut DeckDB, store: &mut MemStore, now: u64, app: Option<u32>, kind: EventType) {
    let ops = db.event(now, app, kind);
    store.apply_all(&ops);
}

fn row(timestamp: u64, object_id: u64, kind: EventType) -> EventRow {
    EventRow { timestamp, object_id, kind }
}

fn heartbeats(store: &MemStore) -> Vec<EventRow> {
    store.events().iter().copied().filter(|row| row.kind == EventType::Running).collect()
}

#[test]
fn event_kinds_have_their_stored_numbers() {
    assert_eq!(EventType::Running.code(), 0);
    assert_eq!(EventType::Started.code(), 1);
    assert_eq!(EventType::Stopped.code(), 2);
    assert_eq!(EventType::Suspended.code(), 3);
    assert_eq!(EventType::Resumed.code(), 4);
    for code in 0..5 {
        assert_eq!(EventType::from_code(code).map(EventType::code), Some(code));
    }
    assert_eq!(EventType::from_code(5), None);
    assert_eq!(EventType::from_code(u32::MAX), None);
}

#[test]
fn bucket_is_the_hour_since_the_epoch() {
    assert_eq!(bucket_of(0), 0);
    assert_eq!(bucket_of(3599), 0);
    assert_eq!(bucket_of(3600), 1);
    assert_eq!(bucket_of(1_700_000_000), 472_222);
    assert_eq!(bucket_of(u64::MAX), u64::MAX / 3600);
}

#[test]
fn build_on_an_empty_store_starts_the_tracker() {
    let (db, ops) = DeckDB::build(Vec::new(), 0, Vec::new(), 2 * HOUR + 5).unwrap();
    assert_eq!(
        ops,
        vec![
            StoreOp::CloseDangling,
            StoreOp::CreateObject { object_id: 1, app_id: 0 },
            StoreOp::DeleteRunning { object_id: 1 },
            StoreOp::InsertEvent { timestamp: 2 * HOUR + 5, object_id: 1, kind: EventType::Started },
        ]
    );
    assert_eq!(db.running_apps(), vec![0]);
    assert_eq!(db.last_timestamp(), 2 * HOUR + 5);
    assert_eq!(db.cache_bucket(), 2);
    assert_eq!(db.cached(7), 0);
}

#[test]
fn build_takes_the_stored_rows_of_the_bucket() {
    let objects = vec![(1, 0), (2, 440), (3, 570)];
    let (db, ops) = DeckDB::build(objects, 100, vec![(440, 17), (570, 3)], 5 * HOUR).unwrap();
    assert_eq!(db.cached(440), 17);
    assert_eq!(db.cached(570), 3);
    assert_eq!(db.cached(0), 0);
    assert!(!ops.iter().any(|op| matches!(op, StoreOp::CreateObject { .. })));
    assert!(!ops.iter().any(|op| matches!(op, StoreOp::Quarantine { .. })));
}

#[test]
fn build_rejects_an_object_table_with_a_gap() {
    let opened = DeckDB::build(vec![(1, 0), (3, 440)], 0, Vec::new(), 10);
    assert_eq!(opened.err(), Some(OpenError::CorruptObjects));
    let opened = DeckDB::build(vec![(2, 0)], 0, Vec::new(), 10);
    assert_eq!(opened.err(), Some(OpenError::CorruptObjects));
    let opened = DeckDB::build(vec![(0, 0)], 0, Vec::new(), 10);
    assert_eq!(opened.err(), Some(OpenError::CorruptObjects));
}

#[test]
fn build_rejects_an_application_registered_twice() {
    let opened = DeckDB::build(vec![(1, 0), (2, 440), (3, 440)], 0, Vec::new(), 10);
    assert_eq!(opened.err(), Some(OpenError::CorruptObjects));
}

#[test]
fn build_after_a_clock_rollback_quarantines() {
    let (db, ops) = DeckDB::build(vec![(1, 0)], 500, Vec::new(), 200).unwrap();
    assert_eq!(
        ops,
        vec![
            StoreOp::CloseDangling,
            StoreOp::Quarantine { start_ts: 200, end_ts: 500 },
            StoreOp::DeleteRunning { object_id: 1 },
            StoreOp::InsertEvent { timestamp: 200, object_id: 1, kind: EventType::Started },
        ]
    );
    assert_eq!(db.last_timestamp(), 200);
}

#[test]
fn started_registers_and_runs() {
    let (mut db, _) = DeckDB::build(Vec::new(), 0, Vec::new(), 10).unwrap();
    let ops = db.event(11, Some(440), EventType::Started);
    assert_eq!(
        ops,
        vec![
            StoreOp::CreateObject { object_id: 2, app_id: 440 },
            StoreOp::DeleteRunning { object_id: 2 },
            StoreOp::InsertEvent { timestamp: 11, object_id: 2, kind: EventType::Started },
        ]
    );
    assert_eq!(db.running_apps(), vec![0, 440]);
}

#[test]
fn started_twice_runs_once() {
    let (mut db, _) = DeckDB::build(Vec::new(), 0, Vec::new(), 10).unwrap();
    db.event(11, Some(440), EventType::Started);
    let ops = db.event(12, Some(440), EventType::Started);
    // the anomaly is recorded all the same
    assert_eq!(
        ops,
        vec![
            StoreOp::DeleteRunning { object_id: 2 },
            StoreOp::InsertEvent { timestamp: 12, object_id: 2, kind: EventType::Started },
        ]
    );
    assert_eq!(db.running_apps(), vec![0, 440]);
}

#[test]
fn stopped_leaves_the_running_set() {
    let (mut db, _) = DeckDB::build(Vec::new(), 0, Vec::new(), 10).unwrap();
    db.event(11, Some(440), EventType::Started);
    db.event(11, Some(570), EventType::Started);
    let ops = db.event(20, Some(440), EventType::Stopped);
    assert_eq!(
        ops,
        vec![
            StoreOp::DeleteRunning { object_id: 2 },
            StoreOp::InsertEvent { timestamp: 20, object_id: 2, kind: EventType::Stopped },
        ]
    );
    assert_eq!(db.running_apps(), vec![0, 570]);
}

#[test]
fn stopped_without_a_start_is_recorded() {
    let (mut db, _) = DeckDB::build(Vec::new(), 0, Vec::new(), 10).unwrap();
    let ops = db.event(20, Some(999), EventType::Stopped);
    assert_eq!(
        ops,
        vec![
            StoreOp::CreateObject { object_id: 2, app_id: 999 },
            StoreOp::DeleteRunning { object_id: 2 },
            StoreOp::InsertEvent { timestamp: 20, object_id: 2, kind: EventType::Stopped },
        ]
    );
    assert_eq!(db.running_apps(), vec![0]);
}

#[test]
fn event_without_an_application_is_about_the_tracker() {
    let (mut db, _) = DeckDB::build(Vec::new(), 0, Vec::new(), 10).unwrap();
    let ops = db.event(30, None, EventType::Stopped);
    assert_eq!(
        ops,
        vec![
            StoreOp::DeleteRunning { object_id: 1 },
            StoreOp::InsertEvent { timestamp: 30, object_id: 1, kind: EventType::Stopped },
        ]
    );
    assert_eq!(db.running_apps(), Vec::<u32>::new());
}

#[test]
fn heartbeat_replaces_all_heartbeat_rows() {
    let mut store = MemStore::new();
    let mut db = open(&mut store, 10);
    event(&mut db, &mut store, 11, Some(440), EventType::Started);
    event(&mut db, &mut store, 12, Some(570), EventType::Started);
    event(&mut db, &mut store, 60, Some(1), EventType::Running);
    assert_eq!(
        heartbeats(&store),
        vec![
            row(60, 1, EventType::Running),
            row(60, 2, EventType::Running),
            row(60, 3, EventType::Running),
        ]
    );
    event(&mut db, &mut store, 120, None, EventType::Running);
    assert_eq!(heartbeats(&store).len(), db.running_apps().len());
    assert!(heartbeats(&store).iter().all(|row| row.timestamp == 120));
    event(&mut db, &mut store, 130, Some(440), EventType::Stopped);
    assert_eq!(
        heartbeats(&store),
        vec![row(120, 1, EventType::Running), row(120, 3, EventType::Running)]
    );
    event(&mut db, &mut store, 180, None, EventType::Running);
    assert_eq!(
        heartbeats(&store),
        vec![row(180, 1, EventType::Running), row(180, 3, EventType::Running)]
    );
}

#[test]
fn heartbeat_ignores_the_application_named() {
    let (mut db, _) = DeckDB::build(Vec::new(), 0, Vec::new(), 10).unwrap();
    let named = db.event(20, Some(440), EventType::Running);
    assert_eq!(
        named,
        vec![
            StoreOp::DeleteAllRunning,
            StoreOp::InsertEvent { timestamp: 20, object_id: 1, kind: EventType::Running },
        ]
    );
    assert_eq!(db.running_apps(), vec![0]);
}

#[test]
fn suspended_and_resumed_only_add_rows() {
    let mut store = MemStore::new();
    let mut db = open(&mut store, 10);
    event(&mut db, &mut store, 11, Some(440), EventType::Started);
    event(&mut db, &mut store, 60, None, EventType::Running);
    let before = store.events().len();
    let ops = db.event(60, None, EventType::Suspended);
    assert_eq!(
        ops,
        vec![
            StoreOp::InsertEvent { timestamp: 60, object_id: 1, kind: EventType::Suspended },
            StoreOp::InsertEvent { timestamp: 60, object_id: 2, kind: EventType::Suspended },
        ]
    );
    store.apply_all(&ops);
    event(&mut db, &mut store, 900, None, EventType::Resumed);
    assert_eq!(store.events().len(), before + 4);
    assert_eq!(heartbeats(&store).len(), 2);
    assert_eq!(store.events()[before + 3], row(900, 2, EventType::Resumed));
}

#[test]
fn rollback_moves_later_events_into_one_backup_group() {
    let mut store = MemStore::new();
    let mut db = open(&mut store, 100);
    event(&mut db, &mut store, 110, Some(440), EventType::Started);
    event(&mut db, &mut store, 150, Some(570), EventType::Started);
    event(&mut db, &mut store, 200, Some(440), EventType::Stopped);
    assert_eq!(db.last_timestamp(), 200);
    let ops = db.event(120, Some(570), EventType::Stopped);
    assert_eq!(ops[0], StoreOp::Quarantine { start_ts: 120, end_ts: 200 });
    store.apply_all(&ops);
    assert_eq!(db.last_timestamp(), 120);
    assert_eq!(store.backups().len(), 1);
    let group = &store.backups()[0];
    assert_eq!((group.start_ts, group.end_ts), (120, 200));
    assert_eq!(
        group.events,
        vec![row(150, 3, EventType::Started), row(200, 2, EventType::Stopped)]
    );
    assert_eq!(
        store.events(),
        &vec![
            row(100, 1, EventType::Started),
            row(110, 2, EventType::Started),
            row(120, 3, EventType::Stopped),
        ]
    );
    // time moves on: nothing more is moved
    event(&mut db, &mut store, 121, None, EventType::Running);
    assert_eq!(store.backups().len(), 1);
}

#[test]
fn rollback_keeps_events_at_the_incoming_timestamp() {
    let mut store = MemStore::new();
    let mut db = open(&mut store, 100);
    event(&mut db, &mut store, 120, Some(440), EventType::Started);
    event(&mut db, &mut store, 121, Some(570), EventType::Started);
    event(&mut db, &mut store, 120, None, EventType::Running);
    assert_eq!(store.backups().len(), 1);
    assert_eq!(store.backups()[0].events, vec![row(121, 3, EventType::Started)]);
    assert!(store.events().contains(&row(120, 2, EventType::Started)));
}

#[test]
fn same_timestamp_is_no_rollback() {
    let (mut db, _) = DeckDB::build(Vec::new(), 0, Vec::new(), 100).unwrap();
    let ops = db.event(100, Some(440), EventType::Started);
    assert!(!ops.iter().any(|op| matches!(op, StoreOp::Quarantine { .. })));
    let done = db.commit(100);
    assert!(!done.ops.iter().any(|op| matches!(op, StoreOp::Quarantine { .. })));
}

#[test]
fn rollback_with_nothing_to_move_still_opens_a_group() {
    let mut store = MemStore::new();
    let mut db = open(&mut store, 100);
    commit(&mut db, &mut store, 200);
    commit(&mut db, &mut store, 150);
    assert_eq!(store.backups().len(), 1);
    assert_eq!(store.backups()[0].events, vec![row(200, 1, EventType::Running)]);
    commit(&mut db, &mut store, 140);
    assert_eq!(store.backups().len(), 2);
    assert_eq!(store.backups()[1].events, vec![row(150, 1, EventType::Running)]);
    assert_eq!((store.backups()[1].start_ts, store.backups()[1].end_ts), (140, 150));
}

#[test]
fn update_accumulates_in_the_cache_only() {
    let (mut db, _) = DeckDB::build(Vec::new(), 0, Vec::new(), 100).unwrap();
    db.update(440, 5);
    db.update(570, 1);
    db.update(440, 7);
    db.update(440, 0);
    assert_eq!(db.cached(440), 12);
    assert_eq!(db.cached(570), 1);
    assert_eq!(db.cached(1), 0);
    assert_eq!(db.running_apps(), vec![0]);
}

#[test]
fn has_room_tells_when_an_update_would_overflow() {
    let (mut db, _) = DeckDB::build(Vec::new(), 0, Vec::new(), 100).unwrap();
    assert!(db.has_room(u64::MAX));
    db.update(440, u64::MAX - 10);
    db.update(570, 3);
    assert!(db.has_room(10));
    assert!(!db.has_room(11));
    db.update(440, 10);
    assert_eq!(db.cached(440), u64::MAX);
    assert!(db.has_room(0));
    assert!(!db.has_room(1));
}

#[test]
fn commit_persists_the_sum_of_the_updates() {
    let mut store = MemStore::new();
    let mut db = open(&mut store, 2 * HOUR);
    event(&mut db, &mut store, 2 * HOUR, Some(440), EventType::Started);
    for delta in [1u64, 2, 3, 4, 5] {
        db.update(440, delta);
    }
    db.update(570, 9);
    let done = db.commit(2 * HOUR + 60);
    assert_eq!(done.reload, None);
    assert_eq!(
        done.ops,
        vec![
            StoreOp::DeleteAllRunning,
            StoreOp::InsertEvent { timestamp: 2 * HOUR + 60, object_id: 1, kind: EventType::Running },
            StoreOp::InsertEvent { timestamp: 2 * HOUR + 60, object_id: 2, kind: EventType::Running },
            StoreOp::PutBucket { bucket: 2, object_id: 2, value: 15 },
            StoreOp::CreateObject { object_id: 3, app_id: 570 },
            StoreOp::PutBucket { bucket: 2, object_id: 3, value: 9 },
        ]
    );
    store.apply_all(&done.ops);
    assert_eq!(store.value_at(2, 2), Some(15));
    assert_eq!(store.value_at(2, 3), Some(9));
    assert_eq!(store.value_at(2, 1), None);
    assert_eq!(store.value_at(1, 2), None);
}

#[test]
fn commit_replaces_the_stored_value() {
    let mut store = MemStore::new();
    let mut db = open(&mut store, 2 * HOUR);
    db.update(440, 10);
    commit(&mut db, &mut store, 2 * HOUR + 60);
    db.update(440, 5);
    commit(&mut db, &mut store, 2 * HOUR + 120);
    assert_eq!(store.value_at(2, 2), Some(15));
    assert_eq!(store.timeline(), &vec![BucketRow { bucket: 2, object_id: 2, value: 15 }]);
}

#[test]
fn commit_twice_leaves_the_stored_value() {
    let mut store = MemStore::new();
    let mut db = open(&mut store, 2 * HOUR);
    db.update(440, 10);
    db.update(570, 4);
    commit(&mut db, &mut store, 2 * HOUR + 60);
    let once = store.timeline().clone();
    commit(&mut db, &mut store, 2 * HOUR + 61);
    assert_eq!(store.timeline(), &once);
    commit(&mut db, &mut store, 3 * HOUR - 1);
    assert_eq!(store.timeline(), &once);
}

#[test]
fn commit_twice_across_a_bucket_leaves_the_stored_value() {
    let mut store = MemStore::new();
    let mut db = open(&mut store, 2 * HOUR);
    db.update(440, 10);
    commit(&mut db, &mut store, 3 * HOUR + 1);
    let once = store.timeline().clone();
    assert_eq!(once, vec![BucketRow { bucket: 2, object_id: 2, value: 10 }]);
    commit(&mut db, &mut store, 3 * HOUR + 2);
    assert_eq!(store.timeline(), &once);
}

#[test]
fn commit_moves_on_to_the_next_bucket() {
    let mut store = MemStore::new();
    let mut db = open(&mut store, 2 * HOUR + 3500);
    db.update(440, 100);
    let done = db.commit(3 * HOUR);
    assert_eq!(done.reload, Some(3));
    assert_eq!(db.cache_bucket(), 3);
    assert_eq!(db.cached(440), 0);
    store.apply_all(&done.ops);
    db.load_cache(3, store.bucket_rows(3));
    db.update(440, 7);
    commit(&mut db, &mut store, 3 * HOUR + 60);
    assert_eq!(store.value_at(2, 2), Some(100));
    assert_eq!(store.value_at(3, 2), Some(7));
}

#[test]
fn commit_resumes_a_bucket_that_was_stored_before() {
    let mut store = MemStore::new();
    let mut db = open(&mut store, 2 * HOUR);
    db.update(440, 10);
    commit(&mut db, &mut store, 2 * HOUR + 60);
    db.update(440, 5);
    commit(&mut db, &mut store, 3 * HOUR);
    // the clock goes back into the bucket that holds 15
    commit(&mut db, &mut store, 2 * HOUR + 100);
    assert_eq!(db.cached(440), 15);
    db.update(440, 1);
    commit(&mut db, &mut store, 2 * HOUR + 160);
    assert_eq!(store.value_at(2, 2), Some(16));
}

#[test]
fn load_cache_lets_the_last_row_of_an_application_count() {
    let (mut db, _) = DeckDB::build(Vec::new(), 0, Vec::new(), 100).unwrap();
    db.update(1, 1);
    db.load_cache(9, vec![(440, 3), (570, 4), (440, 8)]);
    assert_eq!(db.cache_bucket(), 9);
    assert_eq!(db.cached(440), 8);
    assert_eq!(db.cached(570), 4);
    assert_eq!(db.cached(1), 0);
}

#[test]
fn restart_closes_a_dangling_heartbeat() {
    let mut store = MemStore::new();
    let mut db = open(&mut store, 100);
    event(&mut db, &mut store, 110, Some(440), EventType::Started);
    commit(&mut db, &mut store, 120);
    assert_eq!(heartbeats(&store).len(), 2);
    // the session ends without a flush
    drop(db);
    let db = open(&mut store, 500);
    assert_eq!(heartbeats(&store).len(), 0);
    assert_eq!(
        store.events(),
        &vec![
            row(100, 1, EventType::Started),
            row(110, 2, EventType::Started),
            row(120, 1, EventType::Stopped),
            row(120, 2, EventType::Stopped),
            row(500, 1, EventType::Started),
        ]
    );
    assert_eq!(db.running_apps(), vec![0]);
    assert_eq!(db.last_timestamp(), 500);
}

#[test]
fn restart_resumes_the_bucket() {
    let mut store = MemStore::new();
    let mut db = open(&mut store, 2 * HOUR);
    db.update(440, 30);
    commit(&mut db, &mut store, 2 * HOUR + 60);
    db.update(440, 30);
    drop(db);
    // the uncommitted 30 are lost, the committed 30 are not
    let mut db = open(&mut store, 2 * HOUR + 200);
    assert_eq!(db.cached(440), 30);
    db.update(440, 1);
    commit(&mut db, &mut store, 2 * HOUR + 240);
    assert_eq!(store.value_at(2, 2), Some(31));
}

#[test]
fn flush_writes_back_and_stops_everything() {
    let mut store = MemStore::new();
    let mut db = open(&mut store, 100);
    event(&mut db, &mut store, 110, Some(440), EventType::Started);
    event(&mut db, &mut store, 111, Some(570), EventType::Started);
    db.update(440, 4);
    commit(&mut db, &mut store, 120);
    db.update(440, 2);
    let ops = db.flush(130);
    assert_eq!(
        ops,
        vec![
            StoreOp::PutBucket { bucket: 0, object_id: 2, value: 6 },
            StoreOp::DeleteRunning { object_id: 1 },
            StoreOp::InsertEvent { timestamp: 130, object_id: 1, kind: EventType::Stopped },
            StoreOp::DeleteRunning { object_id: 2 },
            StoreOp::InsertEvent { timestamp: 130, object_id: 2, kind: EventType::Stopped },
            StoreOp::DeleteRunning { object_id: 3 },
            StoreOp::InsertEvent { timestamp: 130, object_id: 3, kind: EventType::Stopped },
        ]
    );
    store.apply_all(&ops);
    assert_eq!(db.running_apps(), Vec::<u32>::new());
    assert_eq!(heartbeats(&store).len(), 0);
    assert_eq!(store.value_at(0, 2), Some(6));
}

#[test]
fn flush_does_not_check_the_clock_before_writing_back() {
    let (mut db, _) = DeckDB::build(Vec::new(), 0, Vec::new(), 2 * HOUR).unwrap();
    db.event(2 * HOUR, None, EventType::Stopped);
    db.update(440, 1);
    // nothing runs: an earlier timestamp goes unnoticed
    let ops = db.flush(HOUR);
    assert_eq!(
        ops,
        vec![
            StoreOp::CreateObject { object_id: 2, app_id: 440 },
            StoreOp::PutBucket { bucket: 2, object_id: 2, value: 1 },
        ]
    );
    assert_eq!(db.last_timestamp(), 2 * HOUR);
}

#[test]
fn end_to_end_within_one_bucket() {
    let t0 = 5 * HOUR;
    let app = 440;
    let mut store = MemStore::new();
    let mut db = open(&mut store, t0);
    event(&mut db, &mut store, t0, Some(app), EventType::Started);
    let mut first_commit = None;
    for second in 1..=125 {
        db.update(app, 1);
        if second % 60 == 0 {
            commit(&mut db, &mut store, t0 + second);
            if first_commit.is_none() {
                first_commit = store.value_at(bucket_of(t0), 2);
            }
        }
    }
    assert_eq!(first_commit, Some(60));
    let ops = db.flush(t0 + 125);
    store.apply_all(&ops);
    assert!(store.events().contains(&row(t0, 2, EventType::Started)));
    assert!(store.events().contains(&row(t0 + 125, 2, EventType::Stopped)));
    let total: u64 =
        store.timeline().iter().filter(|row| row.object_id == 2).map(|row| row.value).sum();
    assert_eq!(total, 125);
    assert_eq!(store.value_at(5, 2), Some(125));
    assert_eq!(store.backups().len(), 0);
}

#[test]
fn end_to_end_across_a_bucket_boundary() {
    let t0 = 5 * HOUR - 30;
    let app = 440;
    let mut store = MemStore::new();
    let mut db = open(&mut store, t0);
    event(&mut db, &mut store, t0, Some(app), EventType::Started);
    for second in 1..=125 {
        db.update(app, 1);
        if (t0 + second) % 60 == 0 {
            commit(&mut db, &mut store, t0 + second);
        }
    }
    let ops = db.flush(t0 + 125);
    store.apply_all(&ops);
    assert!(store.events().contains(&row(t0, 2, EventType::Started)));
    assert!(store.events().contains(&row(t0 + 125, 2, EventType::Stopped)));
    // the commit on the hour still belongs to the old bucket
    assert_eq!(store.value_at(4, 2), Some(30));
    assert_eq!(store.value_at(5, 2), Some(95));
    let total: u64 =
        store.timeline().iter().filter(|row| row.object_id == 2).map(|row| row.value).sum();
    assert_eq!(total, 125);
}
