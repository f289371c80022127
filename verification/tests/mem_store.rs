use deck_playtime::db::EventType;
use deck_playtime::mem_store::MemStore;
use deck_playtime::store::{BucketRow, EventRow, StoreOp};

fn insert(timestamp: u64, object_id: u64, kind: EventType) -> StoreOp {
    StoreOp::InsertEvent { timestamp, object_id, kind }
}

fn row(timestamp: u64, object_id: u64, kind: EventType) -> EventRow {
    EventRow { timestamp, object_id, kind }
}

#[test]
fn new_store_is_empty() {
    let store = MemStore::new();
    assert!(store.objects().is_empty());
    assert!(store.events().is_empty());
    assert!(store.timeline().is_empty());
    assert!(store.backups().is_empty());
    assert_eq!(store.last_timestamp(), 0);
    assert_eq!(store.value_at(0, 1), None);
    assert!(store.bucket_rows(0).is_empty());
}

#[test]
fn create_object_takes_the_next_id_only() {
    let mut store = MemStore::new();
    store.apply(StoreOp::CreateObject { object_id: 1, app_id: 440 });
    store.apply(StoreOp::CreateObject { object_id: 3, app_id: 570 });
    store.apply(StoreOp::CreateObject { object_id: 1, app_id: 570 });
    store.apply(StoreOp::CreateObject { object_id: 0, app_id: 570 });
    assert_eq!(store.objects(), vec![(1, 440)]);
    store.apply(StoreOp::CreateObject { object_id: 2, app_id: 570 });
    assert_eq!(store.objects(), vec![(1, 440), (2, 570)]);
}

#[test]
fn create_object_refuses_a_second_registration() {
    let mut store = MemStore::new();
    store.apply(StoreOp::CreateObject { object_id: 1, app_id: 440 });
    store.apply(StoreOp::CreateObject { object_id: 2, app_id: 440 });
    assert_eq!(store.objects(), vec![(1, 440)]);
}

#[test]
fn insert_event_appends() {
    let mut store = MemStore::new();
    store.apply(insert(5, 1, EventType::Started));
    store.apply(insert(3, 2, EventType::Resumed));
    assert_eq!(
        store.events(),
        &vec![row(5, 1, EventType::Started), row(3, 2, EventType::Resumed)]
    );
    assert_eq!(store.last_timestamp(), 5);
}

#[test]
fn close_dangling_rewrites_heartbeats_in_place() {
    let mut store = MemStore::new();
    store.apply_all(&vec![
        insert(1, 1, EventType::Started),
        insert(2, 1, EventType::Running),
        insert(3, 2, EventType::Suspended),
        insert(4, 2, EventType::Running),
    ]);
    store.apply(StoreOp::CloseDangling);
    assert_eq!(
        store.events(),
        &vec![
            row(1, 1, EventType::Started),
            row(2, 1, EventType::Stopped),
            row(3, 2, EventType::Suspended),
            row(4, 2, EventType::Stopped),
        ]
    );
}

#[test]
fn delete_running_is_about_one_object() {
    let mut store = MemStore::new();
    store.apply_all(&vec![
        insert(1, 1, EventType::Running),
        insert(1, 2, EventType::Running),
        insert(2, 1, EventType::Started),
        insert(3, 1, EventType::Running),
    ]);
    store.apply(StoreOp::DeleteRunning { object_id: 1 });
    assert_eq!(
        store.events(),
        &vec![row(1, 2, EventType::Running), row(2, 1, EventType::Started)]
    );
    store.apply(StoreOp::DeleteRunning { object_id: 7 });
    assert_eq!(store.events().len(), 2);
}

#[test]
fn delete_all_running_keeps_every_other_kind() {
    let mut store = MemStore::new();
    store.apply_all(&vec![
        insert(1, 1, EventType::Running),
        insert(2, 1, EventType::Started),
        insert(3, 2, EventType::Running),
        insert(4, 2, EventType::Stopped),
        insert(5, 2, EventType::Suspended),
        insert(6, 2, EventType::Resumed),
    ]);
    store.apply(StoreOp::DeleteAllRunning);
    assert_eq!(
        store.events(),
        &vec![
            row(2, 1, EventType::Started),
            row(4, 2, EventType::Stopped),
            row(5, 2, EventType::Suspended),
            row(6, 2, EventType::Resumed),
        ]
    );
}

#[test]
fn quarantine_splits_the_journal_by_timestamp() {
    let mut store = MemStore::new();
    store.apply_all(&vec![
        insert(10, 1, EventType::Started),
        insert(30, 2, EventType::Started),
        insert(20, 3, EventType::Started),
        insert(21, 1, EventType::Stopped),
        insert(20, 2, EventType::Running),
    ]);
    store.apply(StoreOp::Quarantine { start_ts: 20, end_ts: 30 });
    assert_eq!(
        store.events(),
        &vec![
            row(10, 1, EventType::Started),
            row(20, 3, EventType::Started),
            row(20, 2, EventType::Running),
        ]
    );
    assert_eq!(store.backups().len(), 1);
    assert_eq!(
        store.backups()[0].events,
        vec![row(30, 2, EventType::Started), row(21, 1, EventType::Stopped)]
    );
    assert_eq!((store.backups()[0].start_ts, store.backups()[0].end_ts), (20, 30));
    assert_eq!(store.last_timestamp(), 20);
}

#[test]
fn put_bucket_replaces_or_appends() {
    let mut store = MemStore::new();
    store.apply(StoreOp::PutBucket { bucket: 7, object_id: 1, value: 10 });
    store.apply(StoreOp::PutBucket { bucket: 7, object_id: 2, value: 20 });
    store.apply(StoreOp::PutBucket { bucket: 8, object_id: 1, value: 30 });
    store.apply(StoreOp::PutBucket { bucket: 7, object_id: 1, value: 11 });
    assert_eq!(
        store.timeline(),
        &vec![
            BucketRow { bucket: 7, object_id: 1, value: 11 },
            BucketRow { bucket: 7, object_id: 2, value: 20 },
            BucketRow { bucket: 8, object_id: 1, value: 30 },
        ]
    );
    assert_eq!(store.value_at(7, 1), Some(11));
    assert_eq!(store.value_at(8, 1), Some(30));
    assert_eq!(store.value_at(8, 2), None);
}

#[test]
fn bucket_rows_join_the_object_table() {
    let mut store = MemStore::new();
    store.apply_all(&vec![
        StoreOp::CreateObject { object_id: 1, app_id: 0 },
        StoreOp::CreateObject { object_id: 2, app_id: 440 },
        StoreOp::PutBucket { bucket: 7, object_id: 2, value: 20 },
        StoreOp::PutBucket { bucket: 8, object_id: 2, value: 5 },
        StoreOp::PutBucket { bucket: 7, object_id: 1, value: 3 },
        // rows of objects that nobody registered are left out
        StoreOp::PutBucket { bucket: 7, object_id: 9, value: 1 },
        StoreOp::PutBucket { bucket: 7, object_id: 0, value: 1 },
    ]);
    assert_eq!(store.bucket_rows(7), vec![(440, 20), (0, 3)]);
    assert_eq!(store.bucket_rows(8), vec![(440, 5)]);
    assert!(store.bucket_rows(9).is_empty());
}

#[test]
fn last_timestamp_is_the_latest_of_the_journal() {
    let mut store = MemStore::new();
    store.apply_all(&vec![
        insert(10, 1, EventType::Started),
        insert(30, 2, EventType::Started),
        insert(20, 3, EventType::Started),
    ]);
    assert_eq!(store.last_timestamp(), 30);
}
