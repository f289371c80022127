use deck_playtime::db::{DeckDB, EventType};
use deck_playtime::mem_store::MemStore;
use deck_playtime::observer::{get_commit_func, get_suspend_check_func, get_update_func};
use deck_playtime::store::{EventRow, StoreOp};

fn ledger(now: u64) -> DeckDB {
    DeckDB::build(Vec::new(), 0, Vec::new(), now).unwrap().0
}

fn started(timestamp: u64, object_id: u64) -> Vec<StoreOp> {
    vec![
        StoreOp::DeleteRunning { object_id },
        StoreOp::InsertEvent { timestamp, object_id, kind: EventType::Started },
    ]
}

fn stopped(timestamp: u64, object_id: u64) -> Vec<StoreOp> {
    vec![
        StoreOp::DeleteRunning { object_id },
        StoreOp::InsertEvent { timestamp, object_id, kind: EventType::Stopped },
    ]
}

#[test]
fn commit_task_commits() {
    let mut db = ledger(100);
    db.update(440, 3);
    let done = get_commit_func().call(&mut db, 160);
    assert_eq!(done.reload, None);
    assert_eq!(
        done.ops,
        vec![
            StoreOp::DeleteAllRunning,
            StoreOp::InsertEvent { timestamp: 160, object_id: 1, kind: EventType::Running },
            StoreOp::CreateObject { object_id: 2, app_id: 440 },
            StoreOp::PutBucket { bucket: 0, object_id: 2, value: 3 },
        ]
    );
    assert_eq!(db.last_timestamp(), 160);
}

#[test]
fn suspend_check_is_silent_without_a_gap() {
    let mut db = ledger(100);
    let mut check = get_suspend_check_func(2);
    assert!(check.call(&mut db, 100).is_empty());
    assert!(check.call(&mut db, 101).is_empty());
    assert!(check.call(&mut db, 103).is_empty());
    assert!(check.call(&mut db, 103).is_empty());
    assert_eq!(db.last_timestamp(), 100);
}

#[test]
fn suspend_check_records_a_gap() {
    let mut db = ledger(100);
    let mut check = get_suspend_check_func(2);
    assert!(check.call(&mut db, 100).is_empty());
    let ops = check.call(&mut db, 103);
    assert_eq!(
        ops,
        vec![
            StoreOp::InsertEvent { timestamp: 100, object_id: 1, kind: EventType::Suspended },
            StoreOp::InsertEvent { timestamp: 103, object_id: 1, kind: EventType::Resumed },
        ]
    );
    assert_eq!(db.last_timestamp(), 103);
    // the gap is measured from the last tick
    assert!(check.call(&mut db, 105).is_empty());
}

#[test]
fn suspend_check_goes_back_to_the_earlier_tick() {
    let mut store = MemStore::new();
    let mut db = ledger(100);
    let mut check = get_suspend_check_func(2);
    check.call(&mut db, 100);
    // something was recorded after the tick at 100
    store.apply_all(&db.event(101, Some(440), EventType::Started));
    let ops = check.call(&mut db, 900);
    assert_eq!(
        ops,
        vec![
            StoreOp::Quarantine { start_ts: 100, end_ts: 101 },
            StoreOp::InsertEvent { timestamp: 100, object_id: 1, kind: EventType::Suspended },
            StoreOp::InsertEvent { timestamp: 100, object_id: 2, kind: EventType::Suspended },
            StoreOp::InsertEvent { timestamp: 900, object_id: 1, kind: EventType::Resumed },
            StoreOp::InsertEvent { timestamp: 900, object_id: 2, kind: EventType::Resumed },
        ]
    );
    store.apply_all(&ops);
    assert_eq!(
        store.backups()[0].events,
        vec![EventRow { timestamp: 101, object_id: 2, kind: EventType::Started }]
    );
}

#[test]
fn suspend_check_says_which_ticks_it_takes() {
    let mut db = ledger(100);
    let mut check = get_suspend_check_func(2);
    assert!(check.accepts(0));
    check.call(&mut db, 100);
    assert!(check.accepts(100));
    assert!(check.accepts(101));
    assert!(!check.accepts(99));
}

#[test]
fn sampling_starts_what_it_sees_first() {
    let mut db = ledger(100);
    let mut task = get_update_func(1);
    let ops = task.call(&mut db, 101, Some(&vec![440, 570]));
    let mut expected = vec![StoreOp::CreateObject { object_id: 2, app_id: 440 }];
    expected.extend(started(101, 2));
    expected.push(StoreOp::CreateObject { object_id: 3, app_id: 570 });
    expected.extend(started(101, 3));
    assert_eq!(ops, expected);
    assert_eq!(task.watched(), &vec![440, 570]);
    assert_eq!(db.running_apps(), vec![0, 440, 570]);
    assert_eq!(db.cached(440), 0);
}

#[test]
fn sampling_credits_what_it_sees_again() {
    let mut db = ledger(100);
    let mut task = get_update_func(5);
    task.call(&mut db, 101, Some(&vec![440, 570]));
    let ops = task.call(&mut db, 106, Some(&vec![570, 440]));
    assert!(ops.is_empty());
    assert_eq!(db.cached(440), 5);
    assert_eq!(db.cached(570), 5);
    task.call(&mut db, 111, Some(&vec![440, 570]));
    assert_eq!(db.cached(440), 10);
    // sampling does not move the clock of the ledger
    assert_eq!(db.last_timestamp(), 101);
}

#[test]
fn sampling_credits_a_duplicate_once() {
    let mut db = ledger(100);
    let mut task = get_update_func(1);
    let ops = task.call(&mut db, 101, Some(&vec![440, 440]));
    let mut expected = vec![StoreOp::CreateObject { object_id: 2, app_id: 440 }];
    expected.extend(started(101, 2));
    assert_eq!(ops, expected);
    assert_eq!(db.cached(440), 0);
    let ops = task.call(&mut db, 102, Some(&vec![440, 440, 440]));
    assert!(ops.is_empty());
    assert_eq!(db.cached(440), 1);
    assert_eq!(task.watched(), &vec![440]);
}

#[test]
fn sampling_stops_what_it_sees_no_more() {
    let mut db = ledger(100);
    let mut task = get_update_func(1);
    task.call(&mut db, 101, Some(&vec![440, 570, 620]));
    let ops = task.call(&mut db, 102, Some(&vec![570]));
    let mut expected = stopped(102, 2);
    expected.extend(stopped(102, 4));
    assert_eq!(ops, expected);
    assert_eq!(task.watched(), &vec![570]);
    assert_eq!(db.running_apps(), vec![0, 570]);
    assert_eq!(db.cached(570), 1);
    assert_eq!(db.cached(440), 0);
}

#[test]
fn sampling_restarts_what_comes_back() {
    let mut db = ledger(100);
    let mut task = get_update_func(1);
    task.call(&mut db, 101, Some(&vec![440]));
    task.call(&mut db, 102, Some(&Vec::new()));
    assert!(task.watched().is_empty());
    let ops = task.call(&mut db, 103, Some(&vec![440]));
    assert_eq!(ops, started(103, 2));
    assert_eq!(db.running_apps(), vec![0, 440]);
}

#[test]
fn sampling_stops_everything_when_the_launcher_is_gone() {
    let mut db = ledger(100);
    let mut task = get_update_func(1);
    task.call(&mut db, 101, Some(&vec![440, 570]));
    let ops = task.call(&mut db, 102, None);
    let mut expected = stopped(102, 2);
    expected.extend(stopped(102, 3));
    assert_eq!(ops, expected);
    assert!(task.watched().is_empty());
    assert_eq!(db.running_apps(), vec![0]);
    assert!(task.call(&mut db, 103, None).is_empty());
}

#[test]
fn sampling_sees_an_empty_list_as_nothing_running() {
    let mut db = ledger(100);
    let mut task = get_update_func(1);
    assert!(task.call(&mut db, 101, Some(&Vec::new())).is_empty());
    assert_eq!(db.running_apps(), vec![0]);
}
