//! What holds of the ledger and the store together.
//!
//! Each law takes a ledger state and a store, lets the ledger take a step and
//! the store run the writes of that step, and states what the store then
//! holds.

use crate::db::{
    filled, hour_of, keys, lemma_dump, lemma_event, lemma_index_of, lemma_membership, lemma_put,
    lemma_resolve, lemma_stop_all, AppId, EventType, Ledger, THIS_APP_ID,
};
use crate::store::{
    after, bucket_index, closed_row, heartbeat, heartbeat_of, in_bucket, is_heartbeat,
    lemma_apply_all_concat, lemma_bucket_index, lemma_bucket_index_unique,
    lemma_apply_all_one, lemma_filter_all, lemma_filter_holds, lemma_filter_members,
    lemma_filter_none,
    lemma_filter_same, lemma_filter_twice, lemma_put_bucket, not_after, not_heartbeat,
    not_heartbeat_of, Backup, EventRow, Store, StoreOp,
};
use vstd::prelude::*;

verus! {

/// The object ids of the ledger fit the type that the store keeps them in.
pub open spec fn fits(ledger: Ledger) -> bool {
    ledger.objects.len() <= u64::MAX
}

/// The store knows the applications that the ledger knows, under the same
/// ids.
pub open spec fn mirrored(ledger: Ledger, store: Store) -> bool {
    store.objects == ledger.objects
}

/// The journal rows that `Ledger::markers` asks for.
pub open spec fn marker_rows(ledger: Ledger, timestamp: u64, kind: EventType) -> Seq<EventRow> {
    Seq::new(
        ledger.running.len(),
        |i: int| EventRow { timestamp, object_id: ledger.object_id(ledger.running[i]), kind },
    )
}

/// Writes that only append to the journal append their rows in order.
pub proof fn lemma_apply_inserts(store: Store, ops: Seq<StoreOp>, rows: Seq<EventRow>)
    requires
        ops.len() == rows.len(),
        forall|i: int|
            0 <= i < ops.len() ==> #[trigger] ops[i] == (StoreOp::InsertEvent {
                timestamp: rows[i].timestamp,
                object_id: rows[i].object_id,
                kind: rows[i].kind,
            }),
    ensures
        store.apply_all(ops) == (Store { events: store.events + rows, ..store }),
    decreases ops.len(),
{
    if ops.len() == 0 {
        assert(store.events + rows =~= store.events);
    } else {
        lemma_apply_inserts(store, ops.drop_last(), rows.drop_last());
        assert(ops[ops.len() - 1] == ops.last());
        assert((store.events + rows.drop_last()).push(rows.last()) =~= store.events + rows);
    }
}

/// The clock check. A timestamp before the latest one opens exactly one new
/// backup group, which takes every journal row later than the timestamp, in
/// journal order; those rows leave the journal and no other row does. Any
/// other timestamp writes nothing. Either way the timestamp becomes the
/// latest one.
pub proof fn law_clock_check(ledger: Ledger, store: Store, timestamp: u64)
    ensures
        ledger.validate_timestamp(timestamp).ledger == (Ledger {
            last_timestamp: timestamp,
            ..ledger
        }),
        timestamp >= ledger.last_timestamp ==> store.apply_all(
            ledger.validate_timestamp(timestamp).ops,
        ) == store,
        timestamp < ledger.last_timestamp ==> ({
            let moved = store.apply_all(ledger.validate_timestamp(timestamp).ops);
            &&& moved.objects == store.objects
            &&& moved.timeline == store.timeline
            &&& moved.events == store.events.filter(not_after(timestamp))
            &&& moved.backups == store.backups.push(
                Backup {
                    start_ts: timestamp,
                    end_ts: ledger.last_timestamp,
                    events: store.events.filter(after(timestamp)),
                },
            )
            &&& forall|row: EventRow| #[trigger]
                moved.events.contains(row) <==> store.events.contains(row) && row.timestamp
                    <= timestamp
            &&& forall|row: EventRow| #[trigger]
                moved.backups.last().events.contains(row) <==> store.events.contains(row)
                    && row.timestamp > timestamp
        }),
{
    let ops = ledger.validate_timestamp(timestamp).ops;
    if timestamp < ledger.last_timestamp {
        lemma_apply_all_one(store, ops[0]);
        assert(ops =~= seq![ops[0]]);
        lemma_filter_members(store.events, not_after(timestamp));
        lemma_filter_members(store.events, after(timestamp));
    } else {
        assert(ops =~= Seq::<StoreOp>::empty());
    }
}

/// The store after the clock check of `timestamp`.
pub open spec fn checked(ledger: Ledger, store: Store, timestamp: u64) -> Store {
    store.apply_all(ledger.validate_timestamp(timestamp).ops)
}

/// Looking an application up registers it in the store where the ledger
/// registers it, under the same id, and touches no other table.
pub proof fn lemma_resolve_store(ledger: Ledger, store: Store, app_id: AppId)
    requires
        ledger.wf(),
        fits(ledger.resolve(app_id).ledger),
    ensures
        store.apply_all(ledger.resolve(app_id).ops).events == store.events,
        store.apply_all(ledger.resolve(app_id).ops).backups == store.backups,
        store.apply_all(ledger.resolve(app_id).ops).timeline == store.timeline,
        mirrored(ledger, store) ==> mirrored(
            ledger.resolve(app_id).ledger,
            store.apply_all(ledger.resolve(app_id).ops),
        ),
{
    let ops = ledger.resolve(app_id).ops;
    if ledger.objects.contains(app_id) {
        assert(ops =~= Seq::<StoreOp>::empty());
    } else {
        assert(ops =~= seq![ops[0]]);
        lemma_apply_all_one(store, ops[0]);
    }
}

/// What the store holds after an event about one application: the journal
/// after the clock check, without the heartbeat rows of the application's
/// object and with one new row of the kind at its end.
pub proof fn lemma_event_single(
    ledger: Ledger,
    store: Store,
    timestamp: u64,
    app_id: Option<AppId>,
    kind: EventType,
)
    requires
        ledger.wf(),
        fits(ledger.event(timestamp, app_id, kind).ledger),
        kind == EventType::Started || kind == EventType::Stopped,
    ensures
        ({
            let step = ledger.event(timestamp, app_id, kind);
            let app_id = match app_id {
                Some(app_id) => app_id,
                None => THIS_APP_ID,
            };
            let object_id = step.ledger.object_id(app_id);
            let before = checked(ledger, store, timestamp);
            let after = store.apply_all(step.ops);
            &&& after.events == before.events.filter(not_heartbeat_of(object_id)).push(
                EventRow { timestamp, object_id, kind },
            )
            &&& after.backups == before.backups
            &&& after.timeline == store.timeline
            &&& mirrored(ledger, store) ==> mirrored(step.ledger, after)
        }),
{
    let step = ledger.event(timestamp, app_id, kind);
    let app = match app_id {
        Some(app_id) => app_id,
        None => THIS_APP_ID,
    };
    let check = ledger.validate_timestamp(timestamp);
    let found = check.ledger.resolve(app);
    let object_id = found.ledger.object_id(app);
    let tail = seq![
        StoreOp::DeleteRunning { object_id },
        StoreOp::InsertEvent { timestamp, object_id, kind },
    ];
    let s1 = store.apply_all(check.ops);
    law_clock_check(ledger, store, timestamp);
    lemma_resolve_store(check.ledger, s1, app);
    let s2 = s1.apply_all(found.ops);
    assert(step.ops =~= (check.ops + found.ops) + tail);
    lemma_apply_all_concat(store, check.ops + found.ops, tail);
    lemma_apply_all_concat(store, check.ops, found.ops);
    assert(tail.drop_last() =~= seq![tail[0]]);
    lemma_apply_all_one(s2, tail[0]);
    assert(s2.apply_all(tail) == s2.apply(tail[0]).apply(tail[1]));
}

/// What the store holds after an event about every running application:
/// the journal after the clock check, without its heartbeat rows where the
/// event is a heartbeat, and with one new row per running application.
pub proof fn lemma_event_broadcast(ledger: Ledger, store: Store, timestamp: u64, kind: EventType)
    requires
        ledger.wf(),
        kind != EventType::Started && kind != EventType::Stopped,
    ensures
        ({
            let step = ledger.event(timestamp, None, kind);
            let before = checked(ledger, store, timestamp);
            let after = store.apply_all(step.ops);
            &&& after.events == if kind == EventType::Running {
                before.events.filter(not_heartbeat()) + marker_rows(ledger, timestamp, kind)
            } else {
                before.events + marker_rows(ledger, timestamp, kind)
            }
            &&& after.backups == before.backups
            &&& after.timeline == store.timeline
            &&& after.objects == store.objects
        }),
{
    let step = ledger.event(timestamp, None, kind);
    let check = ledger.validate_timestamp(timestamp);
    let s1 = store.apply_all(check.ops);
    let rows = marker_rows(ledger, timestamp, kind);
    let inserts = ledger.markers(timestamp, kind);
    law_clock_check(ledger, store, timestamp);
    if kind == EventType::Running {
        let wipe = seq![StoreOp::DeleteAllRunning];
        assert(step.ops =~= (check.ops + wipe) + inserts);
        lemma_apply_all_concat(store, check.ops + wipe, inserts);
        lemma_apply_all_concat(store, check.ops, wipe);
        lemma_apply_all_one(s1, StoreOp::DeleteAllRunning);
        lemma_apply_inserts(s1.apply(StoreOp::DeleteAllRunning), inserts, rows);
    } else {
        assert(step.ops =~= check.ops + inserts);
        lemma_apply_all_concat(store, check.ops, inserts);
        lemma_apply_inserts(s1, inserts, rows);
    }
}

/// Different registered applications have different object ids.
pub proof fn lemma_ids_differ(ledger: Ledger, one: AppId, other: AppId)
    requires
        ledger.objects.no_duplicates(),
        fits(ledger),
        ledger.objects.contains(one),
        ledger.objects.contains(other),
        one != other,
    ensures
        ledger.object_id(one) != ledger.object_id(other),
        1 <= ledger.object_id(one) <= ledger.objects.len(),
        ledger.objects[ledger.object_id(one) - 1] == one,
{
}

/// Heartbeat. After a heartbeat the heartbeat rows of the journal are
/// exactly one per running application, in the order of the running set,
/// all with the timestamp of the heartbeat, and no two of them belong to the
/// same object.
pub proof fn law_heartbeat(ledger: Ledger, store: Store, timestamp: u64)
    requires
        ledger.wf(),
        fits(ledger),
    ensures
        ({
            let step = ledger.event(timestamp, None, EventType::Running);
            let beats = store.apply_all(step.ops).events.filter(heartbeat());
            &&& step.ledger.running == ledger.running
            &&& beats == marker_rows(ledger, timestamp, EventType::Running)
            &&& beats.len() == ledger.running.len()
            &&& forall|i: int, j: int|
                0 <= i < j < beats.len() ==> (#[trigger] beats[i]).object_id != (
                #[trigger] beats[j]).object_id
        }),
{
    let kind = EventType::Running;
    let rows = marker_rows(ledger, timestamp, kind);
    let before = checked(ledger, store, timestamp).events.filter(not_heartbeat());
    lemma_event_broadcast(ledger, store, timestamp, kind);
    Seq::filter_distributes_over_add(before, rows, heartbeat());
    lemma_filter_holds(checked(ledger, store, timestamp).events, not_heartbeat());
    lemma_filter_none(before, heartbeat());
    lemma_filter_all(rows, heartbeat());
    assert(Seq::<EventRow>::empty() + rows =~= rows);
    assert forall|i: int, j: int| 0 <= i < j < rows.len() implies (#[trigger] rows[i]).object_id != (
    #[trigger] rows[j]).object_id by {
        assert(ledger.objects.contains(ledger.running[i]));
        assert(ledger.objects.contains(ledger.running[j]));
        lemma_ids_differ(ledger, ledger.running[i], ledger.running[j]);
    }
}

/// Restart recovery. Closing dangling heartbeats rewrites each heartbeat row
/// as a `Stopped` row with the same timestamp and object and leaves every
/// other row as it is. After the writes of an open no heartbeat row is left;
/// and where the clock did not go backward, the journal is the closed one
/// with the start of the tracker at its end.
pub proof fn law_open_closes_dangling(
    store: Store,
    last_timestamp: u64,
    rows: Seq<(AppId, u64)>,
    timestamp: u64,
)
    requires
        store.objects.no_duplicates(),
        store.objects.len() < u64::MAX,
    ensures
        ({
            let closed = store.apply(StoreOp::CloseDangling);
            let step = Ledger::open(store.objects, last_timestamp, rows, timestamp);
            let opened = store.apply_all(step.ops);
            &&& closed.events.len() == store.events.len()
            &&& forall|i: int|
                0 <= i < store.events.len() ==> #[trigger] closed.events[i] == closed_row(
                    store.events[i],
                )
            &&& forall|row: EventRow| #[trigger] opened.events.contains(row) ==> !is_heartbeat(row)
            &&& timestamp >= last_timestamp ==> opened.events == closed.events.push(
                EventRow {
                    timestamp,
                    object_id: step.ledger.object_id(THIS_APP_ID),
                    kind: EventType::Started,
                },
            )
            &&& mirrored(step.ledger, opened)
            &&& step.ledger.wf()
        }),
{
    let closed = store.apply(StoreOp::CloseDangling);
    let step = Ledger::open(store.objects, last_timestamp, rows, timestamp);
    let fresh = Ledger {
        objects: store.objects,
        last_timestamp,
        bucket: 0,
        cache: Seq::empty(),
        running: Seq::empty(),
    };
    let loaded = fresh.load_cache(hour_of(timestamp), rows);
    lemma_filled(rows);
    let started = loaded.event(timestamp, None, EventType::Started);
    lemma_event(loaded, timestamp, None, EventType::Started);
    lemma_resolve(loaded.validate_timestamp(timestamp).ledger, THIS_APP_ID);
    lemma_apply_all_concat(store, seq![StoreOp::CloseDangling], started.ops);
    lemma_apply_all_one(store, StoreOp::CloseDangling);
    lemma_event_single(loaded, closed, timestamp, None, EventType::Started);
    law_clock_check(loaded, closed, timestamp);
    let object_id = started.ledger.object_id(THIS_APP_ID);
    let before = checked(loaded, closed, timestamp);
    let opened = store.apply_all(step.ops);
    assert forall|i: int| 0 <= i < before.events.len() implies (not_heartbeat_of(object_id))(
        #[trigger] before.events[i],
    ) by {
        let row = before.events[i];
        assert(before.events.contains(row));
        assert(closed.events.contains(row));
        let k = choose|k: int| 0 <= k < closed.events.len() && closed.events[k] == row;
        assert(row == closed_row(store.events[k]));
    }
    lemma_filter_all(before.events, not_heartbeat_of(object_id));
    assert forall|row: EventRow| #[trigger] opened.events.contains(row) implies !is_heartbeat(
        row,
    ) by {
        let k = choose|k: int| 0 <= k < opened.events.len() && opened.events[k] == row;
        if k < before.events.len() {
            assert((not_heartbeat_of(object_id))(before.events[k]));
            assert(before.events.contains(before.events[k]));
            assert(closed.events.contains(row));
            let j = choose|j: int| 0 <= j < closed.events.len() && closed.events[j] == row;
            assert(row == closed_row(store.events[j]));
        }
    }
}

/// A cache filled from rows holds no application twice.
pub proof fn lemma_filled(rows: Seq<(AppId, u64)>)
    ensures
        keys(filled(rows)).no_duplicates(),
    decreases rows.len(),
{
    if rows.len() > 0 {
        lemma_filled(rows.drop_last());
        lemma_put(filled(rows.drop_last()), rows.last().0, rows.last().1);
    }
}


/// How many heartbeat rows of `object_id` the journal holds.
pub open spec fn heartbeats(events: Seq<EventRow>, object_id: u64) -> nat {
    events.filter(heartbeat_of(object_id)).len()
}

/// Whether `object_id` is the object of a running application.
pub open spec fn runs(ledger: Ledger, object_id: u64) -> bool {
    exists|i: int|
        0 <= i < ledger.running.len() && ledger.object_id(#[trigger] ledger.running[i]) == object_id
}

/// No object has more than one heartbeat row, and only the objects of
/// running applications have one.
pub open spec fn marked(ledger: Ledger, events: Seq<EventRow>) -> bool {
    forall|object_id: u64|
        #[trigger] heartbeats(events, object_id) <= if runs(ledger, object_id) {
            1nat
        } else {
            0nat
        }
}

/// Selecting rows never adds a heartbeat row.
pub proof fn lemma_beats_filter(events: Seq<EventRow>, keep: spec_fn(EventRow) -> bool, object_id: u64)
    ensures
        heartbeats(events.filter(keep), object_id) <= heartbeats(events, object_id),
{
    let of = heartbeat_of(object_id);
    let kept_of = |row: EventRow| keep(row) && of(row);
    let of_kept = |row: EventRow| of(row) && keep(row);
    lemma_filter_twice(events, keep, of, kept_of);
    lemma_filter_twice(events, of, keep, of_kept);
    lemma_filter_same(events, kept_of, of_kept);
    events.filter(of).lemma_filter_len(keep);
}

/// Deleting the heartbeat rows of one object leaves it none and leaves the
/// heartbeat rows of every other object alone.
pub proof fn lemma_beats_delete(events: Seq<EventRow>, deleted: u64, object_id: u64)
    ensures
        heartbeats(events.filter(not_heartbeat_of(deleted)), object_id) == if object_id
            == deleted {
            0
        } else {
            heartbeats(events, object_id)
        },
{
    let of = heartbeat_of(object_id);
    let keep = not_heartbeat_of(deleted);
    let both = |row: EventRow| keep(row) && of(row);
    lemma_filter_twice(events, keep, of, both);
    if object_id == deleted {
        lemma_filter_none(events, both);
    } else {
        lemma_filter_same(events, both, of);
    }
}

/// A journal without heartbeat rows has none of any object.
pub proof fn lemma_beats_none(events: Seq<EventRow>, object_id: u64)
    requires
        forall|i: int| 0 <= i < events.len() ==> !is_heartbeat(#[trigger] events[i]),
    ensures
        heartbeats(events, object_id) == 0,
{
    lemma_filter_none(events, heartbeat_of(object_id));
}

/// Rows of different objects hold at most one heartbeat row of an object,
/// and hold one only where one of the rows belongs to the object.
pub proof fn lemma_beats_distinct(rows: Seq<EventRow>, object_id: u64)
    requires
        forall|i: int, j: int|
            0 <= i < j < rows.len() ==> (#[trigger] rows[i]).object_id != (
            #[trigger] rows[j]).object_id,
    ensures
        heartbeats(rows, object_id) <= 1,
        heartbeats(rows, object_id) == 1 ==> exists|i: int|
            0 <= i < rows.len() && (#[trigger] rows[i]).object_id == object_id,
    decreases rows.len(),
{
    reveal(Seq::filter);
    if rows.len() > 0 {
        let front = rows.drop_last();
        assert forall|i: int, j: int| 0 <= i < j < front.len() implies (#[trigger] front[i]).object_id
            != (#[trigger] front[j]).object_id by {
            assert(front[i] == rows[i]);
            assert(front[j] == rows[j]);
        }
        lemma_beats_distinct(front, object_id);
        if (heartbeat_of(object_id))(rows.last()) {
            assert forall|i: int| 0 <= i < front.len() implies !(heartbeat_of(object_id))(
                #[trigger] front[i],
            ) by {
                assert(front[i] == rows[i]);
                assert(rows[rows.len() - 1] == rows.last());
            }
            lemma_filter_none(front, heartbeat_of(object_id));
            assert(rows[rows.len() - 1].object_id == object_id);
        } else if heartbeats(rows, object_id) == 1 {
            let i = choose|i: int| 0 <= i < front.len() && (#[trigger] front[i]).object_id == object_id;
            assert(rows[i].object_id == object_id);
        }
    }
}

/// The rows that a broadcast writes hold at most one heartbeat row of an
/// object, and hold one only for a heartbeat and the object of a running
/// application.
pub proof fn lemma_beats_markers(ledger: Ledger, timestamp: u64, kind: EventType, object_id: u64)
    requires
        ledger.wf(),
        fits(ledger),
    ensures
        heartbeats(marker_rows(ledger, timestamp, kind), object_id) <= if kind == EventType::Running
            && runs(ledger, object_id) {
            1nat
        } else {
            0nat
        },
{
    let rows = marker_rows(ledger, timestamp, kind);
    if kind == EventType::Running {
        assert forall|i: int, j: int| 0 <= i < j < rows.len() implies (#[trigger] rows[i]).object_id
            != (#[trigger] rows[j]).object_id by {
            assert(ledger.objects.contains(ledger.running[i]));
            assert(ledger.objects.contains(ledger.running[j]));
            lemma_ids_differ(ledger, ledger.running[i], ledger.running[j]);
        }
        lemma_beats_distinct(rows, object_id);
        if heartbeats(rows, object_id) == 1 {
            let i = choose|i: int| 0 <= i < rows.len() && (#[trigger] rows[i]).object_id == object_id;
            assert(ledger.object_id(ledger.running[i]) == object_id);
        }
    } else {
        lemma_beats_none(rows, object_id);
    }
}

/// An event registers nothing twice, keeps every id that was given out and
/// never shrinks the object table.
pub proof fn lemma_event_objects(
    ledger: Ledger,
    timestamp: u64,
    app_id: Option<AppId>,
    kind: EventType,
)
    requires
        ledger.wf(),
    ensures
        ledger.event(timestamp, app_id, kind).ledger.wf(),
        ledger.event(timestamp, app_id, kind).ledger.objects.len() >= ledger.objects.len(),
        forall|other: AppId| #[trigger]
            ledger.objects.contains(other) ==> {
                &&& ledger.event(timestamp, app_id, kind).ledger.objects.contains(other)
                &&& ledger.event(timestamp, app_id, kind).ledger.object_id(other)
                    == ledger.object_id(other)
            },
{
    lemma_event(ledger, timestamp, app_id, kind);
    if kind == EventType::Started || kind == EventType::Stopped {
        let app = match app_id {
            Some(app_id) => app_id,
            None => THIS_APP_ID,
        };
        lemma_resolve(ledger.validate_timestamp(timestamp).ledger, app);
    }
}

/// An object that ran before an event runs after it, unless the event is
/// about its application.
pub proof fn lemma_runs_kept(
    ledger: Ledger,
    timestamp: u64,
    app_id: Option<AppId>,
    kind: EventType,
    object_id: u64,
)
    requires
        ledger.wf(),
        fits(ledger.event(timestamp, app_id, kind).ledger),
        runs(ledger, object_id),
        kind == EventType::Started || kind == EventType::Stopped ==> object_id != ledger.event(
            timestamp,
            app_id,
            kind,
        ).ledger.object_id(
            match app_id {
                Some(app_id) => app_id,
                None => THIS_APP_ID,
            },
        ),
    ensures
        runs(ledger.event(timestamp, app_id, kind).ledger, object_id),
{
    let step = ledger.event(timestamp, app_id, kind);
    let i = choose|i: int|
        0 <= i < ledger.running.len() && ledger.object_id(#[trigger] ledger.running[i]) == object_id;
    let runner = ledger.running[i];
    assert(ledger.objects.contains(runner));
    lemma_event_objects(ledger, timestamp, app_id, kind);
    if kind == EventType::Started || kind == EventType::Stopped {
        let app = match app_id {
            Some(app_id) => app_id,
            None => THIS_APP_ID,
        };
        let found = ledger.validate_timestamp(timestamp).ledger.resolve(app).ledger;
        lemma_resolve(ledger.validate_timestamp(timestamp).ledger, app);
        assert(runner != app);
        if kind == EventType::Started {
            assert(step.ledger.running[i] == runner);
        } else {
            lemma_membership(found, app, false);
            assert(ledger.running.contains(runner));
            assert(step.ledger.running.contains(runner));
            let k = step.ledger.running.index_of(runner);
            assert(step.ledger.object_id(step.ledger.running[k]) == object_id);
        }
    } else {
        assert(step.ledger.running[i] == runner);
    }
}

/// Heartbeat rows at all times. Whatever event is recorded, afterwards no
/// object has more than one heartbeat row and only the objects of running
/// applications have one, given that this held before.
pub proof fn law_event_keeps_marks(
    ledger: Ledger,
    store: Store,
    timestamp: u64,
    app_id: Option<AppId>,
    kind: EventType,
)
    requires
        ledger.wf(),
        fits(ledger.event(timestamp, app_id, kind).ledger),
        marked(ledger, store.events),
    ensures
        marked(
            ledger.event(timestamp, app_id, kind).ledger,
            store.apply_all(ledger.event(timestamp, app_id, kind).ops).events,
        ),
{
    let step = ledger.event(timestamp, app_id, kind);
    let before = checked(ledger, store, timestamp).events;
    let after = store.apply_all(step.ops).events;
    law_clock_check(ledger, store, timestamp);
    lemma_event_objects(ledger, timestamp, app_id, kind);
    assert forall|object_id: u64| #[trigger]
        heartbeats(after, object_id) <= if runs(step.ledger, object_id) {
            1nat
        } else {
            0nat
        } by {
        assert(heartbeats(store.events, object_id) <= if runs(ledger, object_id) {
            1nat
        } else {
            0nat
        });
        if timestamp < ledger.last_timestamp {
            lemma_beats_filter(store.events, not_after(timestamp), object_id);
        }
        if kind == EventType::Started || kind == EventType::Stopped {
            let app = match app_id {
                Some(app_id) => app_id,
                None => THIS_APP_ID,
            };
            let id = step.ledger.object_id(app);
            lemma_event_single(ledger, store, timestamp, app_id, kind);
            lemma_beats_delete(before, id, object_id);
            before.filter(not_heartbeat_of(id)).lemma_filter_push(
                EventRow { timestamp, object_id: id, kind },
                heartbeat_of(object_id),
            );
            if object_id != id && runs(ledger, object_id) {
                lemma_runs_kept(ledger, timestamp, app_id, kind, object_id);
            }
        } else {
            let rows = marker_rows(ledger, timestamp, kind);
            lemma_event_broadcast(ledger, store, timestamp, kind);
            lemma_beats_markers(ledger, timestamp, kind, object_id);
            if runs(ledger, object_id) {
                lemma_runs_kept(ledger, timestamp, app_id, kind, object_id);
            }
            if kind == EventType::Running {
                let wiped = before.filter(not_heartbeat());
                lemma_filter_holds(before, not_heartbeat());
                lemma_beats_none(wiped, object_id);
                Seq::filter_distributes_over_add(wiped, rows, heartbeat_of(object_id));
            } else {
                Seq::filter_distributes_over_add(before, rows, heartbeat_of(object_id));
            }
        }
    }
}

/// The object of a cache entry, by the ids of `after`, is one of the first
/// `n` entries of the cache of `ledger`.
pub open spec fn written(ledger: Ledger, after: Ledger, n: int, object_id: u64) -> bool {
    exists|i: int| 0 <= i < n && after.object_id((#[trigger] ledger.cache[i]).0) == object_id
}

/// What the store holds after the first `n` cache entries were written
/// back: each of them under its bucket and object, every other bucket as
/// before, and the journal untouched.
pub proof fn lemma_dump_store(ledger: Ledger, store: Store, n: int)
    requires
        ledger.wf(),
        0 <= n <= ledger.cache.len(),
        fits(ledger.dump(n).ledger),
    ensures
        ({
            let step = ledger.dump(n);
            let after = store.apply_all(step.ops);
            &&& step.ledger.wf()
            &&& after.events == store.events
            &&& after.backups == store.backups
            &&& mirrored(ledger, store) ==> mirrored(step.ledger, after)
            &&& step.ledger.objects.len() >= ledger.objects.len()
            &&& forall|i: int|
                0 <= i < n ==> step.ledger.objects.contains((#[trigger] ledger.cache[i]).0)
            &&& forall|i: int|
                0 <= i < n ==> after.value_at(
                    ledger.bucket,
                    step.ledger.object_id((#[trigger] ledger.cache[i]).0),
                ) == Some(ledger.cache[i].1)
            &&& forall|bucket: u64, object_id: u64|
                !(bucket == ledger.bucket && written(ledger, step.ledger, n, object_id))
                    ==> #[trigger] after.value_at(bucket, object_id) == store.value_at(
                    bucket,
                    object_id,
                )
        }),
    decreases n,
{
    let step = ledger.dump(n);
    let after = store.apply_all(step.ops);
    lemma_dump(ledger, n);
    if n == 0 {
        assert(step.ops =~= Seq::<StoreOp>::empty());
    } else {
        let prev = ledger.dump(n - 1);
        let app = ledger.cache[n - 1].0;
        let value = ledger.cache[n - 1].1;
        let found = prev.ledger.resolve(app);
        let id = found.ledger.object_id(app);
        let put = StoreOp::PutBucket { bucket: ledger.bucket, object_id: id, value };
        lemma_dump(ledger, n - 1);
        lemma_resolve(prev.ledger, app);
        lemma_dump_store(ledger, store, n - 1);
        let s_prev = store.apply_all(prev.ops);
        lemma_resolve_store(prev.ledger, s_prev, app);
        let s_found = s_prev.apply_all(found.ops);
        assert(step.ops =~= (prev.ops + found.ops) + seq![put]);
        lemma_apply_all_concat(store, prev.ops + found.ops, seq![put]);
        lemma_apply_all_concat(store, prev.ops, found.ops);
        lemma_apply_all_one(s_found, put);
        lemma_put_bucket(s_found, ledger.bucket, id, value);
        assert forall|bucket: u64, object_id: u64| #[trigger]
            s_found.value_at(bucket, object_id) == s_prev.value_at(bucket, object_id) by {}
        assert forall|i: int| 0 <= i < n implies step.ledger.objects.contains(
            (#[trigger] ledger.cache[i]).0,
        ) && after.value_at(ledger.bucket, step.ledger.object_id(ledger.cache[i].0)) == Some(
            ledger.cache[i].1,
        ) by {
            if i < n - 1 {
                let earlier = ledger.cache[i].0;
                assert(prev.ledger.objects.contains(earlier));
                assert(keys(ledger.cache)[i] == earlier);
                assert(keys(ledger.cache)[n - 1] == app);
                lemma_ids_differ(step.ledger, earlier, app);
                assert(s_prev.value_at(ledger.bucket, prev.ledger.object_id(earlier)) == Some(
                    ledger.cache[i].1,
                ));
            }
        }
        assert forall|bucket: u64, object_id: u64|
            !(bucket == ledger.bucket && written(
                ledger,
                step.ledger,
                n,
                object_id,
            )) implies #[trigger] after.value_at(bucket, object_id) == store.value_at(
            bucket,
            object_id,
        ) by {
            if bucket == ledger.bucket {
                if object_id == id {
                    assert(step.ledger.object_id(ledger.cache[n - 1].0) == object_id);
                }
                if written(ledger, prev.ledger, n - 1, object_id) {
                    let i = choose|i: int|
                        0 <= i < n - 1 && prev.ledger.object_id((#[trigger] ledger.cache[i]).0)
                            == object_id;
                    assert(prev.ledger.objects.contains(ledger.cache[i].0));
                    assert(step.ledger.object_id(ledger.cache[i].0) == object_id);
                }
            }
            assert(s_prev.value_at(bucket, object_id) == store.value_at(bucket, object_id));
        }
    }
}

/// Commit writes the cache back. After a commit the store holds, for each
/// cache entry, the value of the entry under the bucket of the cache and the
/// object of the application; the value replaces what was stored, and no
/// other bucket changes.
pub proof fn law_commit_persists_cache(ledger: Ledger, store: Store, timestamp: u64)
    requires
        ledger.wf(),
        fits(ledger.commit(timestamp).ledger),
    ensures
        ({
            let step = ledger.commit(timestamp);
            let after = store.apply_all(step.ops);
            &&& step.ledger.wf()
            &&& mirrored(ledger, store) ==> mirrored(step.ledger, after)
            &&& forall|i: int|
                0 <= i < ledger.cache.len() ==> {
                    &&& step.ledger.objects.contains((#[trigger] ledger.cache[i]).0)
                    &&& after.value_at(ledger.bucket, step.ledger.object_id(ledger.cache[i].0))
                        == Some(ledger.cache[i].1)
                }
            &&& forall|bucket: u64, object_id: u64|
                !(bucket == ledger.bucket && written(
                    ledger,
                    step.ledger,
                    ledger.cache.len() as int,
                    object_id,
                )) ==> #[trigger] after.value_at(bucket, object_id) == store.value_at(
                    bucket,
                    object_id,
                )
        }),
{
    let step = ledger.commit(timestamp);
    let beat = ledger.event(timestamp, None, EventType::Running);
    let dumped = beat.ledger.dump_cache();
    let n = ledger.cache.len() as int;
    lemma_event(ledger, timestamp, None, EventType::Running);
    lemma_event_broadcast(ledger, store, timestamp, EventType::Running);
    let s1 = store.apply_all(beat.ops);
    lemma_apply_all_concat(store, beat.ops, dumped.ops);
    lemma_dump_store(beat.ledger, s1, n);
    lemma_filled(Seq::<(AppId, u64)>::empty());
    assert forall|bucket: u64, object_id: u64| #[trigger]
        s1.value_at(bucket, object_id) == store.value_at(bucket, object_id) by {}
    assert forall|object_id: u64|
        written(beat.ledger, dumped.ledger, n, object_id) implies written(
        ledger,
        step.ledger,
        n,
        object_id,
    ) by {
        let i = choose|i: int|
            0 <= i < n && dumped.ledger.object_id((#[trigger] beat.ledger.cache[i]).0) == object_id;
        assert(step.ledger.object_id(ledger.cache[i].0) == object_id);
    }
}

/// The ledger after the updates `updates`, each an application and a delta,
/// in order.
pub open spec fn update_all(ledger: Ledger, updates: Seq<(AppId, u64)>) -> Ledger
    decreases updates.len(),
{
    if updates.len() == 0 {
        ledger
    } else {
        update_all(ledger, updates.drop_last()).update(updates.last().0, updates.last().1)
    }
}

/// The sum of the deltas of `app_id` in `updates`.
pub open spec fn total(updates: Seq<(AppId, u64)>, app_id: AppId) -> int
    decreases updates.len(),
{
    if updates.len() == 0 {
        0
    } else {
        total(updates.drop_last(), app_id) + if updates.last().0 == app_id {
            updates.last().1 as int
        } else {
            0
        }
    }
}

/// One update adds its delta to what the application has accumulated and
/// changes the value of no other application.
pub proof fn lemma_update(ledger: Ledger, app_id: AppId, value: u64)
    requires
        ledger.wf(),
        ledger.cached(app_id) + value <= u64::MAX,
    ensures
        ledger.update(app_id, value).wf(),
        ledger.update(app_id, value).cached(app_id) == ledger.cached(app_id) + value,
        keys(ledger.update(app_id, value).cache).contains(app_id),
        forall|other: AppId|
            other != app_id ==> #[trigger] ledger.update(app_id, value).cached(other)
                == ledger.cached(other),
        forall|other: AppId|
            other != app_id ==> (#[trigger] keys(ledger.update(app_id, value).cache).contains(other)
                <==> keys(ledger.cache).contains(other)),
{
    let sum = (ledger.cached(app_id) + value) as u64;
    let before = ledger.cache;
    let after = ledger.update(app_id, value).cache;
    lemma_put(before, app_id, sum);
    if keys(before).contains(app_id) {
        let at = keys(before).index_of(app_id);
        assert(keys(after) =~= keys(before));
        assert forall|other: AppId| other != app_id implies #[trigger] ledger.update(
            app_id,
            value,
        ).cached(other) == ledger.cached(other) by {
            if keys(before).contains(other) {
                let k = keys(before).index_of(other);
                assert(keys(before)[k] == other);
                assert(before[k].0 != app_id);
            }
        }
        assert forall|other: AppId| other != app_id implies (#[trigger] keys(
            ledger.update(app_id, value).cache,
        ).contains(other) <==> keys(ledger.cache).contains(other)) by {}
    } else {
        assert(keys(after)[before.len() as int] == app_id);
        lemma_index_of(keys(after), app_id, before.len() as int);
        assert forall|other: AppId| other != app_id implies #[trigger] ledger.update(
            app_id,
            value,
        ).cached(other) == ledger.cached(other) && (keys(after).contains(other) <==> keys(
            before,
        ).contains(other)) by {
            if keys(before).contains(other) {
                let k = keys(before).index_of(other);
                assert(keys(after)[k] == other);
                lemma_index_of(keys(after), other, k);
            }
            if keys(after).contains(other) {
                let k = keys(after).index_of(other);
                assert(keys(before)[k] == other);
            }
        }
        assert forall|other: AppId| other != app_id implies (#[trigger] keys(
            ledger.update(app_id, value).cache,
        ).contains(other) <==> keys(ledger.cache).contains(other)) by {
            assert(ledger.update(app_id, value).cached(other) == ledger.cached(other));
        }
    }
}

/// Updates add up. After any sequence of updates each application has
/// accumulated what it had before plus the sum of its deltas.
pub proof fn law_updates_add_up(ledger: Ledger, updates: Seq<(AppId, u64)>)
    requires
        ledger.wf(),
        forall|app_id: AppId| ledger.cached(app_id) + #[trigger] total(updates, app_id) <= u64::MAX,
    ensures
        update_all(ledger, updates).wf(),
        update_all(ledger, updates).objects == ledger.objects,
        update_all(ledger, updates).bucket == ledger.bucket,
        update_all(ledger, updates).running == ledger.running,
        update_all(ledger, updates).last_timestamp == ledger.last_timestamp,
        forall|app_id: AppId| #[trigger]
            update_all(ledger, updates).cached(app_id) == ledger.cached(app_id) + total(
                updates,
                app_id,
            ),
    decreases updates.len(),
{
    if updates.len() > 0 {
        let front = updates.drop_last();
        let app = updates.last().0;
        let value = updates.last().1;
        assert forall|app_id: AppId| ledger.cached(app_id) + #[trigger] total(front, app_id)
            <= u64::MAX by {
            lemma_total_grows(updates, app_id);
            assert(ledger.cached(app_id) + total(updates, app_id) <= u64::MAX);
        }
        law_updates_add_up(ledger, front);
        let before = update_all(ledger, front);
        assert(before.cached(app) == ledger.cached(app) + total(front, app));
        assert(ledger.cached(app) + total(updates, app) <= u64::MAX);
        lemma_update(before, app, value);
        assert forall|app_id: AppId| #[trigger]
            update_all(ledger, updates).cached(app_id) == ledger.cached(app_id) + total(
                updates,
                app_id,
            ) by {
            assert(before.cached(app_id) == ledger.cached(app_id) + total(front, app_id));
        }
    }
}

/// A sum of deltas is not negative and does not shrink with more updates.
pub proof fn lemma_total_grows(updates: Seq<(AppId, u64)>, app_id: AppId)
    ensures
        0 <= total(updates, app_id),
        updates.len() > 0 ==> total(updates.drop_last(), app_id) <= total(updates, app_id),
    decreases updates.len(),
{
    if updates.len() > 0 {
        lemma_total_grows(updates.drop_last(), app_id);
    }
}

/// Commit persists the exact sum. After any sequence of updates and a
/// commit, the store holds for each application of the cache, under the
/// bucket of the cache, what the application had accumulated before the
/// updates plus the sum of its deltas.
pub proof fn law_commit_persists_sum(
    ledger: Ledger,
    store: Store,
    updates: Seq<(AppId, u64)>,
    timestamp: u64,
)
    requires
        ledger.wf(),
        forall|app_id: AppId| ledger.cached(app_id) + #[trigger] total(updates, app_id) <= u64::MAX,
        fits(update_all(ledger, updates).commit(timestamp).ledger),
    ensures
        ({
            let step = update_all(ledger, updates).commit(timestamp);
            let after = store.apply_all(step.ops);
            forall|app_id: AppId| #[trigger]
                keys(update_all(ledger, updates).cache).contains(app_id) ==> after.value_at(
                    ledger.bucket,
                    step.ledger.object_id(app_id),
                ) == Some((ledger.cached(app_id) + total(updates, app_id)) as u64)
        }),
{
    let updated = update_all(ledger, updates);
    let step = updated.commit(timestamp);
    let after = store.apply_all(step.ops);
    law_updates_add_up(ledger, updates);
    law_commit_persists_cache(updated, store, timestamp);
    assert forall|app_id: AppId| #[trigger]
        keys(updated.cache).contains(app_id) implies after.value_at(
        ledger.bucket,
        step.ledger.object_id(app_id),
    ) == Some((ledger.cached(app_id) + total(updates, app_id)) as u64) by {
        let at = keys(updated.cache).index_of(app_id);
        assert(updated.cache[at].0 == app_id);
        assert(updated.cached(app_id) == ledger.cached(app_id) + total(updates, app_id));
    }
}

/// Commit is idempotent. A second commit in the same bucket, with no update
/// in between, leaves every stored bucket value as the first commit left it.
pub proof fn law_commit_idempotent(ledger: Ledger, store: Store, first_ts: u64, second_ts: u64)
    requires
        ledger.wf(),
        hour_of(first_ts) == hour_of(second_ts),
        fits(ledger.commit(first_ts).ledger.commit(second_ts).ledger),
    ensures
        ({
            let first = ledger.commit(first_ts);
            let once = store.apply_all(first.ops);
            let second = first.ledger.commit(second_ts);
            let twice = once.apply_all(second.ops);
            forall|bucket: u64, object_id: u64| #[trigger]
                twice.value_at(bucket, object_id) == once.value_at(bucket, object_id)
        }),
{
    let first = ledger.commit(first_ts);
    let once = store.apply_all(first.ops);
    let second = first.ledger.commit(second_ts);
    let twice = once.apply_all(second.ops);
    let n = ledger.cache.len() as int;
    lemma_commit_objects(ledger, first_ts);
    lemma_commit_objects(first.ledger, second_ts);
    law_commit_persists_cache(ledger, store, first_ts);
    law_commit_persists_cache(first.ledger, once, second_ts);
    assert forall|bucket: u64, object_id: u64| #[trigger]
        twice.value_at(bucket, object_id) == once.value_at(bucket, object_id) by {
        if bucket == first.ledger.bucket && written(
            first.ledger,
            second.ledger,
            first.ledger.cache.len() as int,
            object_id,
        ) {
            let i = choose|i: int|
                0 <= i < first.ledger.cache.len() && second.ledger.object_id(
                    (#[trigger] first.ledger.cache[i]).0,
                ) == object_id;
            assert(first.ledger.cache == ledger.cache);
            assert(first.ledger.objects.contains(ledger.cache[i].0));
            assert(once.value_at(ledger.bucket, first.ledger.object_id(ledger.cache[i].0))
                == Some(ledger.cache[i].1));
        }
    }
}

/// A commit keeps every id that was given out and never shrinks the object
/// table; in the bucket of the cache it keeps the cache as it is, and on
/// moving to another bucket it empties the cache.
pub proof fn lemma_commit_objects(ledger: Ledger, timestamp: u64)
    requires
        ledger.wf(),
    ensures
        ledger.commit(timestamp).ledger.wf(),
        ledger.commit(timestamp).ledger.objects.len() >= ledger.objects.len(),
        ledger.commit(timestamp).ledger.running == ledger.running,
        ledger.commit(timestamp).ledger.bucket == hour_of(timestamp),
        hour_of(timestamp) == ledger.bucket ==> ledger.commit(timestamp).ledger.cache
            == ledger.cache,
        hour_of(timestamp) != ledger.bucket ==> ledger.commit(timestamp).ledger.cache.len() == 0,
        forall|other: AppId| #[trigger]
            ledger.objects.contains(other) ==> {
                &&& ledger.commit(timestamp).ledger.objects.contains(other)
                &&& ledger.commit(timestamp).ledger.object_id(other) == ledger.object_id(other)
            },
{
    let beat = ledger.event(timestamp, None, EventType::Running);
    lemma_event(ledger, timestamp, None, EventType::Running);
    lemma_dump(beat.ledger, ledger.cache.len() as int);
    lemma_filled(Seq::<(AppId, u64)>::empty());
    lemma_dump_grows(beat.ledger, ledger.cache.len() as int);
}

/// Writing the cache back never shrinks the object table.
pub proof fn lemma_dump_grows(ledger: Ledger, n: int)
    requires
        ledger.wf(),
        n <= ledger.cache.len(),
    ensures
        ledger.dump(n).ledger.objects.len() >= ledger.objects.len(),
    decreases n,
{
    if n > 0 {
        lemma_dump_grows(ledger, n - 1);
        lemma_dump(ledger, n - 1);
    }
}


/// An object that runs keeps running while the running set stays as it is
/// and no id that was given out changes.
pub proof fn lemma_runs_stable(before: Ledger, after: Ledger, object_id: u64)
    requires
        before.wf(),
        after.running == before.running,
        forall|other: AppId| #[trigger]
            before.objects.contains(other) ==> after.object_id(other) == before.object_id(other),
        runs(before, object_id),
    ensures
        runs(after, object_id),
{
    let i = choose|i: int|
        0 <= i < before.running.len() && before.object_id(#[trigger] before.running[i]) == object_id;
    assert(before.objects.contains(before.running[i]));
    assert(after.object_id(after.running[i]) == object_id);
}

/// Heartbeat rows at all times, across a commit.
pub proof fn law_commit_keeps_marks(ledger: Ledger, store: Store, timestamp: u64)
    requires
        ledger.wf(),
        fits(ledger.commit(timestamp).ledger),
        marked(ledger, store.events),
    ensures
        marked(
            ledger.commit(timestamp).ledger,
            store.apply_all(ledger.commit(timestamp).ops).events,
        ),
{
    let step = ledger.commit(timestamp);
    let beat = ledger.event(timestamp, None, EventType::Running);
    let dumped = beat.ledger.dump_cache();
    let n = ledger.cache.len() as int;
    lemma_event(ledger, timestamp, None, EventType::Running);
    lemma_commit_objects(ledger, timestamp);
    law_event_keeps_marks(ledger, store, timestamp, None, EventType::Running);
    let s1 = store.apply_all(beat.ops);
    lemma_apply_all_concat(store, beat.ops, dumped.ops);
    lemma_dump(beat.ledger, n);
    lemma_dump_store(beat.ledger, s1, n);
    assert forall|object_id: u64| #[trigger]
        heartbeats(s1.events, object_id) <= if runs(step.ledger, object_id) {
            1nat
        } else {
            0nat
        } by {
        assert(heartbeats(s1.events, object_id) <= if runs(beat.ledger, object_id) {
            1nat
        } else {
            0nat
        });
        if runs(beat.ledger, object_id) {
            lemma_runs_stable(beat.ledger, step.ledger, object_id);
        }
    }
}

/// Heartbeat rows at all times, across any number of stops.
pub proof fn law_stop_all_keeps_marks(
    ledger: Ledger,
    store: Store,
    apps: Seq<AppId>,
    timestamp: u64,
)
    requires
        ledger.wf(),
        fits(ledger.stop_all(apps, timestamp).ledger),
        marked(ledger, store.events),
    ensures
        ledger.stop_all(apps, timestamp).ledger.wf(),
        ledger.stop_all(apps, timestamp).ledger.objects.len() >= ledger.objects.len(),
        marked(
            ledger.stop_all(apps, timestamp).ledger,
            store.apply_all(ledger.stop_all(apps, timestamp).ops).events,
        ),
    decreases apps.len(),
{
    if apps.len() == 0 {
        assert(ledger.stop_all(apps, timestamp).ops =~= Seq::<StoreOp>::empty());
    } else {
        let before = ledger.stop_all(apps.drop_last(), timestamp);
        let last = before.ledger.event(timestamp, Some(apps.last()), EventType::Stopped);
        lemma_stop_all(ledger, apps.drop_last(), timestamp);
        lemma_event_objects(before.ledger, timestamp, Some(apps.last()), EventType::Stopped);
        law_stop_all_keeps_marks(ledger, store, apps.drop_last(), timestamp);
        lemma_apply_all_concat(store, before.ops, last.ops);
        law_event_keeps_marks(
            before.ledger,
            store.apply_all(before.ops),
            timestamp,
            Some(apps.last()),
            EventType::Stopped,
        );
    }
}

/// Heartbeat rows at all times, across a flush; and after a flush no
/// application is running and no heartbeat row is left.
pub proof fn law_flush_keeps_marks(ledger: Ledger, store: Store, timestamp: u64)
    requires
        ledger.wf(),
        fits(ledger.flush(timestamp).ledger),
        marked(ledger, store.events),
    ensures
        ledger.flush(timestamp).ledger.running.len() == 0,
        marked(
            ledger.flush(timestamp).ledger,
            store.apply_all(ledger.flush(timestamp).ops).events,
        ),
        forall|object_id: u64| #[trigger]
            heartbeats(store.apply_all(ledger.flush(timestamp).ops).events, object_id) == 0,
{
    let step = ledger.flush(timestamp);
    let dumped = ledger.dump_cache();
    let n = ledger.cache.len() as int;
    let stopped = dumped.ledger.stop_all(ledger.running, timestamp);
    lemma_dump(ledger, n);
    lemma_stop_all(dumped.ledger, ledger.running, timestamp);
    let ghost grown = dumped.ledger;
    assert(fits(grown)) by {
        lemma_stop_all_grows(grown, ledger.running, timestamp);
    }
    lemma_dump_store(ledger, store, n);
    let s1 = store.apply_all(dumped.ops);
    assert forall|object_id: u64| #[trigger]
        heartbeats(s1.events, object_id) <= if runs(grown, object_id) {
            1nat
        } else {
            0nat
        } by {
        assert(heartbeats(store.events, object_id) <= if runs(ledger, object_id) {
            1nat
        } else {
            0nat
        });
        if runs(ledger, object_id) {
            lemma_runs_stable(ledger, grown, object_id);
        }
    }
    law_stop_all_keeps_marks(grown, s1, ledger.running, timestamp);
    lemma_apply_all_concat(store, dumped.ops, stopped.ops);
    let after = store.apply_all(step.ops).events;
    assert forall|object_id: u64| #[trigger] heartbeats(after, object_id) == 0 by {
        assert(heartbeats(after, object_id) <= if runs(step.ledger, object_id) {
            1nat
        } else {
            0nat
        });
    }
}

/// Recording stops never shrinks the object table.
pub proof fn lemma_stop_all_grows(ledger: Ledger, apps: Seq<AppId>, timestamp: u64)
    requires
        ledger.wf(),
    ensures
        ledger.stop_all(apps, timestamp).ledger.objects.len() >= ledger.objects.len(),
    decreases apps.len(),
{
    if apps.len() > 0 {
        lemma_stop_all_grows(ledger, apps.drop_last(), timestamp);
        lemma_stop_all(ledger, apps.drop_last(), timestamp);
        lemma_event_objects(
            ledger.stop_all(apps.drop_last(), timestamp).ledger,
            timestamp,
            Some(apps.last()),
            EventType::Stopped,
        );
    }
}

/// Heartbeat rows at all times, from the start: an open leaves the store
/// without a heartbeat row, whatever it held.
pub proof fn law_open_marks(
    store: Store,
    last_timestamp: u64,
    rows: Seq<(AppId, u64)>,
    timestamp: u64,
)
    requires
        store.objects.no_duplicates(),
        store.objects.len() < u64::MAX,
    ensures
        ({
            let step = Ledger::open(store.objects, last_timestamp, rows, timestamp);
            marked(step.ledger, store.apply_all(step.ops).events)
        }),
{
    let step = Ledger::open(store.objects, last_timestamp, rows, timestamp);
    let opened = store.apply_all(step.ops);
    law_open_closes_dangling(store, last_timestamp, rows, timestamp);
    assert forall|object_id: u64| #[trigger]
        heartbeats(opened.events, object_id) <= if runs(step.ledger, object_id) {
            1nat
        } else {
            0nat
        } by {
        assert forall|i: int| 0 <= i < opened.events.len() implies !is_heartbeat(
            #[trigger] opened.events[i],
        ) by {
            assert(opened.events.contains(opened.events[i]));
        }
        lemma_beats_none(opened.events, object_id);
    }
}

/// The journal is in the order of its timestamps and none of them is later
/// than the latest timestamp of the ledger.
pub open spec fn ordered(ledger: Ledger, events: Seq<EventRow>) -> bool {
    &&& forall|i: int, j: int|
        0 <= i < j < events.len() ==> (#[trigger] events[i]).timestamp <= (
        #[trigger] events[j]).timestamp
    &&& forall|i: int| 0 <= i < events.len() ==> (#[trigger] events[i]).timestamp <= ledger.last_timestamp
}

/// Selecting rows of a journal keeps the order of its timestamps and any
/// bound on them.
pub proof fn lemma_filter_ordered(
    events: Seq<EventRow>,
    keep: spec_fn(EventRow) -> bool,
    bound: u64,
)
    requires
        forall|i: int, j: int|
            0 <= i < j < events.len() ==> (#[trigger] events[i]).timestamp <= (
            #[trigger] events[j]).timestamp,
        forall|i: int| 0 <= i < events.len() ==> (#[trigger] events[i]).timestamp <= bound,
    ensures
        forall|i: int, j: int|
            0 <= i < j < events.filter(keep).len() ==> (#[trigger] events.filter(
                keep,
            )[i]).timestamp <= (#[trigger] events.filter(keep)[j]).timestamp,
        forall|i: int|
            0 <= i < events.filter(keep).len() ==> (#[trigger] events.filter(keep)[i]).timestamp
                <= bound,
    decreases events.len(),
{
    reveal(Seq::filter);
    if events.len() > 0 {
        let front = events.drop_last();
        assert forall|i: int, j: int| 0 <= i < j < front.len() implies (#[trigger] front[i]).timestamp
            <= (#[trigger] front[j]).timestamp by {
            assert(front[i] == events[i]);
            assert(front[j] == events[j]);
        }
        assert forall|i: int| 0 <= i < front.len() implies (#[trigger] front[i]).timestamp
            <= events.last().timestamp by {
            assert(front[i] == events[i]);
            assert(events[events.len() - 1] == events.last());
        }
        lemma_filter_ordered(front, keep, events.last().timestamp);
        assert(events[events.len() - 1].timestamp <= bound);
    }
}

/// The journal stays in order. Whatever event is recorded, afterwards the
/// journal is in the order of its timestamps and ends no later than the
/// timestamp of the event, given that it was in order before.
pub proof fn law_event_keeps_order(
    ledger: Ledger,
    store: Store,
    timestamp: u64,
    app_id: Option<AppId>,
    kind: EventType,
)
    requires
        ledger.wf(),
        fits(ledger.event(timestamp, app_id, kind).ledger),
        ordered(ledger, store.events),
    ensures
        ledger.event(timestamp, app_id, kind).ledger.last_timestamp == timestamp,
        ordered(
            ledger.event(timestamp, app_id, kind).ledger,
            store.apply_all(ledger.event(timestamp, app_id, kind).ops).events,
        ),
{
    let step = ledger.event(timestamp, app_id, kind);
    let before = checked(ledger, store, timestamp).events;
    let after = store.apply_all(step.ops).events;
    law_clock_check(ledger, store, timestamp);
    lemma_event(ledger, timestamp, app_id, kind);
    // after the clock check no row is later than the timestamp
    if timestamp < ledger.last_timestamp {
        lemma_filter_ordered(store.events, not_after(timestamp), ledger.last_timestamp);
        lemma_filter_holds(store.events, not_after(timestamp));
    }
    assert(forall|i: int| 0 <= i < before.len() ==> (#[trigger] before[i]).timestamp <= timestamp);
    if kind == EventType::Started || kind == EventType::Stopped {
        let app = match app_id {
            Some(app_id) => app_id,
            None => THIS_APP_ID,
        };
        let id = step.ledger.object_id(app);
        lemma_event_single(ledger, store, timestamp, app_id, kind);
        lemma_filter_ordered(before, not_heartbeat_of(id), timestamp);
    } else {
        lemma_event_broadcast(ledger, store, timestamp, kind);
        if kind == EventType::Running {
            lemma_filter_ordered(before, not_heartbeat(), timestamp);
        }
    }
}


/// The journal stays in order across a commit.
pub proof fn law_commit_keeps_order(ledger: Ledger, store: Store, timestamp: u64)
    requires
        ledger.wf(),
        fits(ledger.commit(timestamp).ledger),
        ordered(ledger, store.events),
    ensures
        ordered(
            ledger.commit(timestamp).ledger,
            store.apply_all(ledger.commit(timestamp).ops).events,
        ),
{
    let beat = ledger.event(timestamp, None, EventType::Running);
    let dumped = beat.ledger.dump_cache();
    let n = ledger.cache.len() as int;
    lemma_event(ledger, timestamp, None, EventType::Running);
    lemma_commit_objects(ledger, timestamp);
    law_event_keeps_order(ledger, store, timestamp, None, EventType::Running);
    lemma_apply_all_concat(store, beat.ops, dumped.ops);
    lemma_dump(beat.ledger, n);
    lemma_dump_store(beat.ledger, store.apply_all(beat.ops), n);
}

/// The journal stays in order across any number of stops.
pub proof fn law_stop_all_keeps_order(
    ledger: Ledger,
    store: Store,
    apps: Seq<AppId>,
    timestamp: u64,
)
    requires
        ledger.wf(),
        fits(ledger.stop_all(apps, timestamp).ledger),
        ordered(ledger, store.events),
    ensures
        ordered(
            ledger.stop_all(apps, timestamp).ledger,
            store.apply_all(ledger.stop_all(apps, timestamp).ops).events,
        ),
    decreases apps.len(),
{
    if apps.len() == 0 {
        assert(ledger.stop_all(apps, timestamp).ops =~= Seq::<StoreOp>::empty());
    } else {
        let before = ledger.stop_all(apps.drop_last(), timestamp);
        let last = before.ledger.event(timestamp, Some(apps.last()), EventType::Stopped);
        lemma_stop_all(ledger, apps.drop_last(), timestamp);
        lemma_event_objects(before.ledger, timestamp, Some(apps.last()), EventType::Stopped);
        law_stop_all_keeps_order(ledger, store, apps.drop_last(), timestamp);
        lemma_apply_all_concat(store, before.ops, last.ops);
        law_event_keeps_order(
            before.ledger,
            store.apply_all(before.ops),
            timestamp,
            Some(apps.last()),
            EventType::Stopped,
        );
    }
}

/// The journal stays in order across a flush.
pub proof fn law_flush_keeps_order(ledger: Ledger, store: Store, timestamp: u64)
    requires
        ledger.wf(),
        fits(ledger.flush(timestamp).ledger),
        ordered(ledger, store.events),
    ensures
        ordered(
            ledger.flush(timestamp).ledger,
            store.apply_all(ledger.flush(timestamp).ops).events,
        ),
{
    let dumped = ledger.dump_cache();
    let n = ledger.cache.len() as int;
    let stopped = dumped.ledger.stop_all(ledger.running, timestamp);
    lemma_dump(ledger, n);
    lemma_stop_all_grows(dumped.ledger, ledger.running, timestamp);
    lemma_dump_store(ledger, store, n);
    law_stop_all_keeps_order(dumped.ledger, store.apply_all(dumped.ops), ledger.running, timestamp);
    lemma_apply_all_concat(store, dumped.ops, stopped.ops);
}

/// The journal is in order from the start: an open over a journal that is in
/// the order of its timestamps and ends no later than `last_timestamp`
/// leaves it so.
pub proof fn law_open_keeps_order(
    store: Store,
    last_timestamp: u64,
    rows: Seq<(AppId, u64)>,
    timestamp: u64,
)
    requires
        store.objects.no_duplicates(),
        store.objects.len() < u64::MAX,
        forall|i: int, j: int|
            0 <= i < j < store.events.len() ==> (#[trigger] store.events[i]).timestamp <= (
            #[trigger] store.events[j]).timestamp,
        forall|i: int|
            0 <= i < store.events.len() ==> (#[trigger] store.events[i]).timestamp <= last_timestamp,
    ensures
        ({
            let step = Ledger::open(store.objects, last_timestamp, rows, timestamp);
            ordered(step.ledger, store.apply_all(step.ops).events)
        }),
{
    let step = Ledger::open(store.objects, last_timestamp, rows, timestamp);
    let closed = store.apply(StoreOp::CloseDangling);
    let fresh = Ledger {
        objects: store.objects,
        last_timestamp,
        bucket: 0,
        cache: Seq::empty(),
        running: Seq::empty(),
    };
    let loaded = fresh.load_cache(hour_of(timestamp), rows);
    let started = loaded.event(timestamp, None, EventType::Started);
    lemma_filled(rows);
    lemma_event_objects(loaded, timestamp, None, EventType::Started);
    lemma_resolve(loaded.validate_timestamp(timestamp).ledger, THIS_APP_ID);
    lemma_apply_all_concat(store, seq![StoreOp::CloseDangling], started.ops);
    lemma_apply_all_one(store, StoreOp::CloseDangling);
    assert forall|i: int| 0 <= i < closed.events.len() implies (#[trigger] closed.events[i]).timestamp
        == store.events[i].timestamp by {}
    law_event_keeps_order(loaded, closed, timestamp, None, EventType::Started);
}

/// Stored rows that were read back fill the cache as they are, given that
/// no application has two of them.
pub proof fn lemma_filled_distinct(rows: Seq<(AppId, u64)>)
    requires
        keys(rows).no_duplicates(),
    ensures
        filled(rows) == rows,
    decreases rows.len(),
{
    if rows.len() > 0 {
        let front = rows.drop_last();
        assert forall|i: int, j: int|
            0 <= i < front.len() && 0 <= j < front.len() && i != j implies keys(front)[i] != keys(
            front,
        )[j] by {
            assert(keys(rows)[i] == keys(front)[i]);
            assert(keys(rows)[j] == keys(front)[j]);
        }
        lemma_filled_distinct(front);
        if keys(front).contains(rows.last().0) {
            let k = keys(front).index_of(rows.last().0);
            assert(keys(rows)[k] == keys(rows)[rows.len() - 1]);
        }
        assert(front.push(rows.last()) =~= rows);
    }
}

/// A stored row is what the store holds for its bucket and object.
pub proof fn lemma_stored_once(store: Store, at: int)
    requires
        store.wf(),
        0 <= at < store.timeline.len(),
    ensures
        store.value_at(store.timeline[at].bucket, store.timeline[at].object_id) == Some(
            store.timeline[at].value,
        ),
{
    let row = store.timeline[at];
    assert forall|i: int| 0 <= i < at implies !((#[trigger] store.timeline[i]).bucket == row.bucket
        && store.timeline[i].object_id == row.object_id) by {}
    lemma_bucket_index_unique(store.timeline, row.bucket, row.object_id, at);
}

/// No row of the time series occurs twice.
pub proof fn lemma_rows_distinct(store: Store)
    requires
        store.wf(),
    ensures
        store.timeline.no_duplicates(),
{
    assert forall|i: int, j: int|
        0 <= i < store.timeline.len() && 0 <= j < store.timeline.len() && i != j implies store.timeline[i]
        != store.timeline[j] by {
        if i < j {
            assert(!(store.timeline[i].bucket == store.timeline[j].bucket
                && store.timeline[i].object_id == store.timeline[j].object_id));
        } else {
            assert(!(store.timeline[j].bucket == store.timeline[i].bucket
                && store.timeline[j].object_id == store.timeline[i].object_id));
        }
    }
}

/// Selecting from a sequence without duplicates gives one without.
pub proof fn lemma_filter_distinct<A>(s: Seq<A>, keep: spec_fn(A) -> bool)
    requires
        s.no_duplicates(),
    ensures
        s.filter(keep).no_duplicates(),
    decreases s.len(),
{
    reveal(Seq::filter);
    if s.len() > 0 {
        let front = s.drop_last();
        assert forall|i: int, j: int|
            0 <= i < front.len() && 0 <= j < front.len() && i != j implies front[i] != front[j] by {
            assert(front[i] == s[i]);
            assert(front[j] == s[j]);
        }
        lemma_filter_distinct(front, keep);
        lemma_filter_members(front, keep);
        if keep(s.last()) {
            let kept = front.filter(keep);
            assert forall|i: int| 0 <= i < kept.len() implies #[trigger] kept[i] != s.last() by {
                assert(kept.contains(kept[i]));
                assert(front.contains(kept[i]));
                let k = choose|k: int| 0 <= k < front.len() && front[k] == kept[i];
                assert(s[k] == kept[i]);
                assert(s[s.len() - 1] == s.last());
            }
        }
    }
}

/// A commit resumes where the store stands. The cache that is loaded from
/// the stored rows of a bucket holds, for each registered application, what
/// the store holds for its object in that bucket, and nothing for any other
/// application.
pub proof fn law_reload_resumes(ledger: Ledger, store: Store, bucket: u64)
    requires
        ledger.wf(),
        fits(ledger),
        store.wf(),
        mirrored(ledger, store),
    ensures
        ({
            let loaded = ledger.load_cache(bucket, store.bucket_rows(bucket));
            &&& loaded.wf()
            &&& loaded.cache == store.bucket_rows(bucket)
            &&& forall|app_id: AppId| #[trigger]
                ledger.objects.contains(app_id) ==> loaded.cached(app_id) == match store.value_at(
                    bucket,
                    ledger.object_id(app_id),
                ) {
                    Some(value) => value,
                    None => 0,
                }
            &&& forall|i: int|
                0 <= i < loaded.cache.len() ==> {
                    &&& ledger.objects.contains((#[trigger] loaded.cache[i]).0)
                    &&& store.value_at(bucket, ledger.object_id(loaded.cache[i].0)) == Some(
                        loaded.cache[i].1,
                    )
                }
        }),
{
    let keep = in_bucket(bucket, store.objects.len());
    let kept = store.timeline.filter(keep);
    let rows = store.bucket_rows(bucket);
    let loaded = ledger.load_cache(bucket, rows);
    lemma_filter_members(store.timeline, keep);
    lemma_filter_holds(store.timeline, keep);
    // every row read back stands for one stored row of the bucket
    assert forall|i: int| 0 <= i < rows.len() implies {
        &&& ledger.objects.contains((#[trigger] rows[i]).0)
        &&& ledger.object_id(rows[i].0) == kept[i].object_id
        &&& rows[i].1 == kept[i].value
        &&& kept[i].bucket == bucket
        &&& store.value_at(bucket, ledger.object_id(rows[i].0)) == Some(rows[i].1)
    } by {
        let row = kept[i];
        assert(keep(row));
        assert(ledger.objects[row.object_id - 1] == rows[i].0);
        lemma_index_of(ledger.objects, rows[i].0, row.object_id - 1);
        assert(kept.contains(row));
        assert(store.timeline.contains(row));
        let at = choose|at: int| 0 <= at < store.timeline.len() && store.timeline[at] == row;
        lemma_stored_once(store, at);
    }
    lemma_rows_distinct(store);
    lemma_filter_distinct(store.timeline, keep);
    assert forall|i: int, j: int|
        0 <= i < rows.len() && 0 <= j < rows.len() && i != j implies keys(rows)[i] != keys(
        rows,
    )[j] by {
        if rows[i].0 == rows[j].0 {
            assert(kept[i].object_id == kept[j].object_id);
            assert(rows[i].1 == rows[j].1);
            assert(kept[i] == kept[j]);
        }
    }
    lemma_filled_distinct(rows);
    assert forall|app_id: AppId| #[trigger] ledger.objects.contains(app_id) implies loaded.cached(
        app_id,
    ) == match store.value_at(bucket, ledger.object_id(app_id)) {
        Some(value) => value,
        None => 0,
    } by {
        let id = ledger.object_id(app_id);
        if keys(rows).contains(app_id) {
            let k = keys(rows).index_of(app_id);
            assert(rows[k].0 == app_id);
        } else {
            let at = bucket_index(store.timeline, bucket, id);
            lemma_bucket_index(store.timeline, bucket, id);
            if at < store.timeline.len() {
                let row = store.timeline[at];
                assert(ledger.objects[ledger.objects.index_of(app_id)] == app_id);
                assert(1 <= id <= ledger.objects.len());
                assert(keep(row));
                assert(store.timeline.contains(row));
                assert(kept.contains(row));
                let k = choose|k: int| 0 <= k < kept.len() && kept[k] == row;
                assert(rows[k].0 == ledger.objects[row.object_id - 1]);
                assert(keys(rows)[k] == app_id);
            }
        }
    }
}


/// Whatever is written, no application is registered twice and no bucket is
/// stored twice.
pub proof fn law_store_stays_wf(store: Store, ops: Seq<StoreOp>)
    requires
        store.wf(),
    ensures
        store.apply_all(ops).wf(),
    decreases ops.len(),
{
    if ops.len() > 0 {
        law_store_stays_wf(store, ops.drop_last());
        let before = store.apply_all(ops.drop_last());
        match ops.last() {
            StoreOp::PutBucket { bucket, object_id, value } => {
                lemma_put_bucket(before, bucket, object_id, value);
            },
            StoreOp::CreateObject { object_id, app_id } => {
                let after = before.apply(ops.last());
                assert forall|i: int, j: int|
                    0 <= i < after.objects.len() && 0 <= j < after.objects.len() && i
                        != j implies after.objects[i] != after.objects[j] by {
                    if i < before.objects.len() {
                        assert(after.objects[i] == before.objects[i]);
                    }
                    if j < before.objects.len() {
                        assert(after.objects[j] == before.objects[j]);
                    }
                }
            },
            _ => {},
        }
    }
}

/// Commit is idempotent across the reload. A commit, the reload that it may
/// ask for, and a second commit in the same bucket, with no update in
/// between, leave every stored bucket value as the first commit left it.
pub proof fn law_commit_idempotent_reloaded(
    ledger: Ledger,
    store: Store,
    first_ts: u64,
    second_ts: u64,
)
    requires
        ledger.wf(),
        store.wf(),
        mirrored(ledger, store),
        hour_of(first_ts) == hour_of(second_ts),
        fits(
            ledger.commit(first_ts).ledger.load_cache(
                hour_of(first_ts),
                store.apply_all(ledger.commit(first_ts).ops).bucket_rows(hour_of(first_ts)),
            ).commit(second_ts).ledger,
        ),
    ensures
        ({
            let first = ledger.commit(first_ts);
            let once = store.apply_all(first.ops);
            let reloaded = first.ledger.load_cache(
                hour_of(first_ts),
                once.bucket_rows(hour_of(first_ts)),
            );
            let twice = once.apply_all(reloaded.commit(second_ts).ops);
            forall|bucket: u64, object_id: u64| #[trigger]
                twice.value_at(bucket, object_id) == once.value_at(bucket, object_id)
        }),
{
    let bucket = hour_of(first_ts);
    let first = ledger.commit(first_ts);
    let once = store.apply_all(first.ops);
    let reloaded = first.ledger.load_cache(bucket, once.bucket_rows(bucket));
    let second = reloaded.commit(second_ts);
    let twice = once.apply_all(second.ops);
    lemma_commit_objects(ledger, first_ts);
    lemma_filled(once.bucket_rows(bucket));
    lemma_commit_objects(reloaded, second_ts);
    law_commit_persists_cache(ledger, store, first_ts);
    law_store_stays_wf(store, first.ops);
    law_reload_resumes(first.ledger, once, bucket);
    law_commit_persists_cache(reloaded, once, second_ts);
    assert forall|b: u64, object_id: u64| #[trigger]
        twice.value_at(b, object_id) == once.value_at(b, object_id) by {
        if b == reloaded.bucket && written(
            reloaded,
            second.ledger,
            reloaded.cache.len() as int,
            object_id,
        ) {
            let i = choose|i: int|
                0 <= i < reloaded.cache.len() && second.ledger.object_id(
                    (#[trigger] reloaded.cache[i]).0,
                ) == object_id;
            assert(first.ledger.objects.contains(reloaded.cache[i].0));
            assert(once.value_at(bucket, first.ledger.object_id(reloaded.cache[i].0)) == Some(
                reloaded.cache[i].1,
            ));
        }
    }
}

} // verus!
