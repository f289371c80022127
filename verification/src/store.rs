//! The durable store as the ledger sees it: four tables and the handful of
//! writes that the ledger ever asks for.
//!
//! [`Store`] is the mathematical store and [`Store::apply`] the meaning of
//! each [`StoreOp`]. Whoever keeps the real store runs the operations that a
//! ledger call returns, in order and as one transaction.

use crate::db::{AppId, EventType};
use vstd::prelude::*;

verus! {

/// One row of the event journal. Rows are kept in the order of insertion.
#[derive(Clone, Copy, Debug, PartialEq, Eq, Structural)]
pub struct EventRow {
    pub timestamp: u64,
    pub object_id: u64,
    pub kind: EventType,
}

/// Accumulated active time of one object within one hour bucket.
#[derive(Clone, Copy, Debug, PartialEq, Eq, Structural)]
pub struct BucketRow {
    pub bucket: u64,
    pub object_id: u64,
    pub value: u64,
}

/// One write to the durable store.
#[derive(Clone, Copy, Debug, PartialEq, Eq, Structural)]
pub enum StoreOp {
    /// Registers `app_id` under the next free object id, which is `object_id`.
    CreateObject { object_id: u64, app_id: AppId },
    /// Rewrites every heartbeat row as a `Stopped` row, in place.
    CloseDangling,
    /// Opens a backup group spanning `start_ts ..= end_ts` and moves every
    /// journal row later than `start_ts` into it, in journal order.
    Quarantine { start_ts: u64, end_ts: u64 },
    /// Deletes the heartbeat rows of one object.
    DeleteRunning { object_id: u64 },
    /// Deletes every heartbeat row.
    DeleteAllRunning,
    /// Appends one row to the journal.
    InsertEvent { timestamp: u64, object_id: u64, kind: EventType },
    /// Sets the value of a bucket, replacing what was stored for it.
    PutBucket { bucket: u64, object_id: u64, value: u64 },
}

/// A slice of journal history displaced by a backward jump of the clock.
#[verifier::ext_equal]
pub struct Backup {
    pub start_ts: u64,
    pub end_ts: u64,
    pub events: Seq<EventRow>,
}

/// The contents of the durable store.
///
/// The object with id `i + 1` is `objects[i]`; the backup group with id
/// `i + 1` is `backups[i]`.
#[verifier::ext_equal]
pub struct Store {
    pub objects: Seq<AppId>,
    pub timeline: Seq<BucketRow>,
    pub events: Seq<EventRow>,
    pub backups: Seq<Backup>,
}

pub open spec fn is_heartbeat(row: EventRow) -> bool {
    row.kind == EventType::Running
}

/// The rows with a timestamp of at most `timestamp`.
pub open spec fn not_after(timestamp: u64) -> spec_fn(EventRow) -> bool {
    |row: EventRow| row.timestamp <= timestamp
}

/// The rows with a timestamp later than `timestamp`.
pub open spec fn after(timestamp: u64) -> spec_fn(EventRow) -> bool {
    |row: EventRow| row.timestamp > timestamp
}

/// Every row but the heartbeat rows of `object_id`.
pub open spec fn not_heartbeat_of(object_id: u64) -> spec_fn(EventRow) -> bool {
    |row: EventRow| !(is_heartbeat(row) && row.object_id == object_id)
}

/// Every row but the heartbeat rows.
pub open spec fn not_heartbeat() -> spec_fn(EventRow) -> bool {
    |row: EventRow| !is_heartbeat(row)
}

/// The heartbeat rows.
pub open spec fn heartbeat() -> spec_fn(EventRow) -> bool {
    |row: EventRow| is_heartbeat(row)
}

/// The heartbeat rows of `object_id`.
pub open spec fn heartbeat_of(object_id: u64) -> spec_fn(EventRow) -> bool {
    |row: EventRow| is_heartbeat(row) && row.object_id == object_id
}

/// The rows of `bucket` whose object is one of the first `objects` ones.
pub open spec fn in_bucket(bucket: u64, objects: nat) -> spec_fn(BucketRow) -> bool {
    |row: BucketRow| row.bucket == bucket && 1 <= row.object_id <= objects
}

/// A heartbeat row reads as `Stopped`; any other row is kept as it is.
pub open spec fn closed_row(row: EventRow) -> EventRow {
    if is_heartbeat(row) {
        EventRow { kind: EventType::Stopped, ..row }
    } else {
        row
    }
}

/// The position of the row of `(bucket, object_id)` in `rows`, or the length
/// of `rows` where there is none.
pub open spec fn bucket_index(rows: Seq<BucketRow>, bucket: u64, object_id: u64) -> int
    decreases rows.len(),
{
    if rows.len() == 0 {
        0
    } else {
        let at = bucket_index(rows.drop_last(), bucket, object_id);
        if at < rows.len() - 1 {
            at
        } else if rows.last().bucket == bucket && rows.last().object_id == object_id {
            rows.len() - 1
        } else {
            rows.len() as int
        }
    }
}

/// `bucket_index` is the first position that holds the key.
pub proof fn lemma_bucket_index(rows: Seq<BucketRow>, bucket: u64, object_id: u64)
    ensures
        0 <= bucket_index(rows, bucket, object_id) <= rows.len(),
        bucket_index(rows, bucket, object_id) < rows.len() ==> {
            &&& rows[bucket_index(rows, bucket, object_id)].bucket == bucket
            &&& rows[bucket_index(rows, bucket, object_id)].object_id == object_id
        },
        forall|i: int|
            0 <= i < bucket_index(rows, bucket, object_id) ==> !((#[trigger] rows[i]).bucket == bucket
                && rows[i].object_id == object_id),
    decreases rows.len(),
{
    if rows.len() > 0 {
        lemma_bucket_index(rows.drop_last(), bucket, object_id);
        let at = bucket_index(rows.drop_last(), bucket, object_id);
        assert forall|i: int| 0 <= i < bucket_index(rows, bucket, object_id) implies !((
        #[trigger] rows[i]).bucket == bucket && rows[i].object_id == object_id) by {
            if i < rows.len() - 1 {
                assert(rows.drop_last()[i] == rows[i]);
            }
        }
        if at < rows.len() - 1 {
            assert(rows.drop_last()[at] == rows[at]);
        }
    }
}

/// The latest timestamp among `events`, 0 where there is none.
pub open spec fn latest(events: Seq<EventRow>) -> u64
    decreases events.len(),
{
    if events.len() == 0 {
        0
    } else {
        let before = latest(events.drop_last());
        if before >= events.last().timestamp {
            before
        } else {
            events.last().timestamp
        }
    }
}

impl Store {
    pub open spec fn empty() -> Store {
        Store {
            objects: Seq::empty(),
            timeline: Seq::empty(),
            events: Seq::empty(),
            backups: Seq::empty(),
        }
    }

    /// No application is registered twice and no bucket is stored twice.
    pub open spec fn wf(self) -> bool {
        &&& self.objects.no_duplicates()
        &&& forall|i: int, j: int|
            0 <= i < j < self.timeline.len() ==> !((#[trigger] self.timeline[i]).bucket == (
            #[trigger] self.timeline[j]).bucket && self.timeline[i].object_id
                == self.timeline[j].object_id)
    }

    /// The stored value of a bucket, `None` where nothing was stored for it.
    pub open spec fn value_at(self, bucket: u64, object_id: u64) -> Option<u64> {
        let at = bucket_index(self.timeline, bucket, object_id);
        if at < self.timeline.len() {
            Some(self.timeline[at].value)
        } else {
            None
        }
    }

    /// The latest timestamp of the journal, 0 while it is empty.
    pub open spec fn last_timestamp(self) -> u64 {
        latest(self.events)
    }

    /// The rows of `bucket` that belong to a registered object, each as the
    /// application and its value, in the order of the table.
    pub open spec fn bucket_rows(self, bucket: u64) -> Seq<(AppId, u64)> {
        self.timeline.filter(in_bucket(bucket, self.objects.len())).map_values(
            |row: BucketRow| (self.objects[row.object_id - 1], row.value),
        )
    }

    /// The store after one write. A `CreateObject` that does not name the
    /// next free id, or names an application that is registered already,
    /// changes nothing.
    pub open spec fn apply(self, op: StoreOp) -> Store {
        match op {
            StoreOp::CreateObject { object_id, app_id } => {
                if object_id == self.objects.len() + 1 && !self.objects.contains(app_id) {
                    Store { objects: self.objects.push(app_id), ..self }
                } else {
                    self
                }
            },
            StoreOp::CloseDangling => Store {
                events: self.events.map_values(|row: EventRow| closed_row(row)),
                ..self
            },
            StoreOp::Quarantine { start_ts, end_ts } => Store {
                events: self.events.filter(not_after(start_ts)),
                backups: self.backups.push(
                    Backup { start_ts, end_ts, events: self.events.filter(after(start_ts)) },
                ),
                ..self
            },
            StoreOp::DeleteRunning { object_id } => Store {
                events: self.events.filter(not_heartbeat_of(object_id)),
                ..self
            },
            StoreOp::DeleteAllRunning => Store {
                events: self.events.filter(not_heartbeat()),
                ..self
            },
            StoreOp::InsertEvent { timestamp, object_id, kind } => Store {
                events: self.events.push(EventRow { timestamp, object_id, kind }),
                ..self
            },
            StoreOp::PutBucket { bucket, object_id, value } => {
                let at = bucket_index(self.timeline, bucket, object_id);
                let row = BucketRow { bucket, object_id, value };
                if at < self.timeline.len() {
                    Store { timeline: self.timeline.update(at, row), ..self }
                } else {
                    Store { timeline: self.timeline.push(row), ..self }
                }
            },
        }
    }

    /// The store after the writes `ops`, run in order.
    pub open spec fn apply_all(self, ops: Seq<StoreOp>) -> Store
        decreases ops.len(),
    {
        if ops.len() == 0 {
            self
        } else {
            self.apply_all(ops.drop_last()).apply(ops.last())
        }
    }
}


/// Two predicates that agree on every element of a sequence select the same
/// elements of it.
pub proof fn lemma_filter_same<A>(s: Seq<A>, p: spec_fn(A) -> bool, q: spec_fn(A) -> bool)
    requires
        forall|i: int| 0 <= i < s.len() ==> p(#[trigger] s[i]) == q(s[i]),
    ensures
        s.filter(p) == s.filter(q),
    decreases s.len(),
{
    reveal(Seq::filter);
    if s.len() > 0 {
        assert forall|i: int| 0 <= i < s.drop_last().len() implies p(#[trigger] s.drop_last()[i])
            == q(s.drop_last()[i]) by {
            assert(s.drop_last()[i] == s[i]);
        }
        lemma_filter_same(s.drop_last(), p, q);
        assert(p(s[s.len() - 1]) == q(s[s.len() - 1]));
    }
}

/// A predicate that holds of every element selects the whole sequence.
pub proof fn lemma_filter_all<A>(s: Seq<A>, p: spec_fn(A) -> bool)
    requires
        forall|i: int| 0 <= i < s.len() ==> p(#[trigger] s[i]),
    ensures
        s.filter(p) == s,
    decreases s.len(),
{
    reveal(Seq::filter);
    if s.len() > 0 {
        assert forall|i: int| 0 <= i < s.drop_last().len() implies p(#[trigger] s.drop_last()[i]) by {
            assert(s.drop_last()[i] == s[i]);
        }
        lemma_filter_all(s.drop_last(), p);
        assert(p(s[s.len() - 1]));
        assert(s.drop_last().push(s.last()) =~= s);
    }
}

/// A predicate that holds of no element selects nothing.
pub proof fn lemma_filter_none<A>(s: Seq<A>, p: spec_fn(A) -> bool)
    requires
        forall|i: int| 0 <= i < s.len() ==> !p(#[trigger] s[i]),
    ensures
        s.filter(p) == Seq::<A>::empty(),
    decreases s.len(),
{
    reveal(Seq::filter);
    if s.len() > 0 {
        assert forall|i: int| 0 <= i < s.drop_last().len() implies !p(#[trigger] s.drop_last()[i]) by {
            assert(s.drop_last()[i] == s[i]);
        }
        lemma_filter_none(s.drop_last(), p);
        assert(!p(s[s.len() - 1]));
    }
}

/// Selecting by `p` and then by `q` selects by both at once.
pub proof fn lemma_filter_twice<A>(
    s: Seq<A>,
    p: spec_fn(A) -> bool,
    q: spec_fn(A) -> bool,
    both: spec_fn(A) -> bool,
)
    requires
        forall|i: int| 0 <= i < s.len() ==> both(#[trigger] s[i]) == (p(s[i]) && q(s[i])),
    ensures
        s.filter(p).filter(q) == s.filter(both),
    decreases s.len(),
{
    reveal(Seq::filter);
    if s.len() > 0 {
        let front = s.drop_last();
        assert forall|i: int| 0 <= i < front.len() implies both(#[trigger] front[i]) == (p(
            front[i],
        ) && q(front[i])) by {
            assert(front[i] == s[i]);
        }
        lemma_filter_twice(front, p, q, both);
        assert(both(s[s.len() - 1]) == (p(s[s.len() - 1]) && q(s[s.len() - 1])));
        if p(s.last()) {
            front.filter(p).lemma_filter_push(s.last(), q);
        }
    }
}

/// Every selected element is an element of the sequence that the predicate
/// holds of, and every such element is selected.
pub proof fn lemma_filter_members<A>(s: Seq<A>, p: spec_fn(A) -> bool)
    ensures
        forall|x: A| #[trigger] s.filter(p).contains(x) <==> s.contains(x) && p(x),
    decreases s.len(),
{
    reveal(Seq::filter);
    if s.len() > 0 {
        let front = s.drop_last();
        lemma_filter_members(front, p);
        assert forall|x: A| #[trigger] s.filter(p).contains(x) <==> s.contains(x) && p(x) by {
            if s.filter(p).contains(x) {
                let k = choose|k: int| 0 <= k < s.filter(p).len() && s.filter(p)[k] == x;
                if k < front.filter(p).len() {
                    assert(front.filter(p)[k] == x);
                    assert(front.filter(p).contains(x));
                    let j = choose|j: int| 0 <= j < front.len() && front[j] == x;
                    assert(s[j] == x);
                } else {
                    assert(s[s.len() - 1] == x);
                }
            }
            if s.contains(x) && p(x) {
                let j = choose|j: int| 0 <= j < s.len() && s[j] == x;
                if j < front.len() {
                    assert(front[j] == x);
                    assert(front.contains(x));
                    assert(front.filter(p).contains(x));
                    let k = choose|k: int| 0 <= k < front.filter(p).len() && front.filter(p)[k] == x;
                    assert(s.filter(p)[k] == x);
                } else {
                    assert(s.filter(p)[s.filter(p).len() - 1] == x);
                }
            }
        }
    } else {
        assert forall|x: A| #[trigger] s.filter(p).contains(x) <==> s.contains(x) && p(x) by {}
    }
}

/// The predicate holds of every selected element.
pub proof fn lemma_filter_holds<A>(s: Seq<A>, p: spec_fn(A) -> bool)
    ensures
        forall|i: int| 0 <= i < s.filter(p).len() ==> p(#[trigger] s.filter(p)[i]),
{
    lemma_filter_members(s, p);
    assert forall|i: int| 0 <= i < s.filter(p).len() implies p(#[trigger] s.filter(p)[i]) by {
        assert(s.filter(p).contains(s.filter(p)[i]));
    }
}

/// Running two lists of writes one after the other is running their
/// concatenation.
pub proof fn lemma_apply_all_concat(store: Store, first: Seq<StoreOp>, second: Seq<StoreOp>)
    ensures
        store.apply_all(first + second) == store.apply_all(first).apply_all(second),
    decreases second.len(),
{
    if second.len() == 0 {
        assert(first + second =~= first);
    } else {
        lemma_apply_all_concat(store, first, second.drop_last());
        assert((first + second).drop_last() =~= first + second.drop_last());
        assert((first + second).last() == second.last());
    }
}

/// Running a list of one write is running the write.
pub proof fn lemma_apply_all_one(store: Store, op: StoreOp)
    ensures
        store.apply_all(seq![op]) == store.apply(op),
{
    assert(seq![op].drop_last() =~= Seq::<StoreOp>::empty());
    assert(store.apply_all(Seq::<StoreOp>::empty()) == store);
}

/// The first position that holds a key is its `bucket_index`.
pub proof fn lemma_bucket_index_unique(rows: Seq<BucketRow>, bucket: u64, object_id: u64, at: int)
    requires
        0 <= at <= rows.len(),
        at < rows.len() ==> rows[at].bucket == bucket && rows[at].object_id == object_id,
        forall|i: int|
            0 <= i < at ==> !((#[trigger] rows[i]).bucket == bucket && rows[i].object_id
                == object_id),
    ensures
        bucket_index(rows, bucket, object_id) == at,
{
    lemma_bucket_index(rows, bucket, object_id);
    let found = bucket_index(rows, bucket, object_id);
    if found < at {
        assert(!(rows[found].bucket == bucket && rows[found].object_id == object_id));
    }
    if at < found {
        assert(!(rows[at].bucket == bucket && rows[at].object_id == object_id));
    }
}

/// Setting a bucket gives it the value and leaves every other bucket alone.
pub proof fn lemma_put_bucket(store: Store, bucket: u64, object_id: u64, value: u64)
    ensures
        store.apply(StoreOp::PutBucket { bucket, object_id, value }).value_at(bucket, object_id)
            == Some(value),
        forall|other_bucket: u64, other_object: u64|
            !(other_bucket == bucket && other_object == object_id) ==> #[trigger] store.apply(
                StoreOp::PutBucket { bucket, object_id, value },
            ).value_at(other_bucket, other_object) == store.value_at(other_bucket, other_object),
        store.wf() ==> store.apply(StoreOp::PutBucket { bucket, object_id, value }).wf(),
{
    let after = store.apply(StoreOp::PutBucket { bucket, object_id, value });
    let at = bucket_index(store.timeline, bucket, object_id);
    lemma_bucket_index(store.timeline, bucket, object_id);
    assert(after.timeline.len() > at);
    assert forall|i: int| 0 <= i < at implies !((#[trigger] after.timeline[i]).bucket == bucket
        && after.timeline[i].object_id == object_id) by {
        assert(after.timeline[i] == store.timeline[i]);
    }
    lemma_bucket_index_unique(after.timeline, bucket, object_id, at);
    assert forall|other_bucket: u64, other_object: u64|
        !(other_bucket == bucket && other_object == object_id) implies #[trigger] after.value_at(
        other_bucket,
        other_object,
    ) == store.value_at(other_bucket, other_object) by {
        let found = bucket_index(store.timeline, other_bucket, other_object);
        lemma_bucket_index(store.timeline, other_bucket, other_object);
        if found < store.timeline.len() {
            assert(found != at);
            assert(after.timeline[found] == store.timeline[found]);
            assert forall|i: int| 0 <= i < found implies !((#[trigger] after.timeline[i]).bucket
                == other_bucket && after.timeline[i].object_id == other_object) by {
                if i != at {
                    assert(after.timeline[i] == store.timeline[i]);
                }
            }
            lemma_bucket_index_unique(after.timeline, other_bucket, other_object, found);
        } else {
            assert forall|i: int| 0 <= i < after.timeline.len() implies !((
            #[trigger] after.timeline[i]).bucket == other_bucket && after.timeline[i].object_id
                == other_object) by {
                if i != at {
                    assert(after.timeline[i] == store.timeline[i]);
                }
            }
            lemma_bucket_index_unique(
                after.timeline,
                other_bucket,
                other_object,
                after.timeline.len() as int,
            );
        }
    }
    if store.wf() {
        assert forall|i: int, j: int| 0 <= i < j < after.timeline.len() implies !((
        #[trigger] after.timeline[i]).bucket == (#[trigger] after.timeline[j]).bucket
            && after.timeline[i].object_id == after.timeline[j].object_id) by {
            if i != at && j != at {
                assert(after.timeline[i] == store.timeline[i]);
                assert(after.timeline[j] == store.timeline[j]);
            } else if i == at {
                if at < store.timeline.len() {
                    assert(after.timeline[j] == store.timeline[j]);
                    assert(!(store.timeline[at].bucket == store.timeline[j].bucket
                        && store.timeline[at].object_id == store.timeline[j].object_id));
                }
            } else {
                assert(after.timeline[i] == store.timeline[i]);
            }
        }
    }
}

} // verus!
