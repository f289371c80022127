//! A store that lives in memory and does to its rows exactly what
//! [`Store::apply`] says. It serves as the store of a session that keeps
//! nothing, and as the yardstick for any other store.

use crate::db::{AppId, EventType};
use crate::store::{
    after, bucket_index, closed_row, in_bucket, is_heartbeat, latest, lemma_bucket_index_unique,
    not_after, not_heartbeat, not_heartbeat_of, Backup, BucketRow, EventRow,
    Store, StoreOp,
};
use vstd::prelude::*;

verus! {

/// A backup group with the rows that were moved into it.
pub struct BackupGroup {
    pub start_ts: u64,
    pub end_ts: u64,
    pub events: Vec<EventRow>,
}

impl View for BackupGroup {
    type V = Backup;

    open spec fn view(&self) -> Backup {
        Backup { start_ts: self.start_ts, end_ts: self.end_ts, events: self.events@ }
    }
}

/// The four tables, each as the list of its rows.
pub struct MemStore {
    objects: Vec<AppId>,
    timeline: Vec<BucketRow>,
    events: Vec<EventRow>,
    backups: Vec<BackupGroup>,
}

impl View for MemStore {
    type V = Store;

    closed spec fn view(&self) -> Store {
        Store {
            objects: self.objects@,
            timeline: self.timeline@,
            events: self.events@,
            backups: Seq::new(self.backups@.len(), |i: int| self.backups@[i]@),
        }
    }
}

/// Which journal rows a selection keeps.
enum Keep {
    NotAfter(u64),
    After(u64),
    NotHeartbeatOf(u64),
    NotHeartbeat,
}

impl Keep {
    spec fn keeps(self, row: EventRow) -> bool {
        match self {
            Keep::NotAfter(timestamp) => row.timestamp <= timestamp,
            Keep::After(timestamp) => row.timestamp > timestamp,
            Keep::NotHeartbeatOf(object_id) => !(is_heartbeat(row) && row.object_id == object_id),
            Keep::NotHeartbeat => !is_heartbeat(row),
        }
    }

    spec fn pred(self) -> spec_fn(EventRow) -> bool {
        match self {
            Keep::NotAfter(timestamp) => not_after(timestamp),
            Keep::After(timestamp) => after(timestamp),
            Keep::NotHeartbeatOf(object_id) => not_heartbeat_of(object_id),
            Keep::NotHeartbeat => not_heartbeat(),
        }
    }

    fn test(&self, row: &EventRow) -> (kept: bool)
        ensures
            kept == self.keeps(*row),
            kept == (self.pred())(*row),
    {
        let heartbeat = match row.kind {
            EventType::Running => true,
            _ => false,
        };
        match self {
            Keep::NotAfter(timestamp) => row.timestamp <= *timestamp,
            Keep::After(timestamp) => row.timestamp > *timestamp,
            Keep::NotHeartbeatOf(object_id) => !(heartbeat && row.object_id == *object_id),
            Keep::NotHeartbeat => !heartbeat,
        }
    }
}

/// The rows of `events` that `keep` keeps, in order.
fn select(events: &Vec<EventRow>, keep: Keep) -> (kept: Vec<EventRow>)
    ensures
        kept@ == events@.filter(keep.pred()),
{
    let mut kept: Vec<EventRow> = Vec::new();
    let mut i: usize = 0;
    assert(events@.take(0).filter(keep.pred()) =~= Seq::<EventRow>::empty()) by {
        reveal(Seq::filter);
    }
    while i < events.len()
        invariant
            i <= events.len(),
            kept@ == events@.take(i as int).filter(keep.pred()),
        decreases events.len() - i,
    {
        proof {
            assert(events@.take(i + 1) =~= events@.take(i as int).push(events@[i as int]));
            events@.take(i as int).lemma_filter_push(events@[i as int], keep.pred());
        }
        if keep.test(&events[i]) {
            kept.push(events[i]);
        }
        i += 1;
    }
    proof {
        assert(events@.take(i as int) =~= events@);
    }
    kept
}

/// The position of the row of `(bucket, object_id)`, or the number of rows
/// where there is none.
fn find_bucket(rows: &Vec<BucketRow>, bucket: u64, object_id: u64) -> (at: usize)
    ensures
        at == bucket_index(rows@, bucket, object_id),
{
    let mut i: usize = 0;
    while i < rows.len()
        invariant
            i <= rows.len(),
            forall|j: int|
                0 <= j < i ==> !((#[trigger] rows@[j]).bucket == bucket && rows@[j].object_id
                    == object_id),
        decreases rows.len() - i,
    {
        if rows[i].bucket == bucket && rows[i].object_id == object_id {
            proof {
                lemma_bucket_index_unique(rows@, bucket, object_id, i as int);
            }
            return i;
        }
        i += 1;
    }
    proof {
        lemma_bucket_index_unique(rows@, bucket, object_id, i as int);
    }
    i
}

impl MemStore {
    /// A store without rows.
    pub fn new() -> (store: MemStore)
        ensures
            store@ == Store::empty(),
    {
        let store = MemStore {
            objects: Vec::new(),
            timeline: Vec::new(),
            events: Vec::new(),
            backups: Vec::new(),
        };
        assert(store@.backups =~= Seq::<Backup>::empty());
        store
    }

    /// Runs one write.
    pub fn apply(&mut self, op: StoreOp)
        ensures
            final(self)@ == old(self)@.apply(op),
    {
        match op {
            StoreOp::CreateObject { object_id, app_id } => {
                let next: usize = self.objects.len();
                if next as u64 == u64::MAX || object_id != next as u64 + 1 {
                    return ;
                }
                let mut i: usize = 0;
                while i < self.objects.len()
                    invariant
                        i <= self.objects.len(),
                        op == (StoreOp::CreateObject { object_id, app_id }),
                        self.objects@ == old(self).objects@,
                        self.timeline@ == old(self).timeline@,
                        self.events@ == old(self).events@,
                        self.backups@ == old(self).backups@,
                        forall|j: int| 0 <= j < i ==> self.objects@[j] != app_id,
                    decreases self.objects.len() - i,
                {
                    if self.objects[i] == app_id {
                        proof {
                            assert(self.objects@[i as int] == app_id);
                            assert(old(self)@.objects.contains(app_id));
                            assert(self@ =~= old(self)@);
                        }
                        return ;
                    }
                    i += 1;
                }
                self.objects.push(app_id);
            },
            StoreOp::CloseDangling => {
                let mut i: usize = 0;
                while i < self.events.len()
                    invariant
                        i <= self.events.len(),
                        self.events.len() == old(self).events.len(),
                        self.objects == old(self).objects,
                        self.timeline == old(self).timeline,
                        self.backups == old(self).backups,
                        forall|j: int| 0 <= j < i ==> self.events@[j] == closed_row(old(self).events@[j]),
                        forall|j: int|
                            i <= j < self.events.len() ==> self.events@[j] == old(self).events@[j],
                    decreases self.events.len() - i,
                {
                    let row = self.events[i];
                    match row.kind {
                        EventType::Running => {
                            self.events.set(
                                i,
                                EventRow {
                                    timestamp: row.timestamp,
                                    object_id: row.object_id,
                                    kind: EventType::Stopped,
                                },
                            );
                        },
                        _ => {},
                    }
                    i += 1;
                }
                proof {
                    assert(self@.events =~= old(self)@.apply(op).events);
                }
            },
            StoreOp::Quarantine { start_ts, end_ts } => {
                let moved = select(&self.events, Keep::After(start_ts));
                let kept = select(&self.events, Keep::NotAfter(start_ts));
                self.events = kept;
                self.backups.push(BackupGroup { start_ts, end_ts, events: moved });
                proof {
                    assert(self@.backups =~= old(self)@.apply(op).backups);
                }
            },
            StoreOp::DeleteRunning { object_id } => {
                let kept = select(&self.events, Keep::NotHeartbeatOf(object_id));
                self.events = kept;
            },
            StoreOp::DeleteAllRunning => {
                let kept = select(&self.events, Keep::NotHeartbeat);
                self.events = kept;
            },
            StoreOp::InsertEvent { timestamp, object_id, kind } => {
                self.events.push(EventRow { timestamp, object_id, kind });
            },
            StoreOp::PutBucket { bucket, object_id, value } => {
                let at = find_bucket(&self.timeline, bucket, object_id);
                let row = BucketRow { bucket, object_id, value };
                if at < self.timeline.len() {
                    self.timeline.set(at, row);
                } else {
                    self.timeline.push(row);
                }
            },
        }
    }

    /// Runs the writes of one ledger call, in order.
    pub fn apply_all(&mut self, ops: &Vec<StoreOp>)
        ensures
            final(self)@ == old(self)@.apply_all(ops@),
    {
        let mut i: usize = 0;
        while i < ops.len()
            invariant
                i <= ops.len(),
                self@ == old(self)@.apply_all(ops@.take(i as int)),
            decreases ops.len() - i,
        {
            proof {
                assert(ops@.take(i + 1).drop_last() =~= ops@.take(i as int));
            }
            self.apply(ops[i]);
            i += 1;
        }
        proof {
            assert(ops@.take(i as int) =~= ops@);
        }
    }

    /// The object table: each application with its object id, in id order.
    pub fn objects(&self) -> (rows: Vec<(u64, AppId)>)
        ensures
            rows@.len() == self@.objects.len(),
            forall|i: int|
                0 <= i < rows@.len() ==> #[trigger] rows@[i] == ((i + 1) as u64, self@.objects[i]),
    {
        let mut rows: Vec<(u64, AppId)> = Vec::new();
        let mut i: usize = 0;
        while i < self.objects.len()
            invariant
                i <= self.objects.len(),
                rows@.len() == i,
                forall|j: int|
                    0 <= j < i ==> #[trigger] rows@[j] == ((j + 1) as u64, self.objects@[j]),
            decreases self.objects.len() - i,
        {
            rows.push((i as u64 + 1, self.objects[i]));
            i += 1;
        }
        rows
    }

    /// The latest timestamp of the journal, 0 while it is empty.
    pub fn last_timestamp(&self) -> (timestamp: u64)
        ensures
            timestamp == self@.last_timestamp(),
    {
        let mut timestamp: u64 = 0;
        let mut i: usize = 0;
        while i < self.events.len()
            invariant
                i <= self.events.len(),
                timestamp == latest(self.events@.take(i as int)),
            decreases self.events.len() - i,
        {
            proof {
                assert(self.events@.take(i + 1).drop_last() =~= self.events@.take(i as int));
            }
            if self.events[i].timestamp > timestamp {
                timestamp = self.events[i].timestamp;
            }
            i += 1;
        }
        proof {
            assert(self.events@.take(i as int) =~= self.events@);
        }
        timestamp
    }

    /// The stored rows of `bucket`, as [`Store::bucket_rows`] lists them.
    pub fn bucket_rows(&self, bucket: u64) -> (rows: Vec<(AppId, u64)>)
        ensures
            rows@ == self@.bucket_rows(bucket),
    {
        let mut rows: Vec<(AppId, u64)> = Vec::new();
        let ghost keep = in_bucket(bucket, self.objects@.len());
        let ghost read = |row: BucketRow| (self@.objects[row.object_id - 1], row.value);
        let mut i: usize = 0;
        assert(self.timeline@.take(0).filter(keep) =~= Seq::<BucketRow>::empty()) by {
            reveal(Seq::filter);
        }
        while i < self.timeline.len()
            invariant
                i <= self.timeline.len(),
                keep == in_bucket(bucket, self.objects@.len()),
                read == |row: BucketRow| (self@.objects[row.object_id - 1], row.value),
                rows@ =~= self.timeline@.take(i as int).filter(keep).map_values(read),
            decreases self.timeline.len() - i,
        {
            proof {
                assert(self.timeline@.take(i + 1) =~= self.timeline@.take(i as int).push(
                    self.timeline@[i as int],
                ));
                self.timeline@.take(i as int).lemma_filter_push(self.timeline@[i as int], keep);
            }
            let row = self.timeline[i];
            if row.bucket == bucket && 1 <= row.object_id && row.object_id <= self.objects.len() as u64 {
                rows.push((self.objects[(row.object_id - 1) as usize], row.value));
            }
            i += 1;
        }
        proof {
            assert(self.timeline@.take(i as int) =~= self.timeline@);
        }
        rows
    }

    /// The stored value of a bucket.
    pub fn value_at(&self, bucket: u64, object_id: u64) -> (value: Option<u64>)
        ensures
            value == self@.value_at(bucket, object_id),
    {
        let at = find_bucket(&self.timeline, bucket, object_id);
        if at < self.timeline.len() {
            Some(self.timeline[at].value)
        } else {
            None
        }
    }

    /// The journal, in the order of insertion.
    pub fn events(&self) -> (rows: &Vec<EventRow>)
        ensures
            rows@ == self@.events,
    {
        &self.events
    }

    /// The time series, in the order of insertion.
    pub fn timeline(&self) -> (rows: &Vec<BucketRow>)
        ensures
            rows@ == self@.timeline,
    {
        &self.timeline
    }

    /// The backup groups, oldest first.
    pub fn backups(&self) -> (groups: &Vec<BackupGroup>)
        ensures
            groups@.len() == self@.backups.len(),
            forall|i: int| 0 <= i < groups@.len() ==> (#[trigger] groups@[i])@ == self@.backups[i],
    {
        &self.backups
    }
}

} // verus!
