//! The playtime ledger.
//!
//! [`DeckDB`] keeps what has to be at hand between two writes to the durable
//! store: the latest timestamp seen, the accumulated values of the current
//! hour bucket, the set of running applications and the table of registered
//! applications. It never touches the store itself. Each operation returns
//! the writes that bring the store up to date, and [`Ledger`] states, as a
//! function of the state before and the arguments, which writes those are.

use crate::store::StoreOp;
use vstd::prelude::*;

verus! {

/// The identifier under which the launcher knows an application.
pub type AppId = u32;

/// The application that stands for the tracker itself.
pub const THIS_APP_ID: AppId = 0;

/// Seconds per bucket of the time series.
pub const BUCKET_SECONDS: u64 = 3600;

/// The kinds of journal rows.
#[derive(Clone, Copy, Debug, PartialEq, Eq, Structural)]
pub enum EventType {
    /// Heartbeat: the object was running when the journal was last committed.
    Running,
    Started,
    Stopped,
    Suspended,
    Resumed,
}

impl EventType {
    /// The number under which the kind is stored.
    pub open spec fn spec_code(self) -> u32 {
        match self {
            EventType::Running => 0,
            EventType::Started => 1,
            EventType::Stopped => 2,
            EventType::Suspended => 3,
            EventType::Resumed => 4,
        }
    }

    /// The kind stored under `code`, if any.
    pub open spec fn spec_from_code(code: u32) -> Option<EventType> {
        if code == 0 {
            Some(EventType::Running)
        } else if code == 1 {
            Some(EventType::Started)
        } else if code == 2 {
            Some(EventType::Stopped)
        } else if code == 3 {
            Some(EventType::Suspended)
        } else if code == 4 {
            Some(EventType::Resumed)
        } else {
            None
        }
    }

    /// Reading back a stored kind gives that kind, and only the numbers of
    /// the five kinds read as a kind.
    pub proof fn lemma_code_round_trip(self, code: u32)
        ensures
            Self::spec_from_code(self.spec_code()) == Some(self),
            Self::spec_from_code(code) == Some(self) <==> code == self.spec_code(),
    {
    }

    pub fn code(self) -> (code: u32)
        ensures
            code == self.spec_code(),
    {
        match self {
            EventType::Running => 0,
            EventType::Started => 1,
            EventType::Stopped => 2,
            EventType::Suspended => 3,
            EventType::Resumed => 4,
        }
    }

    pub fn from_code(code: u32) -> (kind: Option<EventType>)
        ensures
            kind == Self::spec_from_code(code),
    {
        if code == 0 {
            Some(EventType::Running)
        } else if code == 1 {
            Some(EventType::Started)
        } else if code == 2 {
            Some(EventType::Stopped)
        } else if code == 3 {
            Some(EventType::Suspended)
        } else if code == 4 {
            Some(EventType::Resumed)
        } else {
            None
        }
    }
}

/// The hour bucket that the second `timestamp` falls into.
pub open spec fn hour_of(timestamp: u64) -> u64 {
    timestamp / BUCKET_SECONDS
}

/// Computes [`hour_of`].
pub fn bucket_of(timestamp: u64) -> (bucket: u64)
    ensures
        bucket == hour_of(timestamp),
{
    timestamp / BUCKET_SECONDS
}

/// The applications of cache entries, in order.
pub open spec fn keys(cache: Seq<(AppId, u64)>) -> Seq<AppId> {
    Seq::new(cache.len(), |i: int| cache[i].0)
}

/// `cache` with the value of `app_id` set to `value`: in place where the
/// application has an entry, as a new last entry where it has none.
pub open spec fn put(cache: Seq<(AppId, u64)>, app_id: AppId, value: u64) -> Seq<(AppId, u64)> {
    if keys(cache).contains(app_id) {
        cache.update(keys(cache).index_of(app_id), (app_id, value))
    } else {
        cache.push((app_id, value))
    }
}

/// The cache that holds `rows`, a later row for an application replacing an
/// earlier one.
pub open spec fn filled(rows: Seq<(AppId, u64)>) -> Seq<(AppId, u64)>
    decreases rows.len(),
{
    if rows.len() == 0 {
        Seq::empty()
    } else {
        put(filled(rows.drop_last()), rows.last().0, rows.last().1)
    }
}

/// `list` with `app_id` as a member: unchanged where it is one already.
pub open spec fn with_app(list: Seq<AppId>, app_id: AppId) -> Seq<AppId> {
    if list.contains(app_id) {
        list
    } else {
        list.push(app_id)
    }
}

/// `list` without `app_id`: unchanged where it is no member.
pub open spec fn without_app(list: Seq<AppId>, app_id: AppId) -> Seq<AppId> {
    if list.contains(app_id) {
        list.remove(list.index_of(app_id))
    } else {
        list
    }
}

/// The rows of an object table read as the list of applications, where the
/// ids run `1, 2, 3, ...` without gap and no application occurs twice.
pub open spec fn sequential(rows: Seq<(u64, AppId)>) -> bool {
    &&& forall|i: int| 0 <= i < rows.len() ==> (#[trigger] rows[i]).0 == i + 1
    &&& apps_of(rows).no_duplicates()
}

/// The applications of an object table, in the order of its rows.
pub open spec fn apps_of(rows: Seq<(u64, AppId)>) -> Seq<AppId> {
    Seq::new(rows.len(), |i: int| rows[i].1)
}

/// In a list without duplicates, a member sits at one index only.
pub proof fn lemma_index_of(list: Seq<AppId>, app_id: AppId, at: int)
    requires
        list.no_duplicates(),
        0 <= at < list.len(),
        list[at] == app_id,
    ensures
        list.contains(app_id),
        list.index_of(app_id) == at,
{
}

/// The state of the ledger between two operations.
#[verifier::ext_equal]
pub struct Ledger {
    /// The registered applications; `objects[i]` has object id `i + 1`.
    pub objects: Seq<AppId>,
    /// The latest timestamp that the ledger accepted.
    pub last_timestamp: u64,
    /// The hour bucket that the cache stands for.
    pub bucket: u64,
    /// The accumulated value of each application in that bucket.
    pub cache: Seq<(AppId, u64)>,
    /// The applications that are running, in the order in which they started.
    pub running: Seq<AppId>,
}

/// The outcome of one operation: the state after it and the writes that the
/// durable store is owed, in order.
#[verifier::ext_equal]
pub struct Step {
    pub ledger: Ledger,
    pub ops: Seq<StoreOp>,
}

impl Ledger {
    /// Nothing is registered, cached or running twice, and every running
    /// application is registered.
    pub open spec fn wf(self) -> bool {
        &&& self.objects.no_duplicates()
        &&& self.running.no_duplicates()
        &&& keys(self.cache).no_duplicates()
        &&& forall|i: int|
            0 <= i < self.running.len() ==> self.objects.contains(#[trigger] self.running[i])
    }

    /// The object id of a registered application.
    pub open spec fn object_id(self, app_id: AppId) -> u64 {
        (self.objects.index_of(app_id) + 1) as u64
    }

    /// The accumulated value of `app_id` in the current bucket, 0 where the
    /// cache has no entry for it.
    pub open spec fn cached(self, app_id: AppId) -> u64 {
        if keys(self.cache).contains(app_id) {
            self.cache[keys(self.cache).index_of(app_id)].1
        } else {
            0
        }
    }

    /// Looks the application up and registers it under the next free id
    /// where it is unknown.
    pub open spec fn resolve(self, app_id: AppId) -> Step {
        if self.objects.contains(app_id) {
            Step { ledger: self, ops: Seq::empty() }
        } else {
            Step {
                ledger: Ledger { objects: self.objects.push(app_id), ..self },
                ops: seq![
                    StoreOp::CreateObject {
                        object_id: (self.objects.len() + 1) as u64,
                        app_id,
                    },
                ],
            }
        }
    }

    /// The check for a clock that went backward. A timestamp before the
    /// latest one quarantines the journal rows after it; either way the
    /// timestamp becomes the latest one.
    pub open spec fn validate_timestamp(self, timestamp: u64) -> Step {
        Step {
            ledger: Ledger { last_timestamp: timestamp, ..self },
            ops: if timestamp < self.last_timestamp {
                seq![StoreOp::Quarantine { start_ts: timestamp, end_ts: self.last_timestamp }]
            } else {
                Seq::empty()
            },
        }
    }

    /// One journal row of `kind` for each running application.
    pub open spec fn markers(self, timestamp: u64, kind: EventType) -> Seq<StoreOp> {
        Seq::new(
            self.running.len(),
            |i: int|
                StoreOp::InsertEvent {
                    timestamp,
                    object_id: self.object_id(self.running[i]),
                    kind,
                },
        )
    }

    /// Records one event.
    ///
    /// `Started` and `Stopped` are about one application, the tracker itself
    /// where none is named: its heartbeat rows go, one row of the kind is
    /// written, and it joins or leaves the running set. The other kinds are
    /// about every running application and ignore `app_id`: a heartbeat
    /// replaces all heartbeat rows, `Suspended` and `Resumed` only add rows.
    pub open spec fn event(self, timestamp: u64, app_id: Option<AppId>, kind: EventType) -> Step {
        let checked = self.validate_timestamp(timestamp);
        match kind {
            EventType::Started | EventType::Stopped => {
                let app_id = match app_id {
                    Some(app_id) => app_id,
                    None => THIS_APP_ID,
                };
                let found = checked.ledger.resolve(app_id);
                let object_id = found.ledger.object_id(app_id);
                Step {
                    ledger: Ledger {
                        running: if kind == EventType::Started {
                            with_app(self.running, app_id)
                        } else {
                            without_app(self.running, app_id)
                        },
                        ..found.ledger
                    },
                    ops: checked.ops + found.ops + seq![
                        StoreOp::DeleteRunning { object_id },
                        StoreOp::InsertEvent { timestamp, object_id, kind },
                    ],
                }
            },
            EventType::Running => Step {
                ledger: checked.ledger,
                ops: checked.ops + seq![StoreOp::DeleteAllRunning] + self.markers(timestamp, kind),
            },
            EventType::Suspended | EventType::Resumed => Step {
                ledger: checked.ledger,
                ops: checked.ops + self.markers(timestamp, kind),
            },
        }
    }

    /// Writes the first `n` cache entries back, registering applications
    /// that the store does not know yet.
    pub open spec fn dump(self, n: int) -> Step
        decreases n,
    {
        if n <= 0 {
            Step { ledger: self, ops: Seq::empty() }
        } else {
            let before = self.dump(n - 1);
            let found = before.ledger.resolve(self.cache[n - 1].0);
            Step {
                ledger: found.ledger,
                ops: before.ops + found.ops + seq![
                    StoreOp::PutBucket {
                        bucket: self.bucket,
                        object_id: found.ledger.object_id(self.cache[n - 1].0),
                        value: self.cache[n - 1].1,
                    },
                ],
            }
        }
    }

    /// Writes the whole cache back.
    pub open spec fn dump_cache(self) -> Step {
        self.dump(self.cache.len() as int)
    }

    /// Adds `value` to what `app_id` has accumulated in the current bucket.
    pub open spec fn update(self, app_id: AppId, value: u64) -> Ledger {
        Ledger { cache: put(self.cache, app_id, (self.cached(app_id) + value) as u64), ..self }
    }

    /// Replaces the cache by the stored rows of `bucket`.
    pub open spec fn load_cache(self, bucket: u64, rows: Seq<(AppId, u64)>) -> Ledger {
        Ledger { bucket, cache: filled(rows), ..self }
    }

    /// Checks the clock, refreshes the heartbeat rows and writes the cache
    /// back. Where `timestamp` falls into another bucket than the cache
    /// stands for, the cache moves on to that bucket and starts out empty.
    pub open spec fn commit(self, timestamp: u64) -> Step {
        let beat = self.event(timestamp, None, EventType::Running);
        let dumped = beat.ledger.dump_cache();
        Step {
            ledger: if hour_of(timestamp) != self.bucket {
                dumped.ledger.load_cache(hour_of(timestamp), Seq::empty())
            } else {
                dumped.ledger
            },
            ops: beat.ops + dumped.ops,
        }
    }

    /// Records `Stopped` for each of `apps`, in order.
    pub open spec fn stop_all(self, apps: Seq<AppId>, timestamp: u64) -> Step
        decreases apps.len(),
    {
        if apps.len() == 0 {
            Step { ledger: self, ops: Seq::empty() }
        } else {
            let before = self.stop_all(apps.drop_last(), timestamp);
            let last = before.ledger.event(timestamp, Some(apps.last()), EventType::Stopped);
            Step { ledger: last.ledger, ops: before.ops + last.ops }
        }
    }

    /// Writes the cache back and records `Stopped` for every running
    /// application.
    pub open spec fn flush(self, timestamp: u64) -> Step {
        let dumped = self.dump_cache();
        let stopped = dumped.ledger.stop_all(self.running, timestamp);
        Step { ledger: stopped.ledger, ops: dumped.ops + stopped.ops }
    }

    /// Opens the ledger over a store that holds the applications `objects`
    /// and whose journal ends at `last_timestamp`: heartbeat rows that an
    /// earlier session left behind are closed, the clock is checked, the
    /// cache takes the stored `rows` of the bucket of `timestamp`, and the
    /// tracker itself is recorded as started.
    pub open spec fn open(
        objects: Seq<AppId>,
        last_timestamp: u64,
        rows: Seq<(AppId, u64)>,
        timestamp: u64,
    ) -> Step {
        let fresh = Ledger {
            objects,
            last_timestamp,
            bucket: 0,
            cache: Seq::empty(),
            running: Seq::empty(),
        };
        let started = fresh.load_cache(hour_of(timestamp), rows).event(
            timestamp,
            None,
            EventType::Started,
        );
        Step { ledger: started.ledger, ops: seq![StoreOp::CloseDangling] + started.ops }
    }
}


/// Looking an application up keeps the ledger well formed and every id that
/// was given out; afterwards the application is registered.
pub proof fn lemma_resolve(ledger: Ledger, app_id: AppId)
    requires
        ledger.wf(),
    ensures
        ledger.resolve(app_id).ledger.wf(),
        ledger.resolve(app_id).ledger.objects.contains(app_id),
        ledger.resolve(app_id).ledger == (Ledger {
            objects: ledger.resolve(app_id).ledger.objects,
            ..ledger
        }),
        forall|other: AppId| #[trigger]
            ledger.objects.contains(other) ==> {
                &&& ledger.resolve(app_id).ledger.objects.contains(other)
                &&& ledger.resolve(app_id).ledger.object_id(other) == ledger.object_id(other)
            },
{
    let after = ledger.resolve(app_id).ledger;
    if !ledger.objects.contains(app_id) {
        assert(after.objects[ledger.objects.len() as int] == app_id);
        assert forall|other: AppId| #[trigger] ledger.objects.contains(other) implies {
            &&& after.objects.contains(other)
            &&& after.object_id(other) == ledger.object_id(other)
        } by {
            let at = ledger.objects.index_of(other);
            assert(after.objects[at] == other);
            lemma_index_of(after.objects, other, at);
        }
        assert forall|i: int| 0 <= i < after.running.len() implies after.objects.contains(
            #[trigger] after.running[i],
        ) by {
            assert(ledger.objects.contains(ledger.running[i]));
        }
    }
}

/// Taking an application out of a list without duplicates leaves a list
/// without duplicates that holds every other member and not the application.
pub proof fn lemma_without_app(list: Seq<AppId>, app_id: AppId)
    requires
        list.no_duplicates(),
    ensures
        without_app(list, app_id).no_duplicates(),
        !without_app(list, app_id).contains(app_id),
        forall|other: AppId|
            other != app_id ==> (#[trigger] without_app(list, app_id).contains(other)
                <==> list.contains(other)),
{
    let after = without_app(list, app_id);
    if list.contains(app_id) {
        let at = list.index_of(app_id);
        assert forall|i: int| 0 <= i < after.len() implies #[trigger] after[i] != app_id by {
            if i < at {
                assert(after[i] == list[i]);
            } else {
                assert(after[i] == list[i + 1]);
            }
        }
        assert forall|i: int, j: int|
            0 <= i < after.len() && 0 <= j < after.len() && i != j implies after[i]
            != after[j] by {
            let from_i = if i < at { i } else { i + 1 };
            let from_j = if j < at { j } else { j + 1 };
            assert(after[i] == list[from_i]);
            assert(after[j] == list[from_j]);
        }
        assert forall|other: AppId| other != app_id implies (#[trigger] after.contains(other)
            <==> list.contains(other)) by {
            if list.contains(other) {
                let k = list.index_of(other);
                if k < at {
                    assert(after[k] == other);
                } else {
                    assert(after[k - 1] == other);
                }
            }
            if after.contains(other) {
                let k = after.index_of(other);
                let from = if k < at { k } else { k + 1 };
                assert(list[from] == other);
            }
        }
    }
}

/// Joining or leaving the running set keeps the ledger well formed, given
/// that the application is registered.
pub proof fn lemma_membership(ledger: Ledger, app_id: AppId, joins: bool)
    requires
        ledger.wf(),
        ledger.objects.contains(app_id),
    ensures
        (Ledger {
            running: if joins {
                with_app(ledger.running, app_id)
            } else {
                without_app(ledger.running, app_id)
            },
            ..ledger
        }).wf(),
        !joins ==> !without_app(ledger.running, app_id).contains(app_id),
        !joins ==> forall|other: AppId|
            other != app_id ==> (#[trigger] without_app(ledger.running, app_id).contains(other)
                <==> ledger.running.contains(other)),
{
    let before = ledger.running;
    if joins {
        let after = with_app(before, app_id);
        if !before.contains(app_id) {
            assert forall|i: int| 0 <= i < after.len() implies ledger.objects.contains(
                #[trigger] after[i],
            ) by {
                if i < before.len() {
                    assert(after[i] == before[i]);
                }
            }
        }
    } else {
        let after = without_app(before, app_id);
        if before.contains(app_id) {
            let at = before.index_of(app_id);
            assert forall|i: int| 0 <= i < after.len() implies ledger.objects.contains(
                #[trigger] after[i],
            ) && after[i] != app_id by {
                if i < at {
                    assert(after[i] == before[i]);
                } else {
                    assert(after[i] == before[i + 1]);
                }
            }
            assert forall|i: int, j: int|
                0 <= i < after.len() && 0 <= j < after.len() && i != j implies after[i]
                != after[j] by {
                let from_i = if i < at { i } else { i + 1 };
                let from_j = if j < at { j } else { j + 1 };
                assert(after[i] == before[from_i]);
                assert(after[j] == before[from_j]);
            }
            assert forall|other: AppId| other != app_id implies (#[trigger] after.contains(other)
                <==> before.contains(other)) by {
                if before.contains(other) {
                    let k = before.index_of(other);
                    if k < at {
                        assert(after[k] == other);
                    } else {
                        assert(after[k - 1] == other);
                    }
                }
                if after.contains(other) {
                    let k = after.index_of(other);
                    let from = if k < at { k } else { k + 1 };
                    assert(before[from] == other);
                }
            }
        }
    }
}

/// Recording an event keeps the ledger well formed.
pub proof fn lemma_event(ledger: Ledger, timestamp: u64, app_id: Option<AppId>, kind: EventType)
    requires
        ledger.wf(),
    ensures
        ledger.event(timestamp, app_id, kind).ledger.wf(),
        ledger.event(timestamp, app_id, kind).ledger.last_timestamp == timestamp,
        ledger.event(timestamp, app_id, kind).ledger.cache == ledger.cache,
        ledger.event(timestamp, app_id, kind).ledger.bucket == ledger.bucket,
{
    let checked = ledger.validate_timestamp(timestamp).ledger;
    if kind == EventType::Started || kind == EventType::Stopped {
        let app_id = match app_id {
            Some(app_id) => app_id,
            None => THIS_APP_ID,
        };
        lemma_resolve(checked, app_id);
        lemma_membership(checked.resolve(app_id).ledger, app_id, kind == EventType::Started);
    }
}

/// Writing the cache back changes nothing but the table of registered
/// applications, which keeps every id that was given out.
pub proof fn lemma_dump(ledger: Ledger, n: int)
    requires
        ledger.wf(),
        n <= ledger.cache.len(),
    ensures
        ledger.dump(n).ledger.wf(),
        ledger.dump(n).ledger == (Ledger { objects: ledger.dump(n).ledger.objects, ..ledger }),
        forall|other: AppId| #[trigger]
            ledger.objects.contains(other) ==> {
                &&& ledger.dump(n).ledger.objects.contains(other)
                &&& ledger.dump(n).ledger.object_id(other) == ledger.object_id(other)
            },
    decreases n,
{
    if n > 0 {
        lemma_dump(ledger, n - 1);
        lemma_resolve(ledger.dump(n - 1).ledger, ledger.cache[n - 1].0);
    }
}

/// After `Stopped` was recorded for each of `apps`, none of them is running;
/// whether any other application is running has not changed.
pub proof fn lemma_stop_all(ledger: Ledger, apps: Seq<AppId>, timestamp: u64)
    requires
        ledger.wf(),
    ensures
        ledger.stop_all(apps, timestamp).ledger.wf(),
        forall|app_id: AppId| #[trigger]
            ledger.stop_all(apps, timestamp).ledger.running.contains(app_id) <==> ledger.running.contains(
                app_id,
            ) && !apps.contains(app_id),
        apps == ledger.running ==> ledger.stop_all(apps, timestamp).ledger.running.len() == 0,
    decreases apps.len(),
{
    let after = ledger.stop_all(apps, timestamp).ledger;
    if apps.len() > 0 {
        let front = apps.drop_last();
        let before = ledger.stop_all(front, timestamp).ledger;
        lemma_stop_all(ledger, front, timestamp);
        let checked = before.validate_timestamp(timestamp).ledger;
        lemma_resolve(checked, apps.last());
        lemma_membership(checked.resolve(apps.last()).ledger, apps.last(), false);
        assert forall|app_id: AppId| #[trigger]
            after.running.contains(app_id) <==> ledger.running.contains(app_id) && !apps.contains(
                app_id,
            ) by {
            if apps.contains(app_id) && app_id != apps.last() {
                let k = apps.index_of(app_id);
                assert(front[k] == app_id);
            }
            if front.contains(app_id) {
                let k = front.index_of(app_id);
                assert(apps[k] == app_id);
            }
            assert(apps[apps.len() - 1] == apps.last());
        }
    }
    if apps == ledger.running && after.running.len() > 0 {
        assert(after.running.contains(after.running[0]));
        assert(false);
    }
}


/// The accumulated values of one hour bucket.
struct AppCache {
    apps: Vec<(AppId, u64)>,
    timestamp_h: u64,
}

/// Why a ledger could not be opened.
#[derive(Clone, Copy, Debug, PartialEq, Eq, Structural)]
pub enum OpenError {
    /// The object table does not number its rows `1, 2, 3, ...` or it
    /// registers an application twice.
    CorruptObjects,
}

/// What a commit leaves to the caller.
pub struct Commit {
    /// The writes that the store is owed.
    pub ops: Vec<StoreOp>,
    /// The bucket whose stored rows the cache has to take next, through
    /// [`DeckDB::load_cache`], where the commit moved on to another bucket.
    pub reload: Option<u64>,
}

/// The ledger.
pub struct DeckDB {
    objects: Vec<AppId>,
    last_timestamp: u64,
    cache: AppCache,
    running_apps: Vec<AppId>,
}

impl View for DeckDB {
    type V = Ledger;

    closed spec fn view(&self) -> Ledger {
        Ledger {
            objects: self.objects@,
            last_timestamp: self.last_timestamp,
            bucket: self.cache.timestamp_h,
            cache: self.cache.apps@,
            running: self.running_apps@,
        }
    }
}

/// The first index of `app_id` in `list`.
pub(crate) fn position(list: &Vec<AppId>, app_id: AppId) -> (at: Option<usize>)
    ensures
        match at {
            Some(i) => i < list.len() && list[i as int] == app_id,
            None => !list@.contains(app_id),
        },
{
    let mut i: usize = 0;
    while i < list.len()
        invariant
            i <= list.len(),
            forall|j: int| 0 <= j < i ==> list[j] != app_id,
        decreases list.len() - i,
    {
        if list[i] == app_id {
            return Some(i);
        }
        i += 1;
    }
    None
}

/// The index of the entry of `app_id` in `cache`.
fn entry_of(cache: &Vec<(AppId, u64)>, app_id: AppId) -> (at: Option<usize>)
    ensures
        match at {
            Some(i) => i < cache.len() && keys(cache@)[i as int] == app_id,
            None => !keys(cache@).contains(app_id),
        },
{
    let mut i: usize = 0;
    while i < cache.len()
        invariant
            i <= cache.len(),
            forall|j: int| 0 <= j < i ==> keys(cache@)[j] != app_id,
        decreases cache.len() - i,
    {
        if cache[i].0 == app_id {
            return Some(i);
        }
        i += 1;
    }
    None
}

/// Sets the value of `app_id` in `cache`, as [`put`] says.
fn put_entry(cache: &mut Vec<(AppId, u64)>, app_id: AppId, value: u64)
    requires
        keys(old(cache)@).no_duplicates(),
    ensures
        final(cache)@ == put(old(cache)@, app_id, value),
        keys(final(cache)@).no_duplicates(),
{
    proof {
        lemma_put(cache@, app_id, value);
    }
    match entry_of(cache, app_id) {
        Some(i) => {
            proof {
                lemma_index_of(keys(cache@), app_id, i as int);
            }
            cache.set(i, (app_id, value));
        },
        None => {
            cache.push((app_id, value));
        },
    }
}

/// `put` keeps the applications of a cache distinct, gives `app_id` the
/// value and leaves the value of every other application alone.
pub proof fn lemma_put(cache: Seq<(AppId, u64)>, app_id: AppId, value: u64)
    requires
        keys(cache).no_duplicates(),
    ensures
        keys(put(cache, app_id, value)).no_duplicates(),
        keys(put(cache, app_id, value)) == with_app(keys(cache), app_id),
        forall|i: int| 0 <= i < cache.len() && cache[i].0 != app_id ==> put(cache, app_id, value)[i] == cache[i],
        keys(cache).contains(app_id) ==> put(cache, app_id, value)[keys(cache).index_of(app_id)] == (app_id, value),
        !keys(cache).contains(app_id) ==> put(cache, app_id, value)[cache.len() as int] == (app_id, value),
{
    let after = put(cache, app_id, value);
    if keys(cache).contains(app_id) {
        let at = keys(cache).index_of(app_id);
        assert(keys(after) =~= keys(cache));
    } else {
        assert(keys(after) =~= keys(cache).push(app_id));
        assert forall|i: int, j: int|
            0 <= i < keys(after).len() && 0 <= j < keys(after).len() && i != j implies keys(after)[i]
            != keys(after)[j] by {
            if i < cache.len() {
                assert(keys(cache)[i] == keys(after)[i]);
            }
            if j < cache.len() {
                assert(keys(cache)[j] == keys(after)[j]);
            }
        }
    }
}

impl DeckDB {
    /// The invariant of the ledger, over its view.
    pub open spec fn wf(&self) -> bool {
        self@.wf()
    }

    /// Opens a ledger over a store whose object table holds the rows
    /// `objects`, in the order of their ids, whose journal ends at
    /// `last_timestamp` (0 for an empty journal) and whose time series holds
    /// `rows` for the bucket of `timestamp`.
    ///
    /// Fails where the object table is not [`sequential`]. Else returns the
    /// ledger together with the writes that [`Ledger::open`] lists.
    pub fn build(
        objects: Vec<(u64, AppId)>,
        last_timestamp: u64,
        rows: Vec<(AppId, u64)>,
        timestamp: u64,
    ) -> (opened: Result<(DeckDB, Vec<StoreOp>), OpenError>)
        ensures
            opened is Ok <==> sequential(objects@),
            opened matches Ok((db, ops)) ==> {
                &&& db.wf()
                &&& db@ == Ledger::open(apps_of(objects@), last_timestamp, rows@, timestamp).ledger
                &&& ops@ == Ledger::open(apps_of(objects@), last_timestamp, rows@, timestamp).ops
            },
    {
        let mut apps: Vec<AppId> = Vec::new();
        let mut i: usize = 0;
        while i < objects.len()
            invariant
                i <= objects.len(),
                apps@ == apps_of(objects@).take(i as int),
                apps@.no_duplicates(),
                forall|k: int| 0 <= k < i ==> (#[trigger] objects[k]).0 == k + 1,
            decreases objects.len() - i,
        {
            let (object_id, app_id) = objects[i];
            if object_id != i as u64 + 1 {
                return Err(OpenError::CorruptObjects);
            }
            if position(&apps, app_id).is_some() {
                proof {
                    let k = choose|k: int| 0 <= k < apps@.len() && apps@[k] == app_id;
                    assert(apps_of(objects@)[k] == apps_of(objects@)[i as int]);
                }
                return Err(OpenError::CorruptObjects);
            }
            proof {
                assert(apps_of(objects@).take(i + 1) == apps@.push(app_id));
            }
            apps.push(app_id);
            i += 1;
        }
        proof {
            assert(apps_of(objects@).take(i as int) == apps_of(objects@));
        }
        let mut db = DeckDB {
            objects: apps,
            last_timestamp,
            cache: AppCache { apps: Vec::new(), timestamp_h: 0 },
            running_apps: Vec::new(),
        };
        db.load_cache(bucket_of(timestamp), rows);
        let mut ops: Vec<StoreOp> = Vec::new();
        ops.push(StoreOp::CloseDangling);
        db.record(timestamp, None, EventType::Started, &mut ops);
        proof {
            let step = Ledger::open(apps_of(objects@), last_timestamp, rows@, timestamp);
            assert(ops@ =~= step.ops);
        }
        Ok((db, ops))
    }

    /// The object id of `app_id`, which is registered first where the ledger
    /// does not know it.
    fn get_object_id(&mut self, app_id: AppId, ops: &mut Vec<StoreOp>) -> (object_id: u64)
        requires
            old(self).wf(),
        ensures
            final(self).wf(),
            final(self)@ == old(self)@.resolve(app_id).ledger,
            final(ops)@ == old(ops)@ + old(self)@.resolve(app_id).ops,
            final(self)@.objects.contains(app_id),
            object_id == final(self)@.object_id(app_id),
    {
        match position(&self.objects, app_id) {
            Some(i) => {
                proof {
                    lemma_index_of(self.objects@, app_id, i as int);
                    assert(ops@ =~= ops@ + self@.resolve(app_id).ops);
                }
                i as u64 + 1
            },
            None => {
                proof {
                    lemma_resolve(self@, app_id);
                }
                self.objects.push(app_id);
                let object_id: u64 = self.objects.len() as u64;
                ops.push(StoreOp::CreateObject { object_id, app_id });
                proof {
                    lemma_index_of(self.objects@, app_id, object_id - 1);
                    assert(ops@ =~= old(ops)@ + old(self)@.resolve(app_id).ops);
                }
                object_id
            },
        }
    }

    /// The check for a clock that went backward.
    fn validate_timestamp(&mut self, timestamp: u64, ops: &mut Vec<StoreOp>)
        ensures
            final(self)@ == old(self)@.validate_timestamp(timestamp).ledger,
            final(ops)@ == old(ops)@ + old(self)@.validate_timestamp(timestamp).ops,
    {
        if timestamp < self.last_timestamp {
            ops.push(StoreOp::Quarantine { start_ts: timestamp, end_ts: self.last_timestamp });
        }
        self.last_timestamp = timestamp;
        proof {
            assert(ops@ =~= old(ops)@ + old(self)@.validate_timestamp(timestamp).ops);
        }
    }

    /// Replaces the cache by the stored `rows` of the bucket `timestamp_h`.
    /// Where an application has several rows the last one counts.
    pub fn load_cache(&mut self, timestamp_h: u64, rows: Vec<(AppId, u64)>)
        requires
            old(self).wf(),
        ensures
            final(self).wf(),
            final(self)@ == old(self)@.load_cache(timestamp_h, rows@),
    {
        let mut apps: Vec<(AppId, u64)> = Vec::new();
        let mut i: usize = 0;
        while i < rows.len()
            invariant
                i <= rows.len(),
                apps@ == filled(rows@.take(i as int)),
                keys(apps@).no_duplicates(),
            decreases rows.len() - i,
        {
            proof {
                assert(rows@.take(i + 1).drop_last() == rows@.take(i as int));
            }
            put_entry(&mut apps, rows[i].0, rows[i].1);
            i += 1;
        }
        proof {
            assert(rows@.take(i as int) == rows@);
        }
        self.cache = AppCache { apps, timestamp_h };
    }

    /// Appends to `ops` one write per cache entry, after registering the
    /// applications that have none yet.
    fn dump_cache(&mut self, ops: &mut Vec<StoreOp>)
        requires
            old(self).wf(),
        ensures
            final(self).wf(),
            final(self)@ == old(self)@.dump_cache().ledger,
            final(ops)@ == old(ops)@ + old(self)@.dump_cache().ops,
    {
        let mut i: usize = 0;
        while i < self.cache.apps.len()
            invariant
                i <= self.cache.apps.len(),
                self.wf(),
                self@ == old(self)@.dump(i as int).ledger,
                self@.cache == old(self)@.cache,
                self@.bucket == old(self)@.bucket,
                ops@ == old(ops)@ + old(self)@.dump(i as int).ops,
            decreases self.cache.apps.len() - i,
        {
            let (app_id, value) = self.cache.apps[i];
            let ghost before = ops@;
            let object_id = self.get_object_id(app_id, ops);
            ops.push(StoreOp::PutBucket { bucket: self.cache.timestamp_h, object_id, value });
            proof {
                let prev = old(self)@.dump(i as int);
                let found = prev.ledger.resolve(app_id);
                assert(ops@ =~= old(ops)@ + old(self)@.dump(i + 1).ops);
            }
            i += 1;
        }
    }

    /// Adds `value` to what `app_id` has accumulated in the current bucket.
    /// Only the cache changes: the store learns of it at the next commit.
    pub fn update(&mut self, app_id: AppId, value: u64)
        requires
            old(self).wf(),
            old(self)@.cached(app_id) + value <= u64::MAX,
        ensures
            final(self).wf(),
            final(self)@ == old(self)@.update(app_id, value),
    {
        let so_far: u64 = match entry_of(&self.cache.apps, app_id) {
            Some(i) => {
                proof {
                    lemma_index_of(keys(self.cache.apps@), app_id, i as int);
                }
                self.cache.apps[i].1
            },
            None => 0,
        };
        put_entry(&mut self.cache.apps, app_id, so_far + value);
    }

    /// Whether every cache entry can take `value` more without leaving the
    /// range of `u64`, which is what [`DeckDB::update`] asks for.
    pub fn has_room(&self, value: u64) -> (room: bool)
        requires
            self.wf(),
        ensures
            room <==> forall|app_id: AppId| self@.cached(app_id) + value <= u64::MAX,
    {
        let mut i: usize = 0;
        while i < self.cache.apps.len()
            invariant
                i <= self.cache.apps.len(),
                self.wf(),
                forall|k: int| 0 <= k < i ==> (#[trigger] self.cache.apps[k]).1 + value <= u64::MAX,
            decreases self.cache.apps.len() - i,
        {
            if self.cache.apps[i].1 > u64::MAX - value {
                proof {
                    let app_id = self.cache.apps[i as int].0;
                    lemma_index_of(keys(self.cache.apps@), app_id, i as int);
                    assert(self@.cached(app_id) + value > u64::MAX);
                }
                return false;
            }
            i += 1;
        }
        proof {
            assert forall|app_id: AppId| self@.cached(app_id) + value <= u64::MAX by {
                if keys(self.cache.apps@).contains(app_id) {
                    let at = keys(self.cache.apps@).index_of(app_id);
                    assert(self.cache.apps[at].1 + value <= u64::MAX);
                }
            }
        }
        true
    }

    /// Records one event and returns the writes that the store is owed for
    /// it, as [`Ledger::event`] lists them.
    pub fn event(&mut self, timestamp: u64, app_id: Option<AppId>, event_type: EventType) -> (ops:
        Vec<StoreOp>)
        requires
            old(self).wf(),
        ensures
            final(self).wf(),
            final(self)@ == old(self)@.event(timestamp, app_id, event_type).ledger,
            ops@ == old(self)@.event(timestamp, app_id, event_type).ops,
    {
        let mut ops: Vec<StoreOp> = Vec::new();
        self.record(timestamp, app_id, event_type, &mut ops);
        ops
    }

    /// Records one event, appending its writes to `ops`.
    pub(crate) fn record(
        &mut self,
        timestamp: u64,
        app_id: Option<AppId>,
        event_type: EventType,
        ops: &mut Vec<StoreOp>,
    )
        requires
            old(self).wf(),
        ensures
            final(self).wf(),
            final(self)@ == old(self)@.event(timestamp, app_id, event_type).ledger,
            final(ops)@ == old(ops)@ + old(self)@.event(timestamp, app_id, event_type).ops,
    {
        self.validate_timestamp(timestamp, ops);
        match event_type {
            EventType::Started | EventType::Stopped => {
                let app_id: AppId = match app_id {
                    Some(app_id) => app_id,
                    None => THIS_APP_ID,
                };
                let object_id = self.get_object_id(app_id, ops);
                ops.push(StoreOp::DeleteRunning { object_id });
                ops.push(StoreOp::InsertEvent { timestamp, object_id, kind: event_type });
                let at = position(&self.running_apps, app_id);
                match event_type {
                    EventType::Started => {
                        if at.is_none() {
                            self.running_apps.push(app_id);
                        }
                    },
                    _ => {
                        if let Some(i) = at {
                            proof {
                                lemma_index_of(self.running_apps@, app_id, i as int);
                            }
                            self.running_apps.remove(i);
                        }
                    },
                }
                proof {
                    lemma_membership(
                        old(self)@.validate_timestamp(timestamp).ledger.resolve(app_id).ledger,
                        app_id,
                        event_type == EventType::Started,
                    );
                    assert(ops@ =~= old(ops)@ + old(self)@.event(
                        timestamp,
                        Some(app_id),
                        event_type,
                    ).ops);
                }
            },
            EventType::Running => {
                ops.push(StoreOp::DeleteAllRunning);
                let ghost before = ops@;
                self.mark_running(timestamp, event_type, ops);
                proof {
                    assert(ops@ =~= old(ops)@ + old(self)@.event(timestamp, app_id, event_type).ops);
                }
            },
            EventType::Suspended | EventType::Resumed => {
                self.mark_running(timestamp, event_type, ops);
                proof {
                    assert(ops@ =~= old(ops)@ + old(self)@.event(timestamp, app_id, event_type).ops);
                }
            },
        }
    }

    /// Appends one journal row of `kind` for each running application.
    fn mark_running(&self, timestamp: u64, kind: EventType, ops: &mut Vec<StoreOp>)
        requires
            self.wf(),
        ensures
            final(ops)@ == old(ops)@ + self@.markers(timestamp, kind),
    {
        let mut i: usize = 0;
        while i < self.running_apps.len()
            invariant
                i <= self.running_apps.len(),
                self.wf(),
                ops@ == old(ops)@ + self@.markers(timestamp, kind).take(i as int),
            decreases self.running_apps.len() - i,
        {
            let app_id: AppId = self.running_apps[i];
            assert(self@.objects.contains(self@.running[i as int]));
            match position(&self.objects, app_id) {
                Some(at) => {
                    proof {
                        lemma_index_of(self.objects@, app_id, at as int);
                    }
                    ops.push(StoreOp::InsertEvent { timestamp, object_id: at as u64 + 1, kind });
                },
                None => {},
            }
            proof {
                assert(ops@ =~= old(ops)@ + self@.markers(timestamp, kind).take(i + 1));
            }
            i += 1;
        }
        proof {
            assert(self@.markers(timestamp, kind).take(i as int) == self@.markers(timestamp, kind));
        }
    }

    /// Checks the clock, refreshes the heartbeat rows and writes the cache
    /// back, as [`Ledger::commit`] says. Where the commit moves on to another
    /// bucket the cache starts out empty and `reload` names the bucket: the
    /// caller reads its stored rows and hands them to [`DeckDB::load_cache`].
    pub fn commit(&mut self, timestamp: u64) -> (done: Commit)
        requires
            old(self).wf(),
        ensures
            final(self).wf(),
            final(self)@ == old(self)@.commit(timestamp).ledger,
            done.ops@ == old(self)@.commit(timestamp).ops,
            done.reload == if hour_of(timestamp) != old(self)@.bucket {
                Some(hour_of(timestamp))
            } else {
                None
            },
    {
        let mut ops: Vec<StoreOp> = Vec::new();
        self.record(timestamp, None, EventType::Running, &mut ops);
        self.dump_cache(&mut ops);
        let timestamp_h = bucket_of(timestamp);
        let reload = if timestamp_h != self.cache.timestamp_h {
            self.load_cache(timestamp_h, Vec::new());
            Some(timestamp_h)
        } else {
            None
        };
        proof {
            lemma_dump(old(self)@.event(timestamp, None, EventType::Running).ledger, old(self)@.cache.len() as int);
            assert(ops@ =~= old(self)@.commit(timestamp).ops);
        }
        Commit { ops, reload }
    }

    /// Writes the cache back and records `Stopped` for every running
    /// application, as [`Ledger::flush`] says. No application is running
    /// afterwards.
    pub fn flush(&mut self, timestamp: u64) -> (ops: Vec<StoreOp>)
        requires
            old(self).wf(),
        ensures
            final(self).wf(),
            final(self)@ == old(self)@.flush(timestamp).ledger,
            ops@ == old(self)@.flush(timestamp).ops,
            final(self)@.running.len() == 0,
    {
        let mut ops: Vec<StoreOp> = Vec::new();
        self.dump_cache(&mut ops);
        let apps = self.running_apps();
        proof {
            lemma_dump(old(self)@, old(self)@.cache.len() as int);
        }
        self.stop_all(&apps, timestamp, &mut ops);
        proof {
            assert(ops@ =~= old(self)@.flush(timestamp).ops);
            lemma_stop_all(old(self)@.dump_cache().ledger, apps@, timestamp);
        }
        ops
    }

    /// Records `Stopped` for each of `apps`, in order, appending the writes
    /// to `ops`.
    pub(crate) fn stop_all(&mut self, apps: &Vec<AppId>, timestamp: u64, ops: &mut Vec<StoreOp>)
        requires
            old(self).wf(),
        ensures
            final(self).wf(),
            final(self)@ == old(self)@.stop_all(apps@, timestamp).ledger,
            final(ops)@ == old(ops)@ + old(self)@.stop_all(apps@, timestamp).ops,
    {
        let mut i: usize = 0;
        while i < apps.len()
            invariant
                i <= apps.len(),
                self.wf(),
                self@ == old(self)@.stop_all(apps@.take(i as int), timestamp).ledger,
                ops@ == old(ops)@ + old(self)@.stop_all(apps@.take(i as int), timestamp).ops,
            decreases apps.len() - i,
        {
            proof {
                assert(apps@.take(i + 1).drop_last() == apps@.take(i as int));
            }
            self.record(timestamp, Some(apps[i]), EventType::Stopped, ops);
            proof {
                assert(ops@ =~= old(ops)@ + old(self)@.stop_all(apps@.take(i + 1), timestamp).ops);
            }
            i += 1;
        }
        proof {
            assert(apps@.take(i as int) == apps@);
        }
    }

    /// The applications that are running, in the order in which they started.
    pub fn running_apps(&self) -> (apps: Vec<AppId>)
        ensures
            apps@ == self@.running,
    {
        let mut apps: Vec<AppId> = Vec::new();
        let mut i: usize = 0;
        while i < self.running_apps.len()
            invariant
                i <= self.running_apps.len(),
                apps@ == self.running_apps@.take(i as int),
            decreases self.running_apps.len() - i,
        {
            apps.push(self.running_apps[i]);
            proof {
                assert(self.running_apps@.take(i + 1) == self.running_apps@.take(i as int).push(
                    self.running_apps[i as int],
                ));
            }
            i += 1;
        }
        proof {
            assert(self.running_apps@.take(i as int) == self.running_apps@);
        }
        apps
    }

    /// The object table of a ledger is no longer than a list in memory can
    /// be, so every object id fits its type.
    pub proof fn lemma_objects_fit(&self)
        ensures
            self@.objects.len() <= usize::MAX <= u64::MAX,
    {
        assert(self.objects.len() == self.objects@.len());
    }

    /// The latest timestamp that the ledger accepted.
    pub fn last_timestamp(&self) -> (timestamp: u64)
        ensures
            timestamp == self@.last_timestamp,
    {
        self.last_timestamp
    }

    /// The hour bucket that the cache stands for.
    pub fn cache_bucket(&self) -> (bucket: u64)
        ensures
            bucket == self@.bucket,
    {
        self.cache.timestamp_h
    }

    /// What `app_id` has accumulated in the current bucket.
    pub fn cached(&self, app_id: AppId) -> (value: u64)
        requires
            self.wf(),
        ensures
            value == self@.cached(app_id),
    {
        match entry_of(&self.cache.apps, app_id) {
            Some(i) => {
                proof {
                    lemma_index_of(keys(self.cache.apps@), app_id, i as int);
                }
                self.cache.apps[i].1
            },
            None => 0,
        }
    }
}

} // verus!
