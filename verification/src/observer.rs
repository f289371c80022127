//! What is done on each tick: commit, sample the launcher's children, and
//! look for a gap in the samples.
//!
//! The three tasks are values. Each holds what it remembers between two
//! ticks, and its `call` takes the ledger, the time of the tick in seconds
//! and, for the sampling, what was seen, and returns the writes that the
//! store is owed.

use crate::db::{
    hour_of, lemma_event, lemma_index_of, lemma_without_app, position, without_app, AppId, Commit,
    DeckDB, EventType, Ledger, Step,
};
use crate::laws::lemma_update;
use crate::store::StoreOp;
use vstd::prelude::*;

verus! {

/// The task that commits the ledger.
pub struct CommitFunc {}

/// The task that commits the ledger.
pub fn get_commit_func() -> CommitFunc {
    CommitFunc {  }
}

impl CommitFunc {
    /// Commits at `now`, as [`DeckDB::commit`] does.
    pub fn call(&self, db: &mut DeckDB, now: u64) -> (done: Commit)
        requires
            old(db).wf(),
        ensures
            final(db).wf(),
            final(db)@ == old(db)@.commit(now).ledger,
            done.ops@ == old(db)@.commit(now).ops,
            done.reload == if hour_of(now) != old(db)@.bucket {
                Some(hour_of(now))
            } else {
                None
            },
    {
        db.commit(now)
    }
}

/// The task that notices when no tick came for too long.
pub struct SuspendCheck {
    max_duration: u64,
    prev_ts: Option<u64>,
}

/// A gap check that takes more than `max_duration` seconds between two
/// ticks for a suspension. It has seen no tick yet.
pub fn get_suspend_check_func(max_duration: u64) -> (check: SuspendCheck)
    ensures
        check.max_duration() == max_duration,
        check.prev_ts() is None,
{
    SuspendCheck { max_duration, prev_ts: None }
}

/// What a gap check does to the ledger at `now`, given the tick before:
/// where more than `max_duration` lies between the two, `Suspended` is
/// recorded at the earlier tick and `Resumed` at `now`; else nothing.
pub open spec fn suspend_step(
    ledger: Ledger,
    prev_ts: Option<u64>,
    max_duration: u64,
    now: u64,
) -> Step {
    match prev_ts {
        Some(prev_ts) if now - prev_ts > max_duration => {
            let suspended = ledger.event(prev_ts, None, EventType::Suspended);
            let resumed = suspended.ledger.event(now, None, EventType::Resumed);
            Step { ledger: resumed.ledger, ops: suspended.ops + resumed.ops }
        },
        _ => Step { ledger, ops: Seq::empty() },
    }
}

impl SuspendCheck {
    pub closed spec fn max_duration(&self) -> u64 {
        self.max_duration
    }

    /// The tick before, if there was one.
    pub closed spec fn prev_ts(&self) -> Option<u64> {
        self.prev_ts
    }

    /// Looks at the tick at `now`, which must not be before the last one,
    /// and remembers it.
    pub fn call(&mut self, db: &mut DeckDB, now: u64) -> (ops: Vec<StoreOp>)
        requires
            old(db).wf(),
            old(self).prev_ts() matches Some(prev_ts) ==> prev_ts <= now,
        ensures
            final(db).wf(),
            final(self).max_duration() == old(self).max_duration(),
            final(self).prev_ts() == Some(now),
            final(db)@ == suspend_step(
                old(db)@,
                old(self).prev_ts(),
                old(self).max_duration(),
                now,
            ).ledger,
            ops@ == suspend_step(
                old(db)@,
                old(self).prev_ts(),
                old(self).max_duration(),
                now,
            ).ops,
    {
        let mut ops: Vec<StoreOp> = Vec::new();
        if let Some(prev_ts) = self.prev_ts {
            if now - prev_ts > self.max_duration {
                db.record(prev_ts, None, EventType::Suspended, &mut ops);
                db.record(now, None, EventType::Resumed, &mut ops);
            }
        }
        self.prev_ts = Some(now);
        ops
    }

    /// Whether `now` is a tick that [`SuspendCheck::call`] takes.
    pub fn accepts(&self, now: u64) -> (ok: bool)
        ensures
            ok <==> (self.prev_ts() matches Some(prev_ts) ==> prev_ts <= now),
    {
        match self.prev_ts {
            Some(prev_ts) => prev_ts <= now,
            None => true,
        }
    }
}

/// The state of one sampling pass over the launcher's children.
#[verifier::ext_equal]
pub struct Scan {
    pub ledger: Ledger,
    /// The applications that are tracked.
    pub apps: Seq<AppId>,
    /// The tracked applications that were not seen yet in this pass.
    pub closed: Seq<AppId>,
    pub ops: Seq<StoreOp>,
}

/// One child seen. An application that is not tracked yet is tracked from
/// now on and recorded as started. A tracked one that is seen for the first
/// time in this pass is credited `value`. One that was seen before in this
/// pass changes nothing.
pub open spec fn see(scan: Scan, app_id: AppId, now: u64, value: u64) -> Scan {
    if !scan.apps.contains(app_id) {
        let started = scan.ledger.event(now, Some(app_id), EventType::Started);
        Scan {
            ledger: started.ledger,
            apps: scan.apps.push(app_id),
            ops: scan.ops + started.ops,
            ..scan
        }
    } else if scan.closed.contains(app_id) {
        Scan {
            ledger: scan.ledger.update(app_id, value),
            closed: without_app(scan.closed, app_id),
            ..scan
        }
    } else {
        scan
    }
}

/// The children `seen`, in order.
pub open spec fn see_all(scan: Scan, seen: Seq<AppId>, now: u64, value: u64) -> Scan
    decreases seen.len(),
{
    if seen.len() == 0 {
        scan
    } else {
        see(see_all(scan, seen.drop_last(), now, value), seen.last(), now, value)
    }
}

/// `apps` without the members of `gone`.
pub open spec fn without_all(apps: Seq<AppId>, gone: Seq<AppId>) -> Seq<AppId>
    decreases gone.len(),
{
    if gone.len() == 0 {
        apps
    } else {
        without_app(without_all(apps, gone.drop_last()), gone.last())
    }
}

/// One sampling pass. Where the launcher is gone (`seen` is `None`), every
/// tracked application is recorded as stopped and none is tracked any more.
/// Else the children are looked at in order, and the tracked applications
/// that were not among them are recorded as stopped and dropped.
pub open spec fn sweep(
    ledger: Ledger,
    apps: Seq<AppId>,
    value: u64,
    now: u64,
    seen: Option<Seq<AppId>>,
) -> Scan {
    match seen {
        None => {
            let stopped = ledger.stop_all(apps, now);
            Scan {
                ledger: stopped.ledger,
                apps: Seq::empty(),
                closed: Seq::empty(),
                ops: stopped.ops,
            }
        },
        Some(seen) => {
            let looked = see_all(
                Scan { ledger, apps, closed: apps, ops: Seq::empty() },
                seen,
                now,
                value,
            );
            let stopped = looked.ledger.stop_all(looked.closed, now);
            Scan {
                ledger: stopped.ledger,
                apps: without_all(looked.apps, looked.closed),
                closed: Seq::empty(),
                ops: looked.ops + stopped.ops,
            }
        },
    }
}

/// The task that samples the launcher's children.
pub struct UpdateFunc {
    value: u64,
    apps: Vec<AppId>,
}

/// A sampling task that credits `value` seconds per sample. It tracks no
/// application yet.
pub fn get_update_func(value: u64) -> (task: UpdateFunc)
    ensures
        task.wf(),
        task.value() == value,
        task.apps() == Seq::<AppId>::empty(),
{
    UpdateFunc { value, apps: Vec::new() }
}

/// Removing members keeps a list free of duplicates.
pub proof fn lemma_without_all(apps: Seq<AppId>, gone: Seq<AppId>)
    requires
        apps.no_duplicates(),
    ensures
        without_all(apps, gone).no_duplicates(),
    decreases gone.len(),
{
    if gone.len() > 0 {
        lemma_without_all(apps, gone.drop_last());
        lemma_without_app(without_all(apps, gone.drop_last()), gone.last());
    }
}

impl UpdateFunc {
    /// The seconds credited per sample.
    pub closed spec fn value(&self) -> u64 {
        self.value
    }

    /// The applications that are tracked, in the order in which they were
    /// first seen.
    pub closed spec fn apps(&self) -> Seq<AppId> {
        self.apps@
    }

    /// No application is tracked twice.
    pub open spec fn wf(&self) -> bool {
        self.apps().no_duplicates()
    }

    /// One sampling pass at `now`, as [`sweep`] says. `seen` lists the
    /// applications found among the launcher's children, or is `None` where
    /// the launcher is gone.
    pub fn call(&mut self, db: &mut DeckDB, now: u64, seen: Option<&Vec<AppId>>) -> (ops: Vec<
        StoreOp,
    >)
        requires
            old(self).wf(),
            old(db).wf(),
            forall|app_id: AppId| old(db)@.cached(app_id) + old(self).value() <= u64::MAX,
        ensures
            final(self).wf(),
            final(db).wf(),
            final(self).value() == old(self).value(),
            final(db)@ == sweep(
                old(db)@,
                old(self).apps(),
                old(self).value(),
                now,
                match seen {
                    Some(seen) => Some(seen@),
                    None => None,
                },
            ).ledger,
            final(self).apps() == sweep(
                old(db)@,
                old(self).apps(),
                old(self).value(),
                now,
                match seen {
                    Some(seen) => Some(seen@),
                    None => None,
                },
            ).apps,
            ops@ == sweep(
                old(db)@,
                old(self).apps(),
                old(self).value(),
                now,
                match seen {
                    Some(seen) => Some(seen@),
                    None => None,
                },
            ).ops,
    {
        let mut ops: Vec<StoreOp> = Vec::new();
        match seen {
            None => {
                db.stop_all(&self.apps, now, &mut ops);
                self.apps = Vec::new();
                ops
            },
            Some(seen) => {
                let mut closed: Vec<AppId> = copy_of(&self.apps);
                let ghost start = Scan {
                    ledger: old(db)@,
                    apps: old(self).apps(),
                    closed: old(self).apps(),
                    ops: Seq::empty(),
                };
                let mut i: usize = 0;
                while i < seen.len()
                    invariant
                        i <= seen.len(),
                        db.wf(),
                        self.value == old(self).value,
                        self.apps@.no_duplicates(),
                        closed@.no_duplicates(),
                        start == (Scan {
                            ledger: old(db)@,
                            apps: old(self).apps(),
                            closed: old(self).apps(),
                            ops: Seq::empty(),
                        }),
                        (Scan { ledger: db@, apps: self.apps@, closed: closed@, ops: ops@ })
                            == see_all(start, seen@.take(i as int), now, self.value),
                        forall|app_id: AppId|
                            closed@.contains(app_id) ==> #[trigger] db@.cached(app_id) + self.value
                                <= u64::MAX,
                    decreases seen.len() - i,
                {
                    let app_id = seen[i];
                    let ghost before = Scan {
                        ledger: db@,
                        apps: self.apps@,
                        closed: closed@,
                        ops: ops@,
                    };
                    proof {
                        assert(seen@.take(i + 1).drop_last() =~= seen@.take(i as int));
                        lemma_event(db@, now, Some(app_id), EventType::Started);
                    }
                    if position(&self.apps, app_id).is_none() {
                        self.apps.push(app_id);
                        db.record(now, Some(app_id), EventType::Started, &mut ops);
                        proof {
                            assert forall|k: int, j: int|
                                0 <= k < self.apps@.len() && 0 <= j < self.apps@.len() && k
                                    != j implies self.apps@[k] != self.apps@[j] by {
                                if k < before.apps.len() {
                                    assert(before.apps[k] == self.apps@[k]);
                                }
                                if j < before.apps.len() {
                                    assert(before.apps[j] == self.apps@[j]);
                                }
                            }
                        }
                    } else {
                        match position(&closed, app_id) {
                            Some(at) => {
                                proof {
                                    lemma_index_of(closed@, app_id, at as int);
                                    lemma_without_app(closed@, app_id);
                                    lemma_update(db@, app_id, self.value);
                                }
                                closed.remove(at);
                                db.update(app_id, self.value);
                            },
                            None => {},
                        }
                    }
                    proof {
                        assert((Scan { ledger: db@, apps: self.apps@, closed: closed@, ops: ops@ })
                            =~= see(before, app_id, now, self.value));
                        assert forall|other: AppId| closed@.contains(other) implies #[trigger] db@.cached(
                            other,
                        ) + self.value <= u64::MAX by {
                            if closed@ != before.closed {
                                lemma_without_app(before.closed, app_id);
                                lemma_update(before.ledger, app_id, self.value);
                                assert(without_app(before.closed, app_id).contains(other));
                                assert(before.closed.contains(other));
                                assert(before.ledger.update(app_id, self.value).cached(other)
                                    == before.ledger.cached(other));
                            } else {
                                assert(before.closed.contains(other));
                                assert(before.ledger.cached(other) + self.value <= u64::MAX);
                                assert(db@.cache == before.ledger.cache);
                            }
                        }
                    }
                    i += 1;
                }
                proof {
                    assert(seen@.take(i as int) =~= seen@);
                }
                let ghost looked = ops@;
                db.stop_all(&closed, now, &mut ops);
                let ghost kept = self.apps@;
                let mut k: usize = 0;
                while k < closed.len()
                    invariant
                        k <= closed.len(),
                        self.value == old(self).value,
                        kept.no_duplicates(),
                        self.apps@ == without_all(kept, closed@.take(k as int)),
                    decreases closed.len() - k,
                {
                    proof {
                        assert(closed@.take(k + 1).drop_last() =~= closed@.take(k as int));
                        lemma_without_all(kept, closed@.take(k as int));
                    }
                    match position(&self.apps, closed[k]) {
                        Some(at) => {
                            proof {
                                lemma_index_of(self.apps@, closed@[k as int], at as int);
                            }
                            self.apps.remove(at);
                        },
                        None => {},
                    }
                    k += 1;
                }
                proof {
                    assert(closed@.take(k as int) =~= closed@);
                    lemma_without_all(kept, closed@);
                }
                ops
            },
        }
    }

    /// The applications that are tracked.
    pub fn watched(&self) -> (apps: &Vec<AppId>)
        ensures
            apps@ == self.apps(),
    {
        &self.apps
    }
}

/// A copy of a list.
fn copy_of(list: &Vec<AppId>) -> (copy: Vec<AppId>)
    ensures
        copy@ == list@,
{
    let mut copy: Vec<AppId> = Vec::new();
    let mut i: usize = 0;
    while i < list.len()
        invariant
            i <= list.len(),
            copy@ == list@.take(i as int),
        decreases list.len() - i,
    {
        copy.push(list[i]);
        proof {
            assert(list@.take(i + 1) =~= list@.take(i as int).push(list@[i as int]));
        }
        i += 1;
    }
    proof {
        assert(list@.take(i as int) =~= list@);
    }
    copy
}

} // verus!
