//! The store of tracked rooms: each room's last known status and the time it was
//! last checked, with selection of the rooms due for a recheck and an atomic
//! compare-and-set of a room's status.
//!
//! Times are whole seconds on one clock (for instance seconds since the Unix
//! epoch); the caller supplies the current time.
use vstd::prelude::*;
use crate::response_type::{fetched_of, LiveStatus, MultiLiveRoomStatus};
use crate::task::{changed_rooms, reconcile_all, reconcile_batch, SyncReport};

verus! {

/// One tracked room as the store keeps it.
#[derive(Debug, Clone, PartialEq, Eq)]
pub struct RoomRecord {
    /// The platform's identifier of the room; the store's key.
    pub room_id: i64,
    /// The store's own surrogate key, where it has one.
    pub local_id: Option<i32>,
    /// The last known status.
    pub status: LiveStatus,
    /// When the room was last reconciled; `None` if it never was.
    pub last_refreshed_at: Option<i64>,
    /// A cached human-readable name; informational only.
    pub display_name: Option<String>,
}

/// A room's status as looked up by one of its keys.
#[derive(Debug, Clone, PartialEq, Eq, Default)]
pub struct Room {
    pub room_id: i64,
    pub status: Option<LiveStatus>,
    pub username: Option<String>,
}

/// What can go wrong in an operation on the store.
#[derive(Debug, Clone, PartialEq, Eq)]
pub enum DbOperationError {
    /// The store could not be reached or failed in transport; the pass that met
    /// it is aborted. Carries the transport's description.
    UnexpectedError { source: String },
    /// A lookup named neither a surrogate key nor a room id.
    NoIdForRoomsError,
    /// No record matches the given key.
    NoResult,
}

/// No two records share a room id, nor a surrogate key.
pub open spec fn keys_unique(recs: Seq<RoomRecord>) -> bool {
    &&& forall|i: int, j: int|
        0 <= i < recs.len() && 0 <= j < recs.len() && i != j ==> #[trigger] recs[i].room_id
            != #[trigger] recs[j].room_id
    &&& forall|i: int, j: int|
        0 <= i < recs.len() && 0 <= j < recs.len() && i != j && (#[trigger] recs[i].local_id)
            is Some ==> recs[i].local_id != #[trigger] recs[j].local_id
}

/// Some record has this room id.
pub open spec fn has_room(recs: Seq<RoomRecord>, room_id: i64) -> bool {
    exists|i: int| 0 <= i < recs.len() && #[trigger] recs[i].room_id == room_id
}

/// Some record has this surrogate key.
pub open spec fn has_local_id(recs: Seq<RoomRecord>, local_id: i32) -> bool {
    exists|i: int| 0 <= i < recs.len() && #[trigger] recs[i].local_id == Some(local_id)
}

/// A room is due for a recheck when it was never reconciled, or was last
/// reconciled before `now - threshold`.
pub open spec fn record_is_stale(rec: RoomRecord, now: i64, threshold: i64) -> bool {
    match rec.last_refreshed_at {
        None => true,
        Some(t) => t < now - threshold,
    }
}

/// The room ids of the stale records, in store order.
pub open spec fn stale_ids(recs: Seq<RoomRecord>, now: i64, threshold: i64) -> Seq<i64>
    decreases recs.len(),
{
    if recs.len() == 0 {
        Seq::empty()
    } else {
        let prev = stale_ids(recs.drop_last(), now, threshold);
        if record_is_stale(recs.last(), now, threshold) {
            prev.push(recs.last().room_id)
        } else {
            prev
        }
    }
}

/// The refresh time after a reconciliation at `now`: `now`, unless the record
/// already holds a later time, which is kept, so that refresh times never move back.
pub open spec fn advanced_time(prev: Option<i64>, now: i64) -> i64 {
    match prev {
        Some(t) => if t > now { t } else { now },
        None => now,
    }
}

/// A record after a reconciliation with `status` at `now`.
pub open spec fn refreshed(rec: RoomRecord, status: LiveStatus, now: i64) -> RoomRecord {
    RoomRecord {
        status,
        last_refreshed_at: Some(advanced_time(rec.last_refreshed_at, now)),
        ..rec
    }
}

/// The records after a reconciliation of room `room_id` with `status` at `now`.
pub open spec fn set_status(recs: Seq<RoomRecord>, room_id: i64, status: LiveStatus, now: i64) -> Seq<
    RoomRecord,
> {
    recs.map_values(
        |r: RoomRecord|
            if r.room_id == room_id {
                refreshed(r, status, now)
            } else {
                r
            },
    )
}

/// The stored status of room `room_id` differs from `status`.
pub open spec fn status_differs(recs: Seq<RoomRecord>, room_id: i64, status: LiveStatus) -> bool {
    exists|i: int|
        0 <= i < recs.len() && #[trigger] recs[i].room_id == room_id && recs[i].status != status
}

/// Some record of room `room_id` is stale.
pub open spec fn is_stale_room(recs: Seq<RoomRecord>, room_id: i64, now: i64, threshold: i64) -> bool {
    exists|i: int|
        0 <= i < recs.len() && #[trigger] recs[i].room_id == room_id && record_is_stale(
            recs[i],
            now,
            threshold,
        )
}

/// The lookup view of a record.
pub open spec fn room_of(rec: RoomRecord) -> Room {
    Room { room_id: rec.room_id, status: Some(rec.status), username: rec.display_name }
}

/// Membership in the stale list is exactly staleness of the record, and the list
/// holds no room twice.
pub proof fn lemma_stale_ids_members(recs: Seq<RoomRecord>, now: i64, threshold: i64)
    requires
        keys_unique(recs),
    ensures
        forall|k: int|
            0 <= k < stale_ids(recs, now, threshold).len() ==> is_stale_room(
                recs,
                #[trigger] stale_ids(recs, now, threshold)[k],
                now,
                threshold,
            ),
        forall|i: int|
            0 <= i < recs.len() ==> (stale_ids(recs, now, threshold).contains(
                #[trigger] recs[i].room_id,
            ) <==> record_is_stale(recs[i], now, threshold)),
        stale_ids(recs, now, threshold).no_duplicates(),
    decreases recs.len(),
{
    if recs.len() > 0 {
        let init = recs.drop_last();
        assert(keys_unique(init)) by {
            assert forall|i: int, j: int|
                0 <= i < init.len() && 0 <= j < init.len() && i != j implies #[trigger] init[i].room_id
                != #[trigger] init[j].room_id by {
                assert(init[i] == recs[i] && init[j] == recs[j]);
            }
            assert forall|i: int, j: int|
                0 <= i < init.len() && 0 <= j < init.len() && i != j && (
                #[trigger] init[i].local_id) is Some implies init[i].local_id
                != #[trigger] init[j].local_id by {
                assert(init[i] == recs[i] && init[j] == recs[j]);
            }
        }
        lemma_stale_ids_members(init, now, threshold);
        let prev = stale_ids(init, now, threshold);
        let last = recs.last();
        let n = recs.len() - 1;
        assert(!prev.contains(last.room_id)) by {
            if prev.contains(last.room_id) {
                let k = choose|k: int| 0 <= k < prev.len() && prev[k] == last.room_id;
                assert(is_stale_room(init, prev[k], now, threshold));
                let i = choose|i: int|
                    0 <= i < init.len() && #[trigger] init[i].room_id == prev[k]
                        && record_is_stale(init[i], now, threshold);
                assert(recs[i].room_id == recs[n].room_id);
            }
        }
        let cur = stale_ids(recs, now, threshold);
        assert forall|k: int| 0 <= k < cur.len() implies is_stale_room(
            recs,
            #[trigger] cur[k],
            now,
            threshold,
        ) by {
            if k < prev.len() {
                assert(cur[k] == prev[k]);
                assert(is_stale_room(init, prev[k], now, threshold));
                let i = choose|i: int|
                    0 <= i < init.len() && #[trigger] init[i].room_id == prev[k]
                        && record_is_stale(init[i], now, threshold);
                assert(recs[i] == init[i]);
            } else {
                assert(recs[n].room_id == cur[k]);
            }
        }
        assert forall|i: int| 0 <= i < recs.len() implies (cur.contains(
            #[trigger] recs[i].room_id,
        ) <==> record_is_stale(recs[i], now, threshold)) by {
            if i < n {
                assert(recs[i] == init[i]);
                assert(recs[i].room_id != last.room_id);
                if record_is_stale(last, now, threshold) {
                    assert(cur == prev.push(last.room_id));
                    if cur.contains(recs[i].room_id) {
                        let k = choose|k: int| 0 <= k < cur.len() && cur[k] == recs[i].room_id;
                        if k < prev.len() {
                            assert(prev[k] == cur[k]);
                        }
                    }
                    if prev.contains(recs[i].room_id) {
                        let k = choose|k: int| 0 <= k < prev.len() && prev[k] == recs[i].room_id;
                        assert(cur[k] == prev[k]);
                    }
                }
            } else {
                if record_is_stale(last, now, threshold) {
                    assert(cur[prev.len() as int] == last.room_id);
                }
            }
        }
    }
}

/// An in-memory store of tracked rooms, keyed by room id.
pub struct RoomStore {
    records: Vec<RoomRecord>,
}

impl View for RoomStore {
    type V = Seq<RoomRecord>;

    closed spec fn view(&self) -> Seq<RoomRecord> {
        self.records@
    }
}

impl RoomStore {
    /// Well-formedness: no two records share a key.
    pub open spec fn wf(&self) -> bool {
        keys_unique(self@)
    }

    /// An empty store.
    pub fn new() -> (r: RoomStore)
        ensures
            r.wf(),
            r@ == Seq::<RoomRecord>::empty(),
    {
        RoomStore { records: Vec::new() }
    }

    /// The records, in store order.
    pub fn records(&self) -> (r: &Vec<RoomRecord>)
        ensures
            r@ == self@,
    {
        &self.records
    }

    /// The index of the record of room `room_id`, if there is one.
    fn find_room(&self, room_id: i64) -> (r: Option<usize>)
        requires
            self.wf(),
        ensures
            match r {
                Some(i) => i < self@.len() && self@[i as int].room_id == room_id,
                None => !has_room(self@, room_id),
            },
    {
        let mut i: usize = 0;
        while i < self.records.len()
            invariant
                i <= self.records@.len(),
                forall|j: int| 0 <= j < i ==> #[trigger] self.records@[j].room_id != room_id,
            decreases self.records@.len() - i,
        {
            if self.records[i].room_id == room_id {
                return Some(i);
            }
            i = i + 1;
        }
        None
    }

    /// The index of the record with surrogate key `local_id`, if there is one.
    fn find_local(&self, local_id: i32) -> (r: Option<usize>)
        requires
            self.wf(),
        ensures
            match r {
                Some(i) => i < self@.len() && self@[i as int].local_id == Some(local_id),
                None => !has_local_id(self@, local_id),
            },
    {
        let mut i: usize = 0;
        while i < self.records.len()
            invariant
                i <= self.records@.len(),
                forall|j: int|
                    0 <= j < i ==> #[trigger] self.records@[j].local_id != Some(local_id),
            decreases self.records@.len() - i,
        {
            if let Some(l) = self.records[i].local_id {
                if l == local_id {
                    return Some(i);
                }
            }
            i = i + 1;
        }
        None
    }

    /// Starts tracking a room. Refused, leaving the store as it is, when a record
    /// with the same room id or the same surrogate key exists already.
    pub fn register(&mut self, record: RoomRecord) -> (added: bool)
        requires
            old(self).wf(),
        ensures
            final(self).wf(),
            added == (!has_room(old(self)@, record.room_id) && match record.local_id {
                Some(l) => !has_local_id(old(self)@, l),
                None => true,
            }),
            added ==> final(self)@ == old(self)@.push(record),
            !added ==> final(self)@ == old(self)@,
    {
        if self.find_room(record.room_id).is_some() {
            return false;
        }
        if let Some(l) = record.local_id {
            if self.find_local(l).is_some() {
                return false;
            }
        }
        let ghost before = self@;
        self.records.push(record);
        proof {
            let recs = self@;
            let n = before.len() as int;
            assert forall|i: int, j: int|
                0 <= i < recs.len() && 0 <= j < recs.len() && i != j implies #[trigger] recs[i].room_id
                != #[trigger] recs[j].room_id by {
                if i < n && j < n {
                    assert(recs[i] == before[i] && recs[j] == before[j]);
                } else if i < n {
                    assert(recs[i] == before[i]);
                } else {
                    assert(recs[j] == before[j]);
                }
            }
            assert forall|i: int, j: int|
                0 <= i < recs.len() && 0 <= j < recs.len() && i != j && (
                #[trigger] recs[i].local_id) is Some implies recs[i].local_id
                != #[trigger] recs[j].local_id by {
                if i < n && j < n {
                    assert(recs[i] == before[i] && recs[j] == before[j]);
                } else if i < n {
                    assert(recs[i] == before[i]);
                } else {
                    assert(recs[j] == before[j]);
                }
            }
        }
        true
    }

    /// The rooms due for a recheck at `now`: every room never reconciled, and
    /// every room last reconciled before `now - threshold`; in store order, each
    /// once.
    pub fn get_stale(&self, now: i64, threshold: i64) -> (r: Vec<i64>)
        requires
            self.wf(),
        ensures
            r@ == stale_ids(self@, now, threshold),
            forall|i: int|
                0 <= i < self@.len() ==> (r@.contains(#[trigger] self@[i].room_id)
                    <==> record_is_stale(self@[i], now, threshold)),
            forall|i: int|
                0 <= i < self@.len() && (#[trigger] self@[i]).last_refreshed_at is None
                    ==> r@.contains(self@[i].room_id),
            forall|k: int|
                0 <= k < r@.len() ==> is_stale_room(self@, #[trigger] r@[k], now, threshold),
            r@.no_duplicates(),
    {
        let mut r: Vec<i64> = Vec::new();
        let mut i: usize = 0;
        while i < self.records.len()
            invariant
                i <= self.records@.len(),
                r@ == stale_ids(self.records@.subrange(0, i as int), now, threshold),
            decreases self.records@.len() - i,
        {
            let rec = &self.records[i];
            let stale = match rec.last_refreshed_at {
                None => true,
                Some(t) => (t as i128) < (now as i128) - (threshold as i128),
            };
            proof {
                let next = self.records@.subrange(0, i + 1);
                assert(next.drop_last() =~= self.records@.subrange(0, i as int));
                assert(next.last() == self.records@[i as int]);
            }
            if stale {
                r.push(rec.room_id);
            }
            i = i + 1;
        }
        proof {
            assert(self.records@.subrange(0, self.records@.len() as int) =~= self.records@);
            lemma_stale_ids_members(self@, now, threshold);
        }
        r
    }

    /// Reconciles room `room_id` with `new_status` at `now`: atomically reads the
    /// stored status, writes `new_status`, moves the refresh time to `now` (never
    /// backwards), and reports whether the stored status differed. A room with no
    /// record is an error, and the store is left as it is: rooms are never
    /// created here.
    pub fn compare_and_set(&mut self, room_id: i64, new_status: LiveStatus, now: i64) -> (r: Result<
        bool,
        DbOperationError,
    >)
        requires
            old(self).wf(),
        ensures
            final(self).wf(),
            has_room(old(self)@, room_id) ==> r == Ok::<bool, DbOperationError>(
                status_differs(old(self)@, room_id, new_status),
            ) && final(self)@ == set_status(old(self)@, room_id, new_status, now),
            !has_room(old(self)@, room_id) ==> r == Err::<bool, DbOperationError>(
                DbOperationError::NoResult,
            ) && final(self)@ == old(self)@,
            forall|i: int|
                0 <= i < old(self)@.len() && #[trigger] old(self)@[i].room_id == room_id ==> {
                    &&& r == Ok::<bool, DbOperationError>(old(self)@[i].status != new_status)
                    &&& final(self)@ == old(self)@.update(
                        i,
                        refreshed(old(self)@[i], new_status, now),
                    )
                    &&& final(self)@[i].status == new_status
                    &&& final(self)@[i].last_refreshed_at matches Some(t) && (match old(
                        self,
                    )@[i].last_refreshed_at {
                        Some(p) => t >= p,
                        None => true,
                    }) && t >= now
                },
    {
        match self.find_room(room_id) {
            None => Err(DbOperationError::NoResult),
            Some(i) => {
                let ghost before = self@;
                let changed = self.records[i].status != new_status;
                let t = match self.records[i].last_refreshed_at {
                    Some(p) => if p > now { p } else { now },
                    None => now,
                };
                self.records[i].status = new_status;
                self.records[i].last_refreshed_at = Some(t);
                proof {
                    let after = self@;
                    assert(after =~= before.update(i as int, refreshed(before[i as int], new_status, now)));
                    assert(after =~= set_status(before, room_id, new_status, now)) by {
                        assert forall|j: int| 0 <= j < before.len() && j != i implies before[j].room_id != room_id by {
                            assert(before[j].room_id != before[i as int].room_id);
                        }
                    }
                    if changed {
                        assert(status_differs(before, room_id, new_status));
                    } else {
                        assert forall|j: int| 0 <= j < before.len() && #[trigger] before[j].room_id == room_id
                            implies before[j].status == new_status by {
                            if j != i {
                                assert(before[j].room_id != before[i as int].room_id);
                            }
                        }
                    }
                    assert forall|a: int, b: int|
                        0 <= a < after.len() && 0 <= b < after.len() && a != b implies #[trigger] after[a].room_id
                        != #[trigger] after[b].room_id by {
                        assert(after[a].room_id == before[a].room_id);
                        assert(after[b].room_id == before[b].room_id);
                    }
                    assert forall|a: int, b: int|
                        0 <= a < after.len() && 0 <= b < after.len() && a != b && (
                        #[trigger] after[a].local_id) is Some implies after[a].local_id
                        != #[trigger] after[b].local_id by {
                        assert(after[a].local_id == before[a].local_id);
                        assert(after[b].local_id == before[b].local_id);
                    }
                    assert forall|j: int| 0 <= j < before.len() && #[trigger] before[j].room_id == room_id
                        implies j == i by {
                        if j != i {
                            assert(before[j].room_id != before[i as int].room_id);
                        }
                    }
                }
                Ok(changed)
            },
        }
    }
}

/// Queries on a store of tracked rooms.
#[derive(Clone, Debug)]
pub struct RoomsOperator;

impl RoomsOperator {
    /// Looks a room up by its surrogate key `pid` or, when none is given, by its
    /// room id `rid`. Fails with `NoIdForRoomsError` when neither is given, and
    /// with `NoResult` when no record has the key used.
    pub fn get_status_by_id(store: &RoomStore, pid: Option<i32>, rid: Option<i64>) -> (r: Result<
        Room,
        DbOperationError,
    >)
        requires
            store.wf(),
        ensures
            pid is None && rid is None ==> r == Err::<Room, DbOperationError>(
                DbOperationError::NoIdForRoomsError,
            ),
            pid matches Some(p) ==> {
                &&& !has_local_id(store@, p) ==> r == Err::<Room, DbOperationError>(
                    DbOperationError::NoResult,
                )
                &&& forall|i: int|
                    0 <= i < store@.len() && #[trigger] store@[i].local_id == Some(p) ==> r
                        == Ok::<Room, DbOperationError>(room_of(store@[i]))
            },
            pid is None ==> (rid matches Some(id) ==> {
                &&& !has_room(store@, id) ==> r == Err::<Room, DbOperationError>(
                    DbOperationError::NoResult,
                )
                &&& forall|i: int|
                    0 <= i < store@.len() && #[trigger] store@[i].room_id == id ==> r == Ok::<
                        Room,
                        DbOperationError,
                    >(room_of(store@[i]))
            }),
    {
        let found = match pid {
            Some(p) => store.find_local(p),
            None => match rid {
                Some(id) => store.find_room(id),
                None => {
                    return Err(DbOperationError::NoIdForRoomsError);
                },
            },
        };
        match found {
            None => Err(DbOperationError::NoResult),
            Some(i) => {
                let rec = &store.records()[i];
                let room = Room {
                    room_id: rec.room_id,
                    status: Some(rec.status),
                    username: rec.display_name.clone(),
                };
                proof {
                    let recs = store@;
                    assert forall|j: int|
                        0 <= j < recs.len() && j != i implies recs[j].room_id != recs[i as int].room_id
                        && (recs[i as int].local_id is Some ==> recs[j].local_id
                        != recs[i as int].local_id) by {}
                }
                Ok(room)
            },
        }
    }

    /// The rooms pending a recheck at `now` with a staleness window of
    /// `threshold` seconds: exactly those of `RoomStore::get_stale`.
    pub fn get_pending(store: &RoomStore, now: i64, threshold: i64) -> (r: Vec<i64>)
        requires
            store.wf(),
        ensures
            r@ == stale_ids(store@, now, threshold),
            r@.no_duplicates(),
    {
        store.get_stale(now, threshold)
    }

    /// Reconciles every room that a status query described against the store at
    /// `now`, and returns the rooms whose stored status changed, in order. Rooms
    /// without a record are skipped.
    pub fn update_status(store: &mut RoomStore, new: &MultiLiveRoomStatus, now: i64) -> (r: Vec<
        i64,
    >)
        requires
            old(store).wf(),
        ensures
            final(store).wf(),
            final(store)@ == reconcile_all(old(store)@, fetched_of(new.data@), now),
            r@ == changed_rooms(old(store)@, fetched_of(new.data@), now),
    {
        let entries = new.statuses();
        let mut report = SyncReport::new();
        reconcile_batch(store, &entries, now, &mut report);
        proof {
            assert(report.changed@ =~= changed_rooms(old(store)@, entries@, now));
        }
        report.changed
    }
}

} // verus!
