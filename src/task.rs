//! One synchronisation pass: select the stale rooms, split them into batches,
//! and reconcile each batch's remote statuses against the store.
//!
//! The remote query is the caller's: a `SyncPass` hands out one batch at a time
//! and takes back what the query returned, so that the caller performs the
//! network calls, may run them as it likes, and may stop at any batch boundary
//! without losing the changes found so far.
use vstd::prelude::*;
use crate::batcher::{batches_view, chunk, is_chunking};
use crate::config::Config;
use crate::db::{has_room, set_status, stale_ids, status_differs, RoomRecord, RoomStore};
use crate::response_type::{status_of_code, LiveStatus};

verus! {

/// One room's status as the remote platform returned it, not yet decoded.
#[derive(Debug, Clone, Copy, PartialEq, Eq, Structural)]
pub struct FetchedStatus {
    pub room_id: i64,
    pub raw_status: i64,
}

/// The remote query for a whole batch failed.
#[derive(Debug, Clone, PartialEq, Eq)]
pub struct FetchBatchFailed {
    pub reason: String,
}

/// A batch whose remote query failed; its rooms keep their status and stay
/// stale, so the next pass selects them again.
#[derive(Debug, Clone, PartialEq, Eq)]
pub struct FailedBatch {
    pub room_ids: Vec<i64>,
    pub reason: String,
}

/// What a pass found: the rooms whose stored status changed, and the failures
/// that did not stop it.
#[derive(Debug, Clone, PartialEq, Eq)]
pub struct SyncReport {
    /// Rooms whose stored status differed from the one written.
    pub changed: Vec<i64>,
    /// Batches whose remote query failed.
    pub failed_batches: Vec<FailedBatch>,
    /// Returned statuses with a raw code that is none of the known ones; those
    /// rooms were not reconciled and stay stale.
    pub undecodable: Vec<FetchedStatus>,
    /// Returned rooms that have no record in the store; skipped.
    pub not_found: Vec<i64>,
}

impl SyncReport {
    /// A report of nothing.
    pub fn new() -> (r: SyncReport)
        ensures
            r.changed@.len() == 0,
            r.failed_batches@.len() == 0,
            r.undecodable@.len() == 0,
            r.not_found@.len() == 0,
    {
        SyncReport {
            changed: Vec::new(),
            failed_batches: Vec::new(),
            undecodable: Vec::new(),
            not_found: Vec::new(),
        }
    }
}

/// The records after reconciling one returned status: a known code is written
/// to the room's record, an unknown one changes nothing.
pub open spec fn reconcile_step(recs: Seq<RoomRecord>, e: FetchedStatus, now: i64) -> Seq<
    RoomRecord,
> {
    match status_of_code(e.raw_status as int) {
        Some(s) => set_status(recs, e.room_id, s, now),
        None => recs,
    }
}

/// The records after reconciling the returned statuses `es` in order.
pub open spec fn reconcile_all(recs: Seq<RoomRecord>, es: Seq<FetchedStatus>, now: i64) -> Seq<
    RoomRecord,
>
    decreases es.len(),
{
    if es.len() == 0 {
        recs
    } else {
        reconcile_step(reconcile_all(recs, es.drop_last(), now), es.last(), now)
    }
}

/// The rooms whose stored status differed from the one written, in the order of `es`.
pub open spec fn changed_rooms(recs: Seq<RoomRecord>, es: Seq<FetchedStatus>, now: i64) -> Seq<i64>
    decreases es.len(),
{
    if es.len() == 0 {
        Seq::empty()
    } else {
        let prev = changed_rooms(recs, es.drop_last(), now);
        let before = reconcile_all(recs, es.drop_last(), now);
        let e = es.last();
        match status_of_code(e.raw_status as int) {
            Some(s) => if status_differs(before, e.room_id, s) {
                prev.push(e.room_id)
            } else {
                prev
            },
            None => prev,
        }
    }
}

/// The rooms returned with a known code but without a record, in the order of `es`.
pub open spec fn missing_rooms(recs: Seq<RoomRecord>, es: Seq<FetchedStatus>, now: i64) -> Seq<i64>
    decreases es.len(),
{
    if es.len() == 0 {
        Seq::empty()
    } else {
        let prev = missing_rooms(recs, es.drop_last(), now);
        let before = reconcile_all(recs, es.drop_last(), now);
        let e = es.last();
        match status_of_code(e.raw_status as int) {
            Some(s) => if !has_room(before, e.room_id) {
                prev.push(e.room_id)
            } else {
                prev
            },
            None => prev,
        }
    }
}

/// The returned statuses whose code is unknown, in the order of `es`.
pub open spec fn undecodable_entries(es: Seq<FetchedStatus>) -> Seq<FetchedStatus>
    decreases es.len(),
{
    if es.len() == 0 {
        Seq::empty()
    } else {
        let prev = undecodable_entries(es.drop_last());
        if status_of_code(es.last().raw_status as int) is None {
            prev.push(es.last())
        } else {
            prev
        }
    }
}

/// Reconciles one batch's returned statuses against the store at `now`, in
/// order. A known code is compare-and-set on the room's record, and the room
/// is reported as changed when its stored status differed; an unknown code is
/// reported and leaves the room as it was; a room without a record is reported
/// and skipped.
pub fn reconcile_batch(
    store: &mut RoomStore,
    entries: &Vec<FetchedStatus>,
    now: i64,
    report: &mut SyncReport,
)
    requires
        old(store).wf(),
    ensures
        final(store).wf(),
        final(store)@ == reconcile_all(old(store)@, entries@, now),
        final(report).changed@ == old(report).changed@ + changed_rooms(old(store)@, entries@, now),
        final(report).not_found@ == old(report).not_found@ + missing_rooms(
            old(store)@,
            entries@,
            now,
        ),
        final(report).undecodable@ == old(report).undecodable@ + undecodable_entries(entries@),
        final(report).failed_batches@ == old(report).failed_batches@,
{
    let ghost recs0 = store@;
    let ghost changed0 = report.changed@;
    let ghost missing0 = report.not_found@;
    let ghost undecodable0 = report.undecodable@;
    let ghost failed0 = report.failed_batches@;
    let mut i: usize = 0;
    while i < entries.len()
        invariant
            i <= entries@.len(),
            store.wf(),
            store@ == reconcile_all(recs0, entries@.subrange(0, i as int), now),
            report.changed@ == changed0 + changed_rooms(recs0, entries@.subrange(0, i as int), now),
            report.not_found@ == missing0 + missing_rooms(
                recs0,
                entries@.subrange(0, i as int),
                now,
            ),
            report.undecodable@ == undecodable0 + undecodable_entries(
                entries@.subrange(0, i as int),
            ),
            report.failed_batches@ == failed0,
        decreases entries@.len() - i,
    {
        let e = entries[i];
        let ghost pre = entries@.subrange(0, i as int);
        let ghost next = entries@.subrange(0, i + 1);
        proof {
            assert(next.drop_last() =~= pre);
            assert(next.last() == e);
        }
        match LiveStatus::decode(e.raw_status) {
            Err(_) => {
                report.undecodable.push(e);
                proof {
                    assert(undecodable0 + undecodable_entries(pre).push(e) =~= (undecodable0
                        + undecodable_entries(pre)).push(e));
                }
            },
            Ok(s) => {
                let ghost before = store@;
                match store.compare_and_set(e.room_id, s, now) {
                    Ok(changed) => {
                        if changed {
                            report.changed.push(e.room_id);
                            proof {
                                assert(changed0 + changed_rooms(recs0, pre, now).push(e.room_id)
                                    =~= (changed0 + changed_rooms(recs0, pre, now)).push(
                                    e.room_id,
                                ));
                            }
                        }
                    },
                    Err(_) => {
                        report.not_found.push(e.room_id);
                        proof {
                            assert(set_status(before, e.room_id, s, now) =~= before);
                            assert(missing0 + missing_rooms(recs0, pre, now).push(e.room_id)
                                =~= (missing0 + missing_rooms(recs0, pre, now)).push(e.room_id));
                        }
                    },
                }
            },
        }
        i = i + 1;
    }
    proof {
        assert(entries@.subrange(0, entries@.len() as int) =~= entries@);
    }
}

/// No room is returned twice.
pub open spec fn response_keys_unique(es: Seq<FetchedStatus>) -> bool {
    forall|a: int, b: int|
        0 <= a < es.len() && 0 <= b < es.len() && a != b ==> #[trigger] es[a].room_id
            != #[trigger] es[b].room_id
}

/// Every record of a room in `es` with a known code holds that code's status.
pub open spec fn agrees_with(recs: Seq<RoomRecord>, es: Seq<FetchedStatus>) -> bool {
    forall|k: int, i: int|
        0 <= k < es.len() && 0 <= i < recs.len() && #[trigger] recs[i].room_id
            == #[trigger] es[k].room_id ==> status_of_code(es[k].raw_status as int) is None
            || status_of_code(es[k].raw_status as int) == Some(recs[i].status)
}

/// After reconciling a prefix of `es`, the records agree with that prefix.
pub proof fn lemma_reconcile_establishes(recs: Seq<RoomRecord>, es: Seq<FetchedStatus>, now: i64, j: int)
    requires
        response_keys_unique(es),
        0 <= j <= es.len(),
    ensures
        agrees_with(reconcile_all(recs, es.subrange(0, j), now), es.subrange(0, j)),
        reconcile_all(recs, es.subrange(0, j), now).len() == recs.len(),
    decreases j,
{
    if j > 0 {
        lemma_reconcile_establishes(recs, es, now, j - 1);
        let pre = es.subrange(0, j - 1);
        let cur = es.subrange(0, j);
        assert(cur.drop_last() =~= pre);
        let before = reconcile_all(recs, pre, now);
        let after = reconcile_all(recs, cur, now);
        let e = es[j - 1];
        assert(after == reconcile_step(before, e, now));
        assert forall|k: int, i: int|
            0 <= k < cur.len() && 0 <= i < after.len() && #[trigger] after[i].room_id
                == #[trigger] cur[k].room_id implies status_of_code(cur[k].raw_status as int) is None
            || status_of_code(cur[k].raw_status as int) == Some(after[i].status) by {
            assert(after[i].room_id == before[i].room_id);
            if k < j - 1 {
                assert(cur[k] == pre[k] && cur[k] == es[k]);
                assert(es[k].room_id != es[j - 1].room_id);
                assert(after[i] == before[i]);
            }
        }
    }
}

/// Reconciling a prefix of `es` against records that agree with all of `es`
/// keeps them agreeing and finds no changed room.
pub proof fn lemma_reconcile_settled(recs: Seq<RoomRecord>, es: Seq<FetchedStatus>, now: i64, j: int)
    requires
        response_keys_unique(es),
        agrees_with(recs, es),
        0 <= j <= es.len(),
    ensures
        agrees_with(reconcile_all(recs, es.subrange(0, j), now), es),
        reconcile_all(recs, es.subrange(0, j), now).len() == recs.len(),
        changed_rooms(recs, es.subrange(0, j), now).len() == 0,
    decreases j,
{
    if j > 0 {
        lemma_reconcile_settled(recs, es, now, j - 1);
        let pre = es.subrange(0, j - 1);
        let cur = es.subrange(0, j);
        assert(cur.drop_last() =~= pre);
        let before = reconcile_all(recs, pre, now);
        let after = reconcile_all(recs, cur, now);
        let e = es[j - 1];
        assert(cur.last() == e);
        assert(after == reconcile_step(before, e, now));
        if let Some(s) = status_of_code(e.raw_status as int) {
            assert(!status_differs(before, e.room_id, s)) by {
                assert forall|i: int|
                    0 <= i < before.len() && #[trigger] before[i].room_id == e.room_id implies before[i].status
                    == s by {
                    assert(before[i].room_id == es[j - 1].room_id);
                }
            }
        }
        assert forall|k: int, i: int|
            0 <= k < es.len() && 0 <= i < after.len() && #[trigger] after[i].room_id
                == #[trigger] es[k].room_id implies status_of_code(es[k].raw_status as int) is None
            || status_of_code(es[k].raw_status as int) == Some(after[i].status) by {
            assert(after[i].room_id == before[i].room_id);
            if k != j - 1 {
                assert(es[k].room_id != es[j - 1].room_id);
                assert(after[i] == before[i]);
            }
        }
    }
}

/// Reconciling the same returned statuses a second time, with nothing changed
/// remotely in between, finds no changed room, whenever it happens.
pub proof fn lemma_reconcile_idempotent(
    recs: Seq<RoomRecord>,
    es: Seq<FetchedStatus>,
    now1: i64,
    now2: i64,
)
    requires
        response_keys_unique(es),
    ensures
        changed_rooms(reconcile_all(recs, es, now1), es, now2).len() == 0,
{
    lemma_reconcile_establishes(recs, es, now1, es.len() as int);
    assert(es.subrange(0, es.len() as int) =~= es);
    lemma_reconcile_settled(reconcile_all(recs, es, now1), es, now2, es.len() as int);
}

/// One synchronisation pass in progress: the batches of the rooms that were
/// stale when it started, how many of them are done, and what was found so far.
pub struct SyncPass {
    chunks: Vec<Vec<i64>>,
    next: usize,
    report: SyncReport,
}

impl SyncPass {
    /// The batches of the pass, in order.
    pub closed spec fn batches(&self) -> Seq<Seq<i64>> {
        batches_view(self.chunks@)
    }

    /// How many batches are done.
    pub closed spec fn position(&self) -> int {
        self.next as int
    }

    /// What was found so far.
    pub closed spec fn spec_report(&self) -> SyncReport {
        self.report
    }

    /// Well-formedness: no more batches are done than there are.
    pub closed spec fn wf(&self) -> bool {
        self.next <= self.chunks@.len()
    }

    /// Starts a pass at `now`: the rooms of `store` that are stale under the
    /// configured window, split into batches of the configured size. With no
    /// stale room there is no batch, and the pass is done at once.
    pub fn start(store: &RoomStore, cfg: &Config, now: i64) -> (p: SyncPass)
        requires
            store.wf(),
        ensures
            p.wf(),
            is_chunking(
                stale_ids(store@, now, cfg.spec_duration()),
                p.batches(),
                cfg.spec_query_amount() as int,
            ),
            p.position() == 0,
            p.spec_report().changed@.len() == 0,
            p.spec_report().failed_batches@.len() == 0,
            p.spec_report().undecodable@.len() == 0,
            p.spec_report().not_found@.len() == 0,
    {
        let stale = store.get_stale(now, cfg.duration());
        let chunks = chunk(&stale, cfg.query_amount());
        SyncPass { chunks, next: 0, report: SyncReport::new() }
    }

    /// The next batch to query, or `None` when every batch is done.
    pub fn next_batch(&self) -> (r: Option<&Vec<i64>>)
        requires
            self.wf(),
        ensures
            self.position() < self.batches().len() ==> (r matches Some(b) && b@ == self.batches()[self.position()]),
            self.position() >= self.batches().len() ==> r is None,
    {
        if self.next < self.chunks.len() {
            Some(&self.chunks[self.next])
        } else {
            None
        }
    }

    /// Whether every batch is done.
    pub fn is_done(&self) -> (r: bool)
        requires
            self.wf(),
        ensures
            r == (self.position() >= self.batches().len()),
    {
        self.next >= self.chunks.len()
    }

    /// Completes the next batch with what its remote query returned, at `now`.
    /// A failed query is recorded with the batch's rooms, and changes neither
    /// the store nor the changed rooms: those rooms keep their status and stay
    /// stale. Returned statuses are reconciled as `reconcile_batch` does. When
    /// every batch is done already, nothing changes.
    pub fn complete_batch(
        &mut self,
        store: &mut RoomStore,
        fetched: Result<Vec<FetchedStatus>, FetchBatchFailed>,
        now: i64,
    )
        requires
            old(self).wf(),
            old(store).wf(),
        ensures
            final(self).wf(),
            final(store).wf(),
            final(self).batches() == old(self).batches(),
            old(self).position() >= old(self).batches().len() ==> *final(self) == *old(self)
                && final(store)@ == old(store)@,
            old(self).position() < old(self).batches().len() ==> {
                let rep0 = old(self).spec_report();
                let rep = final(self).spec_report();
                &&& final(self).position() == old(self).position() + 1
                &&& match fetched {
                    Err(f) => {
                        &&& final(store)@ == old(store)@
                        &&& rep.changed@ == rep0.changed@
                        &&& rep.not_found@ == rep0.not_found@
                        &&& rep.undecodable@ == rep0.undecodable@
                        &&& rep.failed_batches@.len() == rep0.failed_batches@.len() + 1
                        &&& rep.failed_batches@.drop_last() == rep0.failed_batches@
                        &&& rep.failed_batches@.last().room_ids@ == old(self).batches()[old(
                            self,
                        ).position()]
                        &&& rep.failed_batches@.last().reason == f.reason
                    },
                    Ok(es) => {
                        &&& final(store)@ == reconcile_all(old(store)@, es@, now)
                        &&& rep.changed@ == rep0.changed@ + changed_rooms(old(store)@, es@, now)
                        &&& rep.not_found@ == rep0.not_found@ + missing_rooms(
                            old(store)@,
                            es@,
                            now,
                        )
                        &&& rep.undecodable@ == rep0.undecodable@ + undecodable_entries(es@)
                        &&& rep.failed_batches@ == rep0.failed_batches@
                    },
                }
            },
    {
        if self.next >= self.chunks.len() {
            return;
        }
        match fetched {
            Err(f) => {
                let room_ids = self.chunks[self.next].clone();
                proof {
                    assert(room_ids@ =~= self.chunks@[self.next as int]@);
                }
                let ghost failed0 = self.report.failed_batches@;
                self.report.failed_batches.push(FailedBatch { room_ids, reason: f.reason });
                proof {
                    assert(self.report.failed_batches@.drop_last() =~= failed0);
                }
            },
            Ok(es) => {
                reconcile_batch(store, &es, now, &mut self.report);
            },
        }
        self.next = self.next + 1;
    }

    /// What was found so far.
    pub fn report(&self) -> (r: &SyncReport)
        ensures
            *r == self.spec_report(),
    {
        &self.report
    }

    /// Ends the pass, done or not, and hands over what was found. Stopping
    /// before the last batch loses none of the changes found so far.
    pub fn finish(self) -> (r: SyncReport)
        ensures
            r == self.spec_report(),
    {
        self.report
    }
}

} // verus!
