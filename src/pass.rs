//! A whole synchronisation pass against a remote state that does not change,
//! and what two such passes in a row do.
use vstd::prelude::*;
use crate::db::{keys_unique, record_is_stale, stale_ids, lemma_stale_ids_members, is_stale_room, RoomRecord};
use crate::response_type::status_of_code;
use crate::task::{
    agrees_with, changed_rooms, lemma_reconcile_establishes, lemma_reconcile_settled,
    reconcile_all, response_keys_unique, FetchedStatus,
};

verus! {

/// The remote platform's answer for the rooms `ids`, in order: each room that
/// `remote` knows, with its raw code.
pub open spec fn answer_of(ids: Seq<i64>, remote: Map<i64, i64>) -> Seq<FetchedStatus>
    decreases ids.len(),
{
    if ids.len() == 0 {
        Seq::empty()
    } else {
        let prev = answer_of(ids.drop_last(), remote);
        let id = ids.last();
        if remote.contains_key(id) {
            prev.push(FetchedStatus { room_id: id, raw_status: remote[id] })
        } else {
            prev
        }
    }
}

/// The records after reconciling the answers to the batches `bs` one after
/// the other.
pub open spec fn reconcile_batches(
    recs: Seq<RoomRecord>,
    bs: Seq<Seq<i64>>,
    remote: Map<i64, i64>,
    now: i64,
) -> Seq<RoomRecord>
    decreases bs.len(),
{
    if bs.len() == 0 {
        recs
    } else {
        reconcile_all(reconcile_batches(recs, bs.drop_last(), remote, now), answer_of(bs.last(), remote), now)
    }
}

/// The changed rooms found when reconciling the answers to the batches `bs`
/// one after the other.
pub open spec fn changed_batches(
    recs: Seq<RoomRecord>,
    bs: Seq<Seq<i64>>,
    remote: Map<i64, i64>,
    now: i64,
) -> Seq<i64>
    decreases bs.len(),
{
    if bs.len() == 0 {
        Seq::empty()
    } else {
        changed_batches(recs, bs.drop_last(), remote, now) + changed_rooms(
            reconcile_batches(recs, bs.drop_last(), remote, now),
            answer_of(bs.last(), remote),
            now,
        )
    }
}

/// The records after a pass at `now` in which every query succeeds and
/// answers from `remote`.
pub open spec fn records_after_pass(
    recs: Seq<RoomRecord>,
    remote: Map<i64, i64>,
    now: i64,
    threshold: i64,
) -> Seq<RoomRecord> {
    reconcile_all(recs, answer_of(stale_ids(recs, now, threshold), remote), now)
}

/// The changed rooms of a pass at `now` in which every query succeeds and
/// answers from `remote`.
pub open spec fn changed_in_pass(
    recs: Seq<RoomRecord>,
    remote: Map<i64, i64>,
    now: i64,
    threshold: i64,
) -> Seq<i64> {
    changed_rooms(recs, answer_of(stale_ids(recs, now, threshold), remote), now)
}

proof fn lemma_answer_concat(a: Seq<i64>, b: Seq<i64>, remote: Map<i64, i64>)
    ensures
        answer_of(a + b, remote) == answer_of(a, remote) + answer_of(b, remote),
    decreases b.len(),
{
    if b.len() == 0 {
        assert(a + b =~= a);
        assert(answer_of(a, remote) + answer_of(b, remote) =~= answer_of(a, remote));
    } else {
        lemma_answer_concat(a, b.drop_last(), remote);
        assert((a + b).drop_last() =~= a + b.drop_last());
        assert((a + b).last() == b.last());
        let x = answer_of(a, remote);
        let y = answer_of(b.drop_last(), remote);
        if remote.contains_key(b.last()) {
            let e = FetchedStatus { room_id: b.last(), raw_status: remote[b.last()] };
            assert((x + y).push(e) =~= x + y.push(e));
        }
    }
}

proof fn lemma_reconcile_concat(recs: Seq<RoomRecord>, a: Seq<FetchedStatus>, b: Seq<FetchedStatus>, now: i64)
    ensures
        reconcile_all(recs, a + b, now) == reconcile_all(reconcile_all(recs, a, now), b, now),
        changed_rooms(recs, a + b, now) == changed_rooms(recs, a, now) + changed_rooms(
            reconcile_all(recs, a, now),
            b,
            now,
        ),
    decreases b.len(),
{
    if b.len() == 0 {
        assert(a + b =~= a);
        assert(changed_rooms(recs, a, now) + changed_rooms(reconcile_all(recs, a, now), b, now)
            =~= changed_rooms(recs, a, now));
    } else {
        lemma_reconcile_concat(recs, a, b.drop_last(), now);
        assert((a + b).drop_last() =~= a + b.drop_last());
        assert((a + b).last() == b.last());
        let x = changed_rooms(recs, a, now);
        let y = changed_rooms(reconcile_all(recs, a, now), b.drop_last(), now);
        assert((x + y).push(b.last().room_id) =~= x + y.push(b.last().room_id));
    }
}

/// Reconciling the answers batch after batch is reconciling the answer for all
/// the batches' rooms at once, and finds the same changed rooms.
pub proof fn lemma_batches_compose(
    recs: Seq<RoomRecord>,
    bs: Seq<Seq<i64>>,
    remote: Map<i64, i64>,
    now: i64,
)
    ensures
        reconcile_batches(recs, bs, remote, now) == reconcile_all(
            recs,
            answer_of(bs.flatten(), remote),
            now,
        ),
        changed_batches(recs, bs, remote, now) == changed_rooms(
            recs,
            answer_of(bs.flatten(), remote),
            now,
        ),
    decreases bs.len(),
{
    if bs.len() == 0 {
        assert(answer_of(bs.flatten(), remote) =~= Seq::<FetchedStatus>::empty());
    } else {
        let init = bs.drop_last();
        lemma_batches_compose(recs, init, remote, now);
        assert(init.push(bs.last()) =~= bs);
        init.lemma_flatten_push(bs.last());
        lemma_answer_concat(init.flatten(), bs.last(), remote);
        lemma_reconcile_concat(
            recs,
            answer_of(init.flatten(), remote),
            answer_of(bs.last(), remote),
            now,
        );
    }
}

/// What is known of each entry of an answer: the room was asked for, the
/// remote state knows it, and the code is the remote state's.
proof fn lemma_answer_members(ids: Seq<i64>, remote: Map<i64, i64>)
    ensures
        forall|k: int|
            0 <= k < answer_of(ids, remote).len() ==> {
                let e = #[trigger] answer_of(ids, remote)[k];
                &&& ids.contains(e.room_id)
                &&& remote.contains_key(e.room_id)
                &&& e.raw_status == remote[e.room_id]
            },
        forall|j: int|
            0 <= j < ids.len() && remote.contains_key(#[trigger] ids[j]) ==> exists|k: int|
                0 <= k < answer_of(ids, remote).len() && answer_of(ids, remote)[k].room_id
                    == ids[j],
        ids.no_duplicates() ==> response_keys_unique(answer_of(ids, remote)),
    decreases ids.len(),
{
    if ids.len() > 0 {
        let init = ids.drop_last();
        lemma_answer_members(init, remote);
        let prev = answer_of(init, remote);
        let cur = answer_of(ids, remote);
        let last = ids.last();
        assert forall|k: int| 0 <= k < cur.len() implies {
            let e = #[trigger] cur[k];
            &&& ids.contains(e.room_id)
            &&& remote.contains_key(e.room_id)
            &&& e.raw_status == remote[e.room_id]
        } by {
            if k < prev.len() {
                assert(cur[k] == prev[k]);
                let j = choose|j: int| 0 <= j < init.len() && init[j] == prev[k].room_id;
                assert(ids[j] == init[j]);
            } else {
                assert(ids[ids.len() - 1] == last);
            }
        }
        assert forall|j: int| 0 <= j < ids.len() && remote.contains_key(#[trigger] ids[j]) implies exists|k: int|
            0 <= k < cur.len() && cur[k].room_id == ids[j] by {
            if j < init.len() {
                assert(init[j] == ids[j]);
                let k = choose|k: int| 0 <= k < prev.len() && prev[k].room_id == init[j];
                assert(cur[k] == prev[k]);
            } else {
                assert(cur[prev.len() as int].room_id == last);
            }
        }
        if ids.no_duplicates() {
            assert(init.no_duplicates()) by {
                assert forall|a: int, b: int| 0 <= a < init.len() && 0 <= b < init.len() && a != b implies init[a] != init[b] by {
                    assert(init[a] == ids[a] && init[b] == ids[b]);
                }
            }
            assert(!init.contains(last)) by {
                if init.contains(last) {
                    let j = choose|j: int| 0 <= j < init.len() && init[j] == last;
                    assert(ids[j] == ids[ids.len() - 1]);
                }
            }
            assert forall|a: int, b: int|
                0 <= a < cur.len() && 0 <= b < cur.len() && a != b implies #[trigger] cur[a].room_id
                != #[trigger] cur[b].room_id by {
                if a < prev.len() && b < prev.len() {
                    assert(cur[a] == prev[a] && cur[b] == prev[b]);
                } else if a < prev.len() {
                    assert(cur[a] == prev[a]);
                    assert(init.contains(prev[a].room_id));
                } else {
                    assert(cur[b] == prev[b]);
                    assert(init.contains(prev[b].room_id));
                }
            }
        }
    }
}

/// Reconciling keeps every record's keys, and leaves alone the record of each
/// room that `es` does not mention.
proof fn lemma_reconcile_keeps_keys(recs: Seq<RoomRecord>, es: Seq<FetchedStatus>, now: i64)
    ensures
        reconcile_all(recs, es, now).len() == recs.len(),
        forall|i: int|
            0 <= i < recs.len() ==> (#[trigger] reconcile_all(recs, es, now)[i]).room_id
                == recs[i].room_id && reconcile_all(recs, es, now)[i].local_id == recs[i].local_id,
        forall|i: int|
            0 <= i < recs.len() && (forall|k: int| 0 <= k < es.len() ==> es[k].room_id
                != recs[i].room_id) ==> #[trigger] reconcile_all(recs, es, now)[i] == recs[i],
    decreases es.len(),
{
    if es.len() > 0 {
        let init = es.drop_last();
        lemma_reconcile_keeps_keys(recs, init, now);
        let before = reconcile_all(recs, init, now);
        let after = reconcile_all(recs, es, now);
        assert forall|i: int|
            0 <= i < recs.len() && (forall|k: int| 0 <= k < es.len() ==> es[k].room_id
                != recs[i].room_id) implies #[trigger] reconcile_all(recs, es, now)[i] == recs[i] by {
            assert forall|k: int| 0 <= k < init.len() implies init[k].room_id != recs[i].room_id by {
                assert(init[k] == es[k]);
            }
            assert(es.last() == es[es.len() - 1]);
        }
    }
}

/// Two passes in a row against a remote state that does not change: the
/// second finds no changed room. This holds whenever every room that was
/// within the staleness window at the first pass is still within it at the
/// second, which covers a second pass within the window of the first as well
/// as any later one that only rechecks rooms the first pass rechecked.
pub proof fn lemma_second_pass_finds_no_change(
    recs: Seq<RoomRecord>,
    remote: Map<i64, i64>,
    now1: i64,
    now2: i64,
    threshold: i64,
)
    requires
        keys_unique(recs),
        forall|i: int|
            0 <= i < recs.len() && !record_is_stale(#[trigger] recs[i], now1, threshold)
                ==> !record_is_stale(recs[i], now2, threshold),
    ensures
        changed_in_pass(records_after_pass(recs, remote, now1, threshold), remote, now2, threshold).len()
            == 0,
{
    let ids1 = stale_ids(recs, now1, threshold);
    let es1 = answer_of(ids1, remote);
    let recs1 = reconcile_all(recs, es1, now1);
    lemma_stale_ids_members(recs, now1, threshold);
    lemma_answer_members(ids1, remote);
    lemma_reconcile_establishes(recs, es1, now1, es1.len() as int);
    assert(es1.subrange(0, es1.len() as int) =~= es1);
    lemma_reconcile_keeps_keys(recs, es1, now1);
    assert(keys_unique(recs1)) by {
        assert forall|i: int, j: int|
            0 <= i < recs1.len() && 0 <= j < recs1.len() && i != j implies #[trigger] recs1[i].room_id
            != #[trigger] recs1[j].room_id by {
            assert(recs1[i].room_id == recs[i].room_id && recs1[j].room_id == recs[j].room_id);
        }
        assert forall|i: int, j: int|
            0 <= i < recs1.len() && 0 <= j < recs1.len() && i != j && (
            #[trigger] recs1[i].local_id) is Some implies recs1[i].local_id
            != #[trigger] recs1[j].local_id by {
            assert(recs1[i].local_id == recs[i].local_id && recs1[j].local_id == recs[j].local_id);
        }
    }
    let ids2 = stale_ids(recs1, now2, threshold);
    let es2 = answer_of(ids2, remote);
    lemma_stale_ids_members(recs1, now2, threshold);
    lemma_answer_members(ids2, remote);
    assert(agrees_with(recs1, es2)) by {
        assert forall|k: int, i: int|
            0 <= k < es2.len() && 0 <= i < recs1.len() && #[trigger] recs1[i].room_id
                == #[trigger] es2[k].room_id implies status_of_code(es2[k].raw_status as int) is None
            || status_of_code(es2[k].raw_status as int) == Some(recs1[i].status) by {
            let e = es2[k];
            let id = e.room_id;
            assert(ids2.contains(id));
            let m = choose|m: int| 0 <= m < ids2.len() && ids2[m] == id;
            assert(is_stale_room(recs1, ids2[m], now2, threshold));
            let j = choose|j: int|
                0 <= j < recs1.len() && #[trigger] recs1[j].room_id == ids2[m] && record_is_stale(
                    recs1[j],
                    now2,
                    threshold,
                );
            assert(j == i);
            assert(recs1[i].room_id == recs[i].room_id);
            if !record_is_stale(recs[i], now1, threshold) {
                assert(!ids1.contains(recs[i].room_id));
                assert forall|q: int| 0 <= q < es1.len() implies es1[q].room_id != recs[i].room_id by {
                    let f = es1[q];
                    assert(ids1.contains(f.room_id));
                }
                assert(recs1[i] == recs[i]);
            }
            assert(ids1.contains(id));
            let p = choose|p: int| 0 <= p < ids1.len() && ids1[p] == id;
            let q = choose|q: int| 0 <= q < es1.len() && es1[q].room_id == ids1[p];
            assert(es1[q].raw_status == remote[id]);
        }
    }
    lemma_reconcile_settled(recs1, es2, now2, es2.len() as int);
    assert(es2.subrange(0, es2.len() as int) =~= es2);
}

/// What the query for batch `k` answered in a pass where the batches in
/// `failed` fail: nothing for a failed batch, else the remote state's answer.
pub open spec fn batch_answer(bs: Seq<Seq<i64>>, k: int, remote: Map<i64, i64>, failed: Set<int>) -> Seq<
    FetchedStatus,
> {
    if failed.contains(k) {
        Seq::empty()
    } else {
        answer_of(bs[k], remote)
    }
}

/// The records after reconciling the batches `bs` one after the other, where
/// the batches in `failed` fail and the others are answered from `remote`.
pub open spec fn reconcile_batches_failing(
    recs: Seq<RoomRecord>,
    bs: Seq<Seq<i64>>,
    remote: Map<i64, i64>,
    now: i64,
    failed: Set<int>,
) -> Seq<RoomRecord>
    decreases bs.len(),
{
    if bs.len() == 0 {
        recs
    } else {
        reconcile_all(
            reconcile_batches_failing(recs, bs.drop_last(), remote, now, failed),
            batch_answer(bs, bs.len() - 1, remote, failed),
            now,
        )
    }
}

/// The changed rooms found in such a pass: those of the batches that did not
/// fail, in order.
pub open spec fn changed_batches_failing(
    recs: Seq<RoomRecord>,
    bs: Seq<Seq<i64>>,
    remote: Map<i64, i64>,
    now: i64,
    failed: Set<int>,
) -> Seq<i64>
    decreases bs.len(),
{
    if bs.len() == 0 {
        Seq::empty()
    } else {
        changed_batches_failing(recs, bs.drop_last(), remote, now, failed) + changed_rooms(
            reconcile_batches_failing(recs, bs.drop_last(), remote, now, failed),
            batch_answer(bs, bs.len() - 1, remote, failed),
            now,
        )
    }
}

proof fn lemma_member_of_flatten(bs: Seq<Seq<i64>>, f: int, x: i64)
    requires
        0 <= f < bs.len(),
        bs[f].contains(x),
    ensures
        bs.flatten().contains(x),
    decreases bs.len(),
{
    let init = bs.drop_last();
    assert(init.push(bs.last()) =~= bs);
    init.lemma_flatten_push(bs.last());
    let j = choose|j: int| 0 <= j < bs[f].len() && bs[f][j] == x;
    if f == bs.len() - 1 {
        assert(bs.flatten()[init.flatten().len() + j] == x);
    } else {
        assert(init[f] == bs[f]);
        lemma_member_of_flatten(init, f, x);
        let m = choose|m: int| 0 <= m < init.flatten().len() && init.flatten()[m] == x;
        assert(bs.flatten()[m] == x);
    }
}

/// In a pass where some batches fail and no room is in two batches, the rooms
/// of a failed batch keep their records, so their status and their staleness,
/// whatever the other batches bring.
pub proof fn lemma_failed_batch_untouched(
    recs: Seq<RoomRecord>,
    bs: Seq<Seq<i64>>,
    remote: Map<i64, i64>,
    now: i64,
    failed: Set<int>,
    f: int,
)
    requires
        bs.flatten().no_duplicates(),
        0 <= f < bs.len(),
        failed.contains(f),
    ensures
        reconcile_batches_failing(recs, bs, remote, now, failed).len() == recs.len(),
        forall|i: int|
            0 <= i < recs.len() && bs[f].contains(recs[i].room_id) ==> #[trigger] reconcile_batches_failing(
                recs,
                bs,
                remote,
                now,
                failed,
            )[i] == recs[i],
    decreases bs.len(),
{
    let init = bs.drop_last();
    let k = bs.len() - 1;
    assert(init.push(bs.last()) =~= bs);
    init.lemma_flatten_push(bs.last());
    let a = init.flatten();
    let b = bs.last();
    assert(a.no_duplicates() && b.no_duplicates()) by {
        assert forall|p: int, q: int| 0 <= p < a.len() && 0 <= q < a.len() && p != q implies a[p] != a[q] by {
            assert(bs.flatten()[p] == a[p] && bs.flatten()[q] == a[q]);
        }
        assert forall|p: int, q: int| 0 <= p < b.len() && 0 <= q < b.len() && p != q implies b[p] != b[q] by {
            assert(bs.flatten()[a.len() + p] == b[p] && bs.flatten()[a.len() + q] == b[q]);
        }
    }
    let es = batch_answer(bs, k, remote, failed);
    let before = reconcile_batches_failing(recs, init, remote, now, failed);
    lemma_reconcile_keeps_keys(before, es, now);
    lemma_answer_members(b, remote);
    if f < k {
        assert(init[f] == bs[f]);
        lemma_failed_batch_untouched(recs, init, remote, now, failed, f);
        assert forall|i: int|
            0 <= i < recs.len() && bs[f].contains(recs[i].room_id) implies #[trigger] reconcile_batches_failing(
                recs,
                bs,
                remote,
                now,
                failed,
            )[i] == recs[i] by {
            let x = recs[i].room_id;
            assert(before[i] == recs[i]);
            lemma_member_of_flatten(init, f, x);
            assert forall|q: int| 0 <= q < es.len() implies es[q].room_id != before[i].room_id by {
                if !failed.contains(k) {
                    let e = es[q];
                    assert(b.contains(e.room_id));
                    if e.room_id == x {
                        let p = choose|p: int| 0 <= p < a.len() && a[p] == x;
                        let r = choose|r: int| 0 <= r < b.len() && b[r] == x;
                        assert(bs.flatten()[p] == bs.flatten()[a.len() + r]);
                    }
                }
            }
        }
    } else {
        assert(es =~= Seq::<FetchedStatus>::empty());
        assert(reconcile_batches_failing(recs, bs, remote, now, failed) == before);
        lemma_batches_failing_len(recs, init, remote, now, failed);
        assert forall|i: int|
            0 <= i < recs.len() && bs[f].contains(recs[i].room_id) implies #[trigger] reconcile_batches_failing(
                recs,
                bs,
                remote,
                now,
                failed,
            )[i] == recs[i] by {
            let x = recs[i].room_id;
            assert(!a.contains(x)) by {
                if a.contains(x) {
                    let p = choose|p: int| 0 <= p < a.len() && a[p] == x;
                    let r = choose|r: int| 0 <= r < b.len() && b[r] == x;
                    assert(bs.flatten()[p] == bs.flatten()[a.len() + r]);
                }
            }
            lemma_batches_failing_keep_unmentioned(recs, init, remote, now, failed, i);
        }
    }
}

proof fn lemma_batches_failing_len(
    recs: Seq<RoomRecord>,
    bs: Seq<Seq<i64>>,
    remote: Map<i64, i64>,
    now: i64,
    failed: Set<int>,
)
    ensures
        reconcile_batches_failing(recs, bs, remote, now, failed).len() == recs.len(),
    decreases bs.len(),
{
    if bs.len() > 0 {
        lemma_batches_failing_len(recs, bs.drop_last(), remote, now, failed);
        lemma_reconcile_keeps_keys(
            reconcile_batches_failing(recs, bs.drop_last(), remote, now, failed),
            batch_answer(bs, bs.len() - 1, remote, failed),
            now,
        );
    }
}

/// A record whose room no batch holds is left as it is.
proof fn lemma_batches_failing_keep_unmentioned(
    recs: Seq<RoomRecord>,
    bs: Seq<Seq<i64>>,
    remote: Map<i64, i64>,
    now: i64,
    failed: Set<int>,
    i: int,
)
    requires
        0 <= i < recs.len(),
        !bs.flatten().contains(recs[i].room_id),
    ensures
        reconcile_batches_failing(recs, bs, remote, now, failed)[i] == recs[i],
    decreases bs.len(),
{
    if bs.len() > 0 {
        let init = bs.drop_last();
        let k = bs.len() - 1;
        assert(init.push(bs.last()) =~= bs);
        init.lemma_flatten_push(bs.last());
        let x = recs[i].room_id;
        assert(!init.flatten().contains(x)) by {
            if init.flatten().contains(x) {
                let p = choose|p: int| 0 <= p < init.flatten().len() && init.flatten()[p] == x;
                assert(bs.flatten()[p] == x);
            }
        }
        lemma_batches_failing_keep_unmentioned(recs, init, remote, now, failed, i);
        lemma_batches_failing_len(recs, init, remote, now, failed);
        let before = reconcile_batches_failing(recs, init, remote, now, failed);
        let es = batch_answer(bs, k, remote, failed);
        lemma_reconcile_keeps_keys(before, es, now);
        lemma_answer_members(bs.last(), remote);
        assert forall|q: int| 0 <= q < es.len() implies es[q].room_id != before[i].room_id by {
            if !failed.contains(k) {
                let e = es[q];
                assert(bs.last().contains(e.room_id));
                if e.room_id == x {
                    let r = choose|r: int| 0 <= r < bs.last().len() && bs.last()[r] == x;
                    assert(bs.flatten()[init.flatten().len() + r] == x);
                }
            }
        }
    }
}

} // verus!
