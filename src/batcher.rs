//! Splitting a list of room ids into bounded batches for the remote query.
use vstd::prelude::*;

verus! {

/// The contents of a list of batches.
pub open spec fn batches_view(chunks: Seq<Vec<i64>>) -> Seq<Seq<i64>> {
    chunks.map_values(|c: Vec<i64>| c@)
}

/// `chunks` splits `ids`, in order, into non-empty runs of at most `max` ids,
/// of which all but the last hold exactly `max`.
pub open spec fn is_chunking(ids: Seq<i64>, chunks: Seq<Seq<i64>>, max: int) -> bool {
    &&& chunks.flatten() == ids
    &&& forall|k: int| 0 <= k < chunks.len() ==> 0 < #[trigger] chunks[k].len() <= max
    &&& forall|k: int| 0 <= k < chunks.len() - 1 ==> #[trigger] chunks[k].len() == max
}

/// Splits `ids` in input order into contiguous batches of at most
/// `max_batch_size` ids; only the last batch may be smaller, and an empty input
/// gives no batch at all.
pub fn chunk(ids: &Vec<i64>, max_batch_size: usize) -> (chunks: Vec<Vec<i64>>)
    requires
        max_batch_size >= 1,
    ensures
        is_chunking(ids@, batches_view(chunks@), max_batch_size as int),
        ids@.len() == 0 ==> chunks@.len() == 0,
{
    let mut chunks: Vec<Vec<i64>> = Vec::new();
    let mut start: usize = 0;
    while start < ids.len()
        invariant
            max_batch_size >= 1,
            start <= ids@.len(),
            batches_view(chunks@).flatten() == ids@.subrange(0, start as int),
            forall|k: int|
                0 <= k < chunks@.len() ==> 0 < #[trigger] chunks@[k]@.len() <= max_batch_size,
            forall|k: int|
                0 <= k < chunks@.len() - 1 ==> #[trigger] chunks@[k]@.len() == max_batch_size,
            start < ids@.len() ==> forall|k: int|
                0 <= k < chunks@.len() ==> #[trigger] chunks@[k]@.len() == max_batch_size,
        decreases ids@.len() - start,
    {
        let end: usize = if ids.len() - start > max_batch_size {
            start + max_batch_size
        } else {
            ids.len()
        };
        let mut batch: Vec<i64> = Vec::new();
        let mut j: usize = start;
        while j < end
            invariant
                start <= j <= end <= ids@.len(),
                batch@ == ids@.subrange(start as int, j as int),
            decreases end - j,
        {
            batch.push(ids[j]);
            j = j + 1;
        }
        proof {
            let before = batches_view(chunks@);
            assert(batches_view(chunks@.push(batch)) =~= before.push(batch@));
            before.lemma_flatten_push(batch@);
            assert(ids@.subrange(0, start as int) + ids@.subrange(start as int, end as int)
                =~= ids@.subrange(0, end as int));
        }
        chunks.push(batch);
        start = end;
    }
    proof {
        assert(ids@.subrange(0, ids@.len() as int) =~= ids@);
        let v = batches_view(chunks@);
        assert forall|k: int| 0 <= k < v.len() implies 0 < #[trigger] v[k].len()
            <= max_batch_size by {
            assert(v[k] == chunks@[k]@);
        }
        assert forall|k: int| 0 <= k < v.len() - 1 implies #[trigger] v[k].len()
            == max_batch_size by {
            assert(v[k] == chunks@[k]@);
        }
        if ids@.len() == 0 {
            if chunks@.len() > 0 {
                assert(chunks@[0]@.len() > 0);
                v.lemma_flatten_length_ge_single_element_length(0);
                v.lemma_flatten_and_flatten_alt_are_equivalent();
            }
        }
    }
    chunks
}

} // verus!
