use vstd::prelude::*;
use crate::compression::{running_sum, lemma_running_sum_monotonic};

verus! {

/// The doc ids `start, start + 1, ..., start + count - 1`.
pub open spec fn id_range(start: nat, count: nat) -> Seq<u32> {
    Seq::new(count, |j: int| (start + j) as u32)
}

/// The remapping table of source segment `i`: its docs, in order, get the ids that
/// follow those of all earlier segments.
pub open spec fn remap_spec(doc_counts: Seq<u32>, i: int) -> Seq<u32> {
    id_range(running_sum(0, doc_counts, i as nat), doc_counts[i] as nat)
}

/// Build doc_id remapping tables for an N-way segment merge.
///
/// Given the number of documents in each source segment,
/// returns a vector of maps where `maps[i][old_id]` = new_id
/// in the merged segment.
///
/// Documents are assigned new IDs sequentially:
/// segment 0 docs get 0..n0-1, segment 1 gets n0..n0+n1-1, etc.
pub fn build_merge_remap(doc_counts: &[u32]) -> (maps: Vec<Vec<u32>>)
    requires
        running_sum(0, doc_counts@, doc_counts@.len()) <= u32::MAX,
    ensures
        maps@.len() == doc_counts@.len(),
        forall|i: int| 0 <= i < maps@.len() ==> (#[trigger] maps@[i])@ == remap_spec(doc_counts@, i),
{
    let ghost counts = doc_counts@;
    let mut maps: Vec<Vec<u32>> = Vec::with_capacity(doc_counts.len());
    let mut next_id: u32 = 0;
    let mut i: usize = 0;
    while i < doc_counts.len()
        invariant
            counts == doc_counts@,
            running_sum(0, counts, counts.len()) <= u32::MAX,
            i <= counts.len(),
            next_id == running_sum(0, counts, i as nat),
            maps@.len() == i,
            forall|k: int| 0 <= k < i ==> (#[trigger] maps@[k])@ == remap_spec(counts, k),
        decreases counts.len() - i,
    {
        proof {
            lemma_running_sum_monotonic(0, counts, (i + 1) as nat, counts.len());
        }
        let count = doc_counts[i];
        let end = next_id + count;
        let mut map: Vec<u32> = Vec::with_capacity(count as usize);
        let mut id = next_id;
        while id < end
            invariant
                next_id <= id <= end,
                map@ == id_range(next_id as nat, (id - next_id) as nat),
            decreases end - id,
        {
            map.push(id);
            id = id + 1;
            proof {
                assert(map@ =~= id_range(next_id as nat, (id - next_id) as nat));
            }
        }
        maps.push(map);
        next_id = end;
        i = i + 1;
    }
    maps
}

/// Total number of documents across all segments.
pub fn total_docs(doc_counts: &[u32]) -> (total: u32)
    requires
        running_sum(0, doc_counts@, doc_counts@.len()) <= u32::MAX,
    ensures
        total == running_sum(0, doc_counts@, doc_counts@.len()),
{
    let mut total: u32 = 0;
    let mut i: usize = 0;
    while i < doc_counts.len()
        invariant
            running_sum(0, doc_counts@, doc_counts@.len()) <= u32::MAX,
            i <= doc_counts@.len(),
            total == running_sum(0, doc_counts@, i as nat),
        decreases doc_counts@.len() - i,
    {
        proof {
            lemma_running_sum_monotonic(0, doc_counts@, (i + 1) as nat, doc_counts@.len());
        }
        total = total + doc_counts[i];
        i = i + 1;
    }
    total
}

/// The remapping tables of the first `k` segments, one after another.
pub open spec fn remaps_joined(doc_counts: Seq<u32>, k: nat) -> Seq<u32>
    decreases k,
{
    if k == 0 {
        Seq::empty()
    } else {
        remaps_joined(doc_counts, (k - 1) as nat) + remap_spec(doc_counts, k - 1)
    }
}

/// The remapping tables, read one after another, number the merged documents
/// `0, 1, ..., total - 1`: every new id is used exactly once.
pub proof fn lemma_remap_covers_all_ids(doc_counts: Seq<u32>, k: nat)
    requires
        k <= doc_counts.len(),
    ensures
        remaps_joined(doc_counts, k) == id_range(0, running_sum(0, doc_counts, k)),
    decreases k,
{
    if k > 0 {
        lemma_remap_covers_all_ids(doc_counts, (k - 1) as nat);
        assert(remaps_joined(doc_counts, k) =~= id_range(0, running_sum(0, doc_counts, k)));
    } else {
        assert(remaps_joined(doc_counts, k) =~= id_range(0, running_sum(0, doc_counts, k)));
    }
}

} // verus!
