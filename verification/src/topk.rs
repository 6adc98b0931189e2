use vstd::prelude::*;
use vstd::multiset::Multiset;
use crate::heap::{heap_ordered, heap_push, heap_replace_root, lemma_heap_root_least, lemma_heap_root_least_of_all,
    is_top_k, lemma_add_keeps_top_k, sifted_up, sifted_down};
use crate::sorting::{stable_sort, merge_sort, lemma_stable_sort_permutation};

verus! {

/// What a top-k heap holds: its entries in heap order, as (score key, index) pairs,
/// and how many it may hold.
pub struct TopKView {
    pub entries: Seq<(u128, u32)>,
    pub capacity: nat,
    /// Every entry offered since the heap was created or last emptied.
    pub offered: Multiset<(u128, u32)>,
}

/// A min-heap of (score, index) pairs for maintaining top-k results.
///
/// Scores are given as `u32` keys that order as the scores do. The index is an opaque
/// `u32` that the caller uses to map back to their own data.
///
/// Heap property: parent score <= child scores (minimum at root).
/// When the heap is full, only entries scoring above the root can
/// enter. This naturally maintains the top-k highest-scoring entries.
pub struct TopKHeap {
    entries: Vec<(u128, u32)>,
    capacity: usize,
    offered: Ghost<Multiset<(u128, u32)>>,
}

impl View for TopKHeap {
    type V = TopKView;

    closed spec fn view(&self) -> TopKView {
        TopKView { entries: self.entries@, capacity: self.capacity as nat, offered: self.offered@ }
    }
}

/// Every key of the entries is a `u32` score.
pub open spec fn scores_fit(s: Seq<(u128, u32)>) -> bool {
    forall|i: int| 0 <= i < s.len() ==> (#[trigger] s[i]).0 <= u32::MAX
}

/// A well-formed heap: heap-ordered, every key a score, and its entries a top-k of
/// everything offered to it.
pub open spec fn topk_wf(v: TopKView) -> bool {
    &&& heap_ordered(v.entries)
    &&& v.entries.len() <= v.capacity
    &&& scores_fit(v.entries)
    &&& is_top_k(v.entries.to_multiset(), v.offered, v.capacity, key_rank())
}

/// Heap entries are ranked by their key.
pub open spec fn key_rank() -> spec_fn((u128, u32)) -> int {
    |e: (u128, u32)| e.0 as int
}

/// The order of extraction: score descending, then index ascending.
pub open spec fn extract_key() -> spec_fn((u128, u32)) -> int {
    |e: (u128, u32)| -(e.0 as int) * 0x1_0000_0000 + e.1 as int
}

impl TopKHeap {
    /// Create a new top-k heap with the given capacity.
    pub fn new(capacity: usize) -> (h: Self)
        ensures
            h@ == (TopKView { entries: Seq::empty(), capacity: capacity as nat, offered: Multiset::empty() }),
            topk_wf(h@),
    {
        let h = TopKHeap { entries: Vec::new(), capacity, offered: Ghost(Multiset::empty()) };
        proof {
            broadcast use vstd::seq_lib::group_to_multiset_ensures;
            assert(h.entries@.to_multiset() =~= Multiset::empty());
        }
        h
    }

    /// Get the current threshold score: the least score when the heap is full, `None`
    /// while it is not.
    pub fn threshold(&self) -> (t: Option<u32>)
        requires
            topk_wf(self@),
            self@.capacity > 0,
        ensures
            t == (if self@.entries.len() >= self@.capacity { Some(self@.entries[0].0 as u32) } else { None::<u32> }),
            t matches Some(m) ==> forall|i: int| 0 <= i < self@.entries.len() ==> m <= #[trigger] self@.entries[i].0,
    {
        if self.entries.len() >= self.capacity {
            proof {
                assert forall|i: int| 0 <= i < self@.entries.len() implies self@.entries[0].0 <= #[trigger] self@.entries[i].0 by {
                    lemma_heap_root_least(self@.entries, i);
                }
                assert(self@.entries[0].0 <= u32::MAX);
            }
            Some(self.entries[0].0 as u32)
        } else {
            None
        }
    }

    /// Check if a score is strictly dominated (cannot enter top-k): the heap is full
    /// and the score is below its least.
    pub fn dominated(&self, score: u32) -> (d: bool)
        requires
            topk_wf(self@),
            self@.capacity > 0,
        ensures
            d == (self@.entries.len() >= self@.capacity && (score as u128) < self@.entries[0].0),
    {
        self.entries.len() >= self.capacity && (score as u128) < self.entries[0].0
    }

    /// Try to add an entry to the heap.
    ///
    /// Returns true if the entry was added (either heap not full,
    /// or score beats the current minimum, which it then replaces).
    pub fn add(&mut self, index: u32, score: u32) -> (added: bool)
        requires
            topk_wf(old(self)@),
            old(self)@.capacity > 0,
        ensures
            topk_wf(final(self)@),
            final(self)@.capacity == old(self)@.capacity,
            final(self)@.offered == old(self)@.offered.insert((score as u128, index)),
            ({
                let o = old(self)@.entries;
                let n = final(self)@.entries;
                let e = (score as u128, index);
                if o.len() < old(self)@.capacity {
                    &&& added
                    &&& n == sifted_up(o.push(e), o.len() as int)
                    &&& n.to_multiset() == o.to_multiset().insert(e)
                } else if (score as u128) > o[0].0 {
                    &&& added
                    &&& n == sifted_down(o.update(0, e), 0)
                    &&& n.to_multiset() == o.to_multiset().remove(o[0]).insert(e)
                } else {
                    &&& !added
                    &&& n == o
                }
            }),
    {
        let e = (score as u128, index);
        let ghost o = self.entries@;
        let added = if self.entries.len() < self.capacity {
            heap_push(&mut self.entries, e);
            proof {
                self.lemma_scores_fit_insert(o, e);
            }
            true
        } else if (score as u128) > self.entries[0].0 {
            heap_replace_root(&mut self.entries, e);
            proof {
                self.lemma_scores_fit_replace(o, e);
            }
            true
        } else {
            false
        };
        proof {
            if o.len() > 0 {
                assert forall|f: (u128, u32)| o.to_multiset().count(f) > 0 implies key_rank()(o[0]) <= key_rank()(f) by {
                    lemma_heap_root_least_of_all(o, f);
                }
            }
            lemma_add_keeps_top_k(o, self.entries@, self.offered@, self.capacity as nat, e, key_rank());
            self.offered = Ghost(self.offered@.insert(e));
        }
        added
    }

    proof fn lemma_scores_fit_insert(&self, o: Seq<(u128, u32)>, e: (u128, u32))
        requires
            scores_fit(o),
            e.0 <= u32::MAX,
            self@.entries.to_multiset() == o.to_multiset().insert(e),
        ensures
            scores_fit(self@.entries),
    {
        broadcast use vstd::seq_lib::group_to_multiset_ensures;
        let n = self@.entries;
        assert forall|i: int| 0 <= i < n.len() implies (#[trigger] n[i]).0 <= u32::MAX by {
            assert(n.to_multiset().count(n[i]) > 0);
            if n[i] != e {
                assert(o.to_multiset().count(n[i]) > 0);
                let j = choose|j: int| 0 <= j < o.len() && o[j] == n[i];
            }
        }
    }

    proof fn lemma_scores_fit_replace(&self, o: Seq<(u128, u32)>, e: (u128, u32))
        requires
            scores_fit(o),
            o.len() > 0,
            e.0 <= u32::MAX,
            self@.entries.to_multiset() == o.to_multiset().remove(o[0]).insert(e),
        ensures
            scores_fit(self@.entries),
    {
        broadcast use vstd::seq_lib::group_to_multiset_ensures;
        let n = self@.entries;
        assert forall|i: int| 0 <= i < n.len() implies (#[trigger] n[i]).0 <= u32::MAX by {
            assert(n.to_multiset().count(n[i]) > 0);
            if n[i] != e {
                assert(o.to_multiset().remove(o[0]).count(n[i]) > 0);
                assert(o.to_multiset().count(n[i]) > 0);
                let j = choose|j: int| 0 <= j < o.len() && o[j] == n[i];
            }
        }
    }

    /// Extract sorted results (descending by score, then ascending by index).
    /// Returns the number of entries extracted.
    /// After extraction, the heap is empty.
    pub fn extract_sorted(&mut self, out_indices: &mut [u32], out_scores: &mut [u32]) -> (count: usize)
        requires
            topk_wf(old(self)@),
            old(out_indices)@.len() >= old(self)@.entries.len(),
            old(out_scores)@.len() >= old(self)@.entries.len(),
        ensures
            count == old(self)@.entries.len(),
            final(self)@ == (TopKView { entries: Seq::empty(), offered: Multiset::empty(), ..old(self)@ }),
            topk_wf(final(self)@),
            final(out_indices)@.len() == old(out_indices)@.len(),
            final(out_scores)@.len() == old(out_scores)@.len(),
            forall|i: int| 0 <= i < count ==> #[trigger] final(out_indices)@[i]
                == stable_sort(old(self)@.entries, extract_key())[i].1,
            forall|i: int| 0 <= i < count ==> #[trigger] final(out_scores)@[i]
                == stable_sort(old(self)@.entries, extract_key())[i].0 as u32,
            forall|i: int| count <= i < final(out_indices)@.len() ==> #[trigger] final(out_indices)@[i] == old(out_indices)@[i],
            forall|i: int| count <= i < final(out_scores)@.len() ==> #[trigger] final(out_scores)@[i] == old(out_scores)@[i],
    {
        let count = self.entries.len();
        if count == 0 {
            proof {
                assert(self.entries@ =~= Seq::<(u128, u32)>::empty());
            }
            self.offered = Ghost(Multiset::empty());
            proof {
                broadcast use vstd::seq_lib::group_to_multiset_ensures;
                assert(self.entries@.to_multiset() =~= Multiset::empty());
            }
            return 0;
        }
        let sorted = sort_for_extract(&self.entries);
        proof {
            lemma_stable_sort_permutation(self.entries@, extract_key());
        }
        let mut i: usize = 0;
        while i < count
            invariant
                count == sorted@.len(),
                i <= count,
                count <= out_indices@.len(),
                count <= out_scores@.len(),
                out_indices@.len() == old(out_indices)@.len(),
                out_scores@.len() == old(out_scores)@.len(),
                forall|k: int| 0 <= k < i ==> #[trigger] out_indices@[k] == sorted@[k].1,
                forall|k: int| 0 <= k < i ==> #[trigger] out_scores@[k] == sorted@[k].0 as u32,
                forall|k: int| i <= k < out_indices@.len() ==> #[trigger] out_indices@[k] == old(out_indices)@[k],
                forall|k: int| i <= k < out_scores@.len() ==> #[trigger] out_scores@[k] == old(out_scores)@[k],
            decreases count - i,
        {
            let (score, index) = sorted[i];
            out_scores[i] = score as u32;
            out_indices[i] = index;
            i = i + 1;
        }
        self.entries = Vec::new();
        self.offered = Ghost(Multiset::empty());
        proof {
            broadcast use vstd::seq_lib::group_to_multiset_ensures;
            assert(self.entries@.to_multiset() =~= Multiset::empty());
        }
        count
    }

    /// How many entries the heap may hold.
    pub fn capacity(&self) -> (c: usize)
        ensures
            c == self@.capacity,
    {
        self.capacity
    }

    /// Current number of entries in the heap.
    pub fn len(&self) -> (n: usize)
        ensures
            n == self@.entries.len(),
    {
        self.entries.len()
    }

    /// Check if heap is empty.
    pub fn is_empty(&self) -> (e: bool)
        ensures
            e == (self@.entries.len() == 0),
    {
        self.entries.len() == 0
    }
}

fn extract_le(a: &(u128, u32), b: &(u128, u32)) -> (r: bool)
    ensures
        r == (extract_key()(*a) <= extract_key()(*b)),
{
    a.0 > b.0 || (a.0 == b.0 && a.1 <= b.1)
}

/// Stable merge sort of the entries in extraction order.
fn sort_for_extract(v: &Vec<(u128, u32)>) -> (r: Vec<(u128, u32)>)
    ensures
        r@ == stable_sort(v@, extract_key()),
{
    let le = |a: (u128, u32), b: (u128, u32)| -> (r: bool)
        ensures
            r == (extract_key()(a) <= extract_key()(b)),
        { extract_le(&a, &b) };
    merge_sort(v, &le, Ghost(extract_key()))
}

} // verus!
