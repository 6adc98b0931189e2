use vstd::prelude::*;
use vstd::multiset::Multiset;
use crate::heap::{heap_ordered, heap_push, heap_replace_root, lemma_heap_root_least, lemma_heap_root_least_of_all,
    is_top_k, lemma_add_keeps_top_k, sifted_up, sifted_down};
use crate::sorting::{stable_sort, merge_sort};

pub mod term_state;

verus! {

/// Statistics for BMW scoring.
#[derive(Clone, Debug, Default)]
pub struct BMWStats {
    pub blocks_scanned: u64,
    pub blocks_skipped: u64,
    pub memtable_docs: u64,
    pub segment_docs_scored: u64,
    pub docs_in_results: u64,
    pub seeks_performed: u64,
}

/// Block metadata loaded from skip entries.
#[derive(Clone, Copy, Debug, Default)]
pub struct BlockInfo {
    pub last_doc_id: u32,
    pub doc_count: u8,
    pub block_max_tf: u16,
    pub block_max_norm: u8,
    pub posting_offset: u32,
    pub flags: u8,
    pub tenant_mode: u8,
    pub tenant_id_low16: u16,
}

/// A posting entry from a decoded block.
#[derive(Clone, Copy, Debug, Default, PartialEq, Eq, Structural)]
pub struct BlockPosting {
    pub doc_id: u32,
    pub frequency: u16,
    pub fieldnorm: u8,
}

/// A scored document result. CTID resolution is deferred for
/// segment results (seg_block != u32::MAX).
///
/// The score is given as a `u32` key that orders as the BM25 scores do.
#[derive(Clone, Copy, Debug, PartialEq, Eq, Structural)]
pub struct ScoredDoc {
    /// Heap tuple page number (0 for segment results pre-resolution).
    pub ctid_page: u32,
    /// Heap tuple offset (0 for segment results pre-resolution).
    pub ctid_offset: u16,
    /// Segment root block (u32::MAX = memtable result).
    pub seg_block: u32,
    /// Segment-local doc ID (for deferred CTID lookup).
    pub doc_id: u32,
    /// BM25 score key.
    pub score: u32,
}

/// Heap order of results: lower score first; at equal scores the higher CTID
/// (page, offset) first, as the weaker result.
pub open spec fn doc_heap_key(d: ScoredDoc) -> u128 {
    (d.score as int * 0x1_0000_0000_0000 + (0xFFFF_FFFF_FFFF - (d.ctid_page as int * 0x10000 + d.ctid_offset as int))) as u128
}

/// Results are ranked by score alone.
pub open spec fn doc_rank() -> spec_fn((u128, ScoredDoc)) -> int {
    |e: (u128, ScoredDoc)| e.1.score as int
}

/// Order of extraction: score descending, then CTID (page, offset) ascending.
pub open spec fn doc_extract_key() -> spec_fn(ScoredDoc) -> int {
    |d: ScoredDoc| -(d.score as int) * 0x1_0000_0000_0000 + d.ctid_page as int * 0x10000 + d.ctid_offset as int
}

/// What a result heap holds: its entries in heap order, each with its heap key, how
/// many it may hold, and every entry offered since it was created or last emptied.
pub struct TopKHeapView {
    pub entries: Seq<(u128, ScoredDoc)>,
    pub capacity: nat,
    pub offered: Multiset<(u128, ScoredDoc)>,
}

/// Each entry carries its result's heap key.
pub open spec fn keys_match(s: Seq<(u128, ScoredDoc)>) -> bool {
    forall|i: int| 0 <= i < s.len() ==> (#[trigger] s[i]).0 == doc_heap_key(s[i].1)
}

/// A well-formed result heap: heap-ordered, keys matching, and its entries a top-k by
/// score of everything offered to it.
pub open spec fn result_heap_wf(v: TopKHeapView) -> bool {
    &&& heap_ordered(v.entries)
    &&& keys_match(v.entries)
    &&& v.entries.len() <= v.capacity
    &&& is_top_k(v.entries.to_multiset(), v.offered, v.capacity, doc_rank())
}

/// The results held, in heap order.
pub open spec fn heap_docs(s: Seq<(u128, ScoredDoc)>) -> Seq<ScoredDoc> {
    s.map_values(|e: (u128, ScoredDoc)| e.1)
}

proof fn lemma_doc_key_monotonic(a: ScoredDoc, b: ScoredDoc)
    ensures
        doc_heap_key(a) <= doc_heap_key(b) ==> a.score <= b.score,
        a.score < b.score ==> doc_heap_key(a) < doc_heap_key(b),
{
}

/// What adding `doc` does: the heap takes it while it has room; once full, it
/// replaces the root if it scores above the root, and is dropped otherwise.
pub open spec fn heap_added(o: TopKHeapView, n: TopKHeapView, doc: ScoredDoc) -> bool {
    let e = (doc_heap_key(doc), doc);
    &&& result_heap_wf(n)
    &&& n.capacity == o.capacity
    &&& n.offered == o.offered.insert(e)
    &&& if o.entries.len() < o.capacity {
        &&& n.entries == sifted_up(o.entries.push(e), o.entries.len() as int)
        &&& n.entries.to_multiset() == o.entries.to_multiset().insert(e)
    } else if o.entries.len() > 0 && doc.score > o.entries[0].1.score {
        &&& n.entries == sifted_down(o.entries.update(0, e), 0)
        &&& n.entries.to_multiset() == o.entries.to_multiset().remove(o.entries[0]).insert(e)
    } else {
        n.entries == o.entries
    }
}

/// Min-heap maintaining top-k results by score.
///
/// Heap property: parent <= child (minimum at root).
/// When full, root.score is the threshold — any doc scoring below
/// cannot enter the top-k.
pub struct TopKHeap {
    entries: Vec<(u128, ScoredDoc)>,
    capacity: usize,
    offered: Ghost<Multiset<(u128, ScoredDoc)>>,
}

impl View for TopKHeap {
    type V = TopKHeapView;

    closed spec fn view(&self) -> TopKHeapView {
        TopKHeapView { entries: self.entries@, capacity: self.capacity as nat, offered: self.offered@ }
    }
}

fn heap_key(d: &ScoredDoc) -> (k: u128)
    ensures
        k == doc_heap_key(*d),
{
    (d.score as u128) * 0x1_0000_0000_0000 + (0xFFFF_FFFF_FFFF - ((d.ctid_page as u128) * 0x10000 + d.ctid_offset as u128))
}

impl TopKHeap {
    pub fn new(k: usize) -> (h: Self)
        ensures
            h@ == (TopKHeapView { entries: Seq::empty(), capacity: k as nat, offered: Multiset::empty() }),
            result_heap_wf(h@),
    {
        let h = TopKHeap { entries: Vec::with_capacity(k), capacity: k, offered: Ghost(Multiset::empty()) };
        proof {
            broadcast use vstd::seq_lib::group_to_multiset_ensures;
            assert(h.entries@.to_multiset() =~= Multiset::empty());
        }
        h
    }

    /// Current threshold: minimum score to enter top-k, when the heap is full; `None`
    /// while it is not.
    pub fn threshold(&self) -> (t: Option<u32>)
        requires
            result_heap_wf(self@),
            self@.capacity > 0,
        ensures
            t == (if self@.entries.len() >= self@.capacity { Some(self@.entries[0].1.score) } else { None::<u32> }),
            t matches Some(m) ==> forall|i: int| 0 <= i < self@.entries.len() ==> m <= #[trigger] self@.entries[i].1.score,
    {
        if self.entries.len() >= self.capacity {
            proof {
                assert forall|i: int| 0 <= i < self@.entries.len() implies self@.entries[0].1.score <= #[trigger] self@.entries[i].1.score by {
                    lemma_heap_root_least(self@.entries, i);
                    assert(self@.entries[0].0 == doc_heap_key(self@.entries[0].1));
                    assert(self@.entries[i].0 == doc_heap_key(self@.entries[i].1));
                    lemma_doc_key_monotonic(self@.entries[0].1, self@.entries[i].1);
                }
            }
            Some(self.entries[0].1.score)
        } else {
            None
        }
    }

    /// Check if a score is dominated (cannot enter top-k): the heap is full and the
    /// score is below its least.
    pub fn dominated(&self, score: u32) -> (d: bool)
        requires
            result_heap_wf(self@),
            self@.capacity > 0,
        ensures
            d == (self@.entries.len() >= self@.capacity && score < self@.entries[0].1.score),
    {
        self.entries.len() >= self.capacity && score < self.entries[0].1.score
    }

    /// Add a memtable result (CTID known immediately).
    pub fn add_memtable(&mut self, ctid_page: u32, ctid_offset: u16, score: u32)
        requires
            result_heap_wf(old(self)@),
        ensures
            heap_added(old(self)@, final(self)@,
                ScoredDoc { ctid_page, ctid_offset, seg_block: u32::MAX, doc_id: 0, score }),
    {
        self.add(ScoredDoc { ctid_page, ctid_offset, seg_block: u32::MAX, doc_id: 0, score });
    }

    /// Add a segment result (CTID resolved later).
    pub fn add_segment(&mut self, seg_block: u32, doc_id: u32, score: u32)
        requires
            result_heap_wf(old(self)@),
        ensures
            heap_added(old(self)@, final(self)@,
                ScoredDoc { ctid_page: 0, ctid_offset: 0, seg_block, doc_id, score }),
    {
        self.add(ScoredDoc { ctid_page: 0, ctid_offset: 0, seg_block, doc_id, score });
    }

    /// Add a scored doc to the heap.
    fn add(&mut self, doc: ScoredDoc)
        requires
            result_heap_wf(old(self)@),
        ensures
            heap_added(old(self)@, final(self)@, doc),
    {
        let e = (heap_key(&doc), doc);
        let ghost o = self.entries@;
        if self.entries.len() < self.capacity {
            heap_push(&mut self.entries, e);
            proof {
                self.lemma_keys_match_insert(o, e);
            }
        } else if self.beats_root(doc.score) {
            heap_replace_root(&mut self.entries, e);
            proof {
                self.lemma_keys_match_replace(o, e);
            }
        }
        proof {
            if o.len() > 0 {
                assert forall|f: (u128, ScoredDoc)| o.to_multiset().count(f) > 0 implies doc_rank()(o[0]) <= doc_rank()(f) by {
                    broadcast use vstd::seq_lib::group_to_multiset_ensures;
                    lemma_heap_root_least_of_all(o, f);
                    assert(o.contains(f));
                    let j = choose|j: int| 0 <= j < o.len() && o[j] == f;
                    assert(o[0].0 == doc_heap_key(o[0].1));
                    assert(o[j].0 == doc_heap_key(o[j].1));
                    lemma_doc_key_monotonic(o[0].1, f.1);
                }
            }
            if self.capacity == 0 {
                assert(is_top_k(self.entries@.to_multiset(), self.offered@.insert(e), 0, doc_rank())) by {
                    broadcast use vstd::seq_lib::group_to_multiset_ensures;
                    assert(o.len() == 0);
                    assert(o.to_multiset().len() == 0);
                }
            } else {
                lemma_add_keeps_top_k(o, self.entries@, self.offered@, self.capacity as nat, e, doc_rank());
            }
            self.offered = Ghost(self.offered@.insert(e));
        }
    }

    /// Check if a candidate beats the root (weakest entry).
    fn beats_root(&self, score: u32) -> (b: bool)
        ensures
            b == (self@.entries.len() > 0 && score > self@.entries[0].1.score),
    {
        if self.entries.len() == 0 {
            return false;
        }
        score > self.entries[0].1.score
    }

    proof fn lemma_keys_match_insert(&self, o: Seq<(u128, ScoredDoc)>, e: (u128, ScoredDoc))
        requires
            keys_match(o),
            e.0 == doc_heap_key(e.1),
            self@.entries.to_multiset() == o.to_multiset().insert(e),
        ensures
            keys_match(self@.entries),
    {
        broadcast use vstd::seq_lib::group_to_multiset_ensures;
        let n = self@.entries;
        assert forall|i: int| 0 <= i < n.len() implies (#[trigger] n[i]).0 == doc_heap_key(n[i].1) by {
            assert(n.to_multiset().count(n[i]) > 0);
            if n[i] != e {
                assert(o.to_multiset().count(n[i]) > 0);
                let j = choose|j: int| 0 <= j < o.len() && o[j] == n[i];
            }
        }
    }

    proof fn lemma_keys_match_replace(&self, o: Seq<(u128, ScoredDoc)>, e: (u128, ScoredDoc))
        requires
            keys_match(o),
            o.len() > 0,
            e.0 == doc_heap_key(e.1),
            self@.entries.to_multiset() == o.to_multiset().remove(o[0]).insert(e),
        ensures
            keys_match(self@.entries),
    {
        broadcast use vstd::seq_lib::group_to_multiset_ensures;
        let n = self@.entries;
        assert forall|i: int| 0 <= i < n.len() implies (#[trigger] n[i]).0 == doc_heap_key(n[i].1) by {
            assert(n.to_multiset().count(n[i]) > 0);
            if n[i] != e {
                assert(o.to_multiset().remove(o[0]).count(n[i]) > 0);
                assert(o.to_multiset().count(n[i]) > 0);
                let j = choose|j: int| 0 <= j < o.len() && o[j] == n[i];
            }
        }
    }

    /// Extract sorted results (descending by score, then CTID ascending; results that
    /// tie on both keep their order in the heap).
    /// After extraction, heap is empty.
    pub fn extract_sorted(&mut self) -> (results: Vec<ScoredDoc>)
        requires
            result_heap_wf(old(self)@),
        ensures
            results@ == stable_sort(heap_docs(old(self)@.entries), doc_extract_key()),
            final(self)@ == (TopKHeapView { entries: Seq::empty(), offered: Multiset::empty(), ..old(self)@ }),
            result_heap_wf(final(self)@),
    {
        let mut docs: Vec<ScoredDoc> = Vec::with_capacity(self.entries.len());
        let mut i: usize = 0;
        while i < self.entries.len()
            invariant
                i <= self.entries@.len(),
                self@ == old(self)@,
                docs@ == heap_docs(self.entries@).take(i as int),
            decreases self.entries@.len() - i,
        {
            docs.push(self.entries[i].1);
            i = i + 1;
            proof {
                assert(docs@ =~= heap_docs(self.entries@).take(i as int));
            }
        }
        proof {
            assert(heap_docs(self.entries@).take(i as int) =~= heap_docs(self.entries@));
        }
        let results = sort_for_extract(&docs);
        self.entries = Vec::new();
        self.offered = Ghost(Multiset::empty());
        proof {
            broadcast use vstd::seq_lib::group_to_multiset_ensures;
            assert(self.entries@.to_multiset() =~= Multiset::empty());
            assert(self.entries@ =~= Seq::<(u128, ScoredDoc)>::empty());
        }
        results
    }

    /// How many results the heap may hold.
    pub fn capacity(&self) -> (c: usize)
        ensures
            c == self@.capacity,
    {
        self.capacity
    }

    /// Number of entries currently in the heap.
    pub fn len(&self) -> (n: usize)
        ensures
            n == self@.entries.len(),
    {
        self.entries.len()
    }

    /// Whether the heap is empty.
    pub fn is_empty(&self) -> (e: bool)
        ensures
            e == (self@.entries.len() == 0),
    {
        self.entries.len() == 0
    }
}

fn extract_le(a: &ScoredDoc, b: &ScoredDoc) -> (r: bool)
    ensures
        r == (doc_extract_key()(*a) <= doc_extract_key()(*b)),
{
    a.score > b.score || (a.score == b.score && (a.ctid_page < b.ctid_page
        || (a.ctid_page == b.ctid_page && a.ctid_offset <= b.ctid_offset)))
}

/// Stable merge sort of the entries in extraction order.
fn sort_for_extract(v: &Vec<ScoredDoc>) -> (r: Vec<ScoredDoc>)
    ensures
        r@ == stable_sort(v@, doc_extract_key()),
{
    let le = |a: ScoredDoc, b: ScoredDoc| -> (r: bool)
        ensures
            r == (doc_extract_key()(a) <= doc_extract_key()(b)),
        { extract_le(&a, &b) };
    merge_sort(v, &le, Ghost(doc_extract_key()))
}

/// The heap after `add` offers it `doc`.
pub open spec fn heap_add_spec(o: TopKHeapView, doc: ScoredDoc) -> TopKHeapView {
    let e = (doc_heap_key(doc), doc);
    TopKHeapView {
        entries: if o.entries.len() < o.capacity {
            sifted_up(o.entries.push(e), o.entries.len() as int)
        } else if o.entries.len() > 0 && doc.score > o.entries[0].1.score {
            sifted_down(o.entries.update(0, e), 0)
        } else {
            o.entries
        },
        capacity: o.capacity,
        offered: o.offered.insert(e),
    }
}

/// The threshold a block's bound is held against: the least score of a full heap,
/// else the key of a zero score.
pub open spec fn bmw_threshold(h: TopKHeapView, zero_key: u32) -> u32 {
    if h.entries.len() >= h.capacity { h.entries[0].1.score } else { zero_key }
}

/// Whether a posting with score key `key` is offered to the heap: it scores above
/// zero and the heap does not dominate it.
pub open spec fn bmw_offers(h: TopKHeapView, key: u32, zero_key: u32) -> bool {
    key > zero_key && !(h.entries.len() >= h.capacity && key < h.entries[0].1.score)
}

/// The heap after the scored postings (doc id, score key) of a block of segment
/// `seg_block` are offered in order.
pub open spec fn offer_all(h: TopKHeapView, seg_block: u32, scored: Seq<(u32, u32)>, zero_key: u32) -> TopKHeapView
    decreases scored.len(),
{
    if scored.len() == 0 {
        h
    } else {
        let prev = offer_all(h, seg_block, scored.drop_last(), zero_key);
        let (doc_id, key) = scored.last();
        if bmw_offers(prev, key, zero_key) {
            heap_add_spec(prev, ScoredDoc { ctid_page: 0, ctid_offset: 0, seg_block, doc_id, score: key })
        } else {
            prev
        }
    }
}

proof fn lemma_heap_added_spec(o: TopKHeapView, n: TopKHeapView, doc: ScoredDoc)
    requires
        heap_added(o, n, doc),
    ensures
        n == heap_add_spec(o, doc),
{
}

/// One block of single-term BMW: decide whether the block is scanned, given the key
/// of its score bound, and count it as scanned or skipped. A block is scanned when its
/// bound is above the threshold: the least score once the heap is full, else zero.
pub fn bmw_block_step(heap: &TopKHeap, block_max_key: u32, zero_key: u32, stats: &mut BMWStats) -> (scan: bool)
    requires
        result_heap_wf(heap@),
        heap@.capacity > 0,
        old(stats).blocks_scanned < u64::MAX,
        old(stats).blocks_skipped < u64::MAX,
    ensures
        scan == (block_max_key > bmw_threshold(heap@, zero_key)),
        scan ==> *final(stats) == (BMWStats { blocks_scanned: (old(stats).blocks_scanned + 1) as u64, ..*old(stats) }),
        !scan ==> *final(stats) == (BMWStats { blocks_skipped: (old(stats).blocks_skipped + 1) as u64, ..*old(stats) }),
{
    let threshold = match heap.threshold() {
        Some(t) => t,
        None => zero_key,
    };
    if block_max_key <= threshold {
        stats.blocks_skipped = stats.blocks_skipped + 1;
        false
    } else {
        stats.blocks_scanned = stats.blocks_scanned + 1;
        true
    }
}

/// Offer the scored postings of a scanned block to the heap: each whose score is
/// above zero and that the heap does not dominate, in order; count them all as scored.
pub fn bmw_score_block(
    heap: &mut TopKHeap,
    seg_block: u32,
    scored: &[(u32, u32)],
    zero_key: u32,
    stats: &mut BMWStats,
)
    requires
        result_heap_wf(old(heap)@),
        old(heap)@.capacity > 0 || forall|i: int| 0 <= i < scored@.len() ==> (#[trigger] scored@[i]).1 <= zero_key,
        old(stats).segment_docs_scored + scored@.len() <= u64::MAX,
    ensures
        final(heap)@ == offer_all(old(heap)@, seg_block, scored@, zero_key),
        result_heap_wf(final(heap)@),
        *final(stats) == (BMWStats {
            segment_docs_scored: (old(stats).segment_docs_scored + scored@.len()) as u64,
            ..*old(stats)
        }),
{
    let mut i: usize = 0;
    while i < scored.len()
        invariant
            i <= scored@.len(),
            result_heap_wf(heap@),
            heap@.capacity == old(heap)@.capacity,
            heap@.capacity > 0 || forall|j: int| 0 <= j < scored@.len() ==> (#[trigger] scored@[j]).1 <= zero_key,
            heap@ == offer_all(old(heap)@, seg_block, scored@.take(i as int), zero_key),
            old(stats).segment_docs_scored + scored@.len() <= u64::MAX,
            *stats == (BMWStats { segment_docs_scored: (old(stats).segment_docs_scored + i) as u64, ..*old(stats) }),
        decreases scored@.len() - i,
    {
        let (doc_id, key) = scored[i];
        let ghost before = heap@;
        proof {
            assert(scored@.take(i + 1).drop_last() =~= scored@.take(i as int));
            assert(scored@.take(i + 1).last() == (doc_id, key));
        }
        proof {
            assert(scored@[i as int] == (doc_id, key));
        }
        if key > zero_key && !heap.dominated(key) {
            heap.add_segment(seg_block, doc_id, key);
            proof {
                lemma_heap_added_spec(before, heap@,
                    ScoredDoc { ctid_page: 0, ctid_offset: 0, seg_block, doc_id, score: key });
            }
        }
        stats.segment_docs_scored = stats.segment_docs_scored + 1;
        i = i + 1;
    }
    proof {
        assert(scored@.take(i as int) =~= scored@);
    }
}

/// The heap entry a scored posting (doc id, score key) of segment `seg_block` becomes.
pub open spec fn segment_entry(seg_block: u32, x: (u32, u32)) -> (u128, ScoredDoc) {
    let d = ScoredDoc { ctid_page: 0, ctid_offset: 0, seg_block, doc_id: x.0, score: x.1 };
    (doc_heap_key(d), d)
}

/// A heap with room takes every posting that scores above zero: while the heap holds
/// fewer results than its capacity (room for all the block's postings), offering a
/// block's postings that all score above zero grows its entries by exactly those
/// postings, whatever their scores are against those already held.
pub proof fn lemma_bmw_room_takes_every_positive(
    h: TopKHeapView,
    seg_block: u32,
    scored: Seq<(u32, u32)>,
    zero_key: u32,
)
    requires
        h.entries.len() + scored.len() <= h.capacity,
        forall|i: int| 0 <= i < scored.len() ==> (#[trigger] scored[i]).1 > zero_key,
    ensures
        offer_all(h, seg_block, scored, zero_key).capacity == h.capacity,
        offer_all(h, seg_block, scored, zero_key).entries.len() == h.entries.len() + scored.len(),
        offer_all(h, seg_block, scored, zero_key).entries.to_multiset()
            == h.entries.to_multiset().add(scored.map_values(|x: (u32, u32)| segment_entry(seg_block, x)).to_multiset()),
    decreases scored.len(),
{
    broadcast use vstd::seq_lib::group_to_multiset_ensures;
    broadcast use vstd::multiset::group_multiset_axioms;
    let f = |x: (u32, u32)| segment_entry(seg_block, x);
    if scored.len() == 0 {
        assert(scored.map_values(f) =~= Seq::<(u128, ScoredDoc)>::empty());
        assert(h.entries.to_multiset().add(Multiset::empty()) =~= h.entries.to_multiset());
    } else {
        let d = scored.drop_last();
        assert forall|i: int| 0 <= i < d.len() implies (#[trigger] d[i]).1 > zero_key by {
            assert(d[i] == scored[i]);
        }
        lemma_bmw_room_takes_every_positive(h, seg_block, d, zero_key);
        let prev = offer_all(h, seg_block, d, zero_key);
        let x = scored.last();
        assert(x == scored[scored.len() - 1]);
        assert(bmw_offers(prev, x.1, zero_key));
        let e = segment_entry(seg_block, x);
        crate::heap::lemma_sifted_up_keeps(prev.entries.push(e), prev.entries.len() as int);
        assert(scored.map_values(f) =~= d.map_values(f).push(e));
        assert(h.entries.to_multiset().add(d.map_values(f).to_multiset().insert(e))
            =~= h.entries.to_multiset().add(d.map_values(f).to_multiset()).insert(e));
    }
}

/// Skipping a block loses nothing: when a block's bound does not beat the threshold
/// and no posting of the block scores above its bound, offering the block's postings
/// leaves the heap's entries as they were.
pub proof fn lemma_bmw_skip_is_safe(
    h: TopKHeapView,
    seg_block: u32,
    scored: Seq<(u32, u32)>,
    zero_key: u32,
    block_max_key: u32,
)
    requires
        result_heap_wf(h),
        h.capacity > 0,
        block_max_key <= bmw_threshold(h, zero_key),
        forall|i: int| 0 <= i < scored.len() ==> (#[trigger] scored[i]).1 <= block_max_key,
    ensures
        offer_all(h, seg_block, scored, zero_key).entries == h.entries,
        offer_all(h, seg_block, scored, zero_key).capacity == h.capacity,
    decreases scored.len(),
{
    if scored.len() > 0 {
        let d = scored.drop_last();
        assert forall|i: int| 0 <= i < d.len() implies (#[trigger] d[i]).1 <= block_max_key by {
            assert(d[i] == scored[i]);
        }
        lemma_bmw_skip_is_safe(h, seg_block, d, zero_key, block_max_key);
        assert(scored.last() == scored[scored.len() - 1]);
    }
}

} // verus!
