use pg_textsearch::bmw::{ScoredDoc, TopKHeap};

/// Order-preserving key of a (non-NaN) score.
fn key(score: f32) -> u32 {
    let score = if score == 0.0 { 0.0f32 } else { score };
    let bits = score.to_bits();
    if bits & 0x8000_0000 != 0 {
        !bits
    } else {
        bits | 0x8000_0000
    }
}

fn unkey(k: u32) -> f32 {
    if k & 0x8000_0000 != 0 {
        f32::from_bits(k & 0x7FFF_FFFF)
    } else {
        f32::from_bits(!k)
    }
}

fn threshold(heap: &TopKHeap) -> f32 {
    heap.threshold().map(unkey).unwrap_or(0.0)
}

#[test]
fn test_topk_empty() {
    let heap = TopKHeap::new(10);
    assert_eq!(threshold(&heap), 0.0);
    assert!(!heap.dominated(key(1.0)));
    assert!(heap.is_empty());
}

#[test]
fn test_topk_add_below_capacity() {
    let mut heap = TopKHeap::new(3);
    heap.add_memtable(1, 1, key(5.0));
    heap.add_memtable(2, 1, key(3.0));

    assert_eq!(heap.len(), 2);
    assert_eq!(threshold(&heap), 0.0); // Not full yet
}

#[test]
fn test_topk_threshold_when_full() {
    let mut heap = TopKHeap::new(3);
    heap.add_memtable(1, 1, key(5.0));
    heap.add_memtable(2, 1, key(3.0));
    heap.add_memtable(3, 1, key(7.0));

    assert_eq!(heap.len(), 3);
    assert_eq!(threshold(&heap), 3.0); // Min score
}

#[test]
fn test_topk_eviction() {
    let mut heap = TopKHeap::new(3);
    heap.add_memtable(1, 1, key(5.0));
    heap.add_memtable(2, 1, key(3.0));
    heap.add_memtable(3, 1, key(7.0));

    // Add higher score - should evict 3.0
    heap.add_memtable(4, 1, key(10.0));

    assert_eq!(heap.len(), 3);
    assert_eq!(threshold(&heap), 5.0);
}

#[test]
fn test_topk_dominated() {
    let mut heap = TopKHeap::new(2);
    heap.add_memtable(1, 1, key(5.0));
    heap.add_memtable(2, 1, key(3.0));

    assert!(heap.dominated(key(2.0)));
    assert!(!heap.dominated(key(4.0)));
}

#[test]
fn test_topk_extract_sorted() {
    let mut heap = TopKHeap::new(5);
    heap.add_memtable(1, 1, key(5.0));
    heap.add_memtable(2, 1, key(3.0));
    heap.add_memtable(3, 1, key(7.0));
    heap.add_memtable(4, 1, key(1.0));

    let results = heap.extract_sorted();
    assert_eq!(results.len(), 4);
    assert_eq!(unkey(results[0].score), 7.0);
    assert_eq!(unkey(results[1].score), 5.0);
    assert_eq!(unkey(results[2].score), 3.0);
    assert_eq!(unkey(results[3].score), 1.0);
}

#[test]
fn test_topk_segment_results() {
    let mut heap = TopKHeap::new(3);
    heap.add_segment(100, 0, key(5.0));
    heap.add_segment(100, 1, key(3.0));
    heap.add_memtable(1, 1, key(7.0));

    let results = heap.extract_sorted();
    assert_eq!(results.len(), 3);
    assert_eq!(unkey(results[0].score), 7.0);
    assert_eq!(results[0].seg_block, u32::MAX); // memtable
    assert_eq!(results[1].seg_block, 100); // segment
}

#[test]
fn equal_scores_evict_highest_ctid_first() {
    let mut heap = TopKHeap::new(2);
    heap.add_memtable(5, 1, key(2.0));
    heap.add_memtable(3, 1, key(2.0));
    // Equal score does not beat the root.
    heap.add_memtable(1, 1, key(2.0));
    assert_eq!(heap.len(), 2);
    // A higher score replaces the weakest: the higher CTID.
    heap.add_memtable(9, 9, key(4.0));
    let results = heap.extract_sorted();
    let got: Vec<(u32, f32)> = results.iter().map(|d| (d.ctid_page, unkey(d.score))).collect();
    assert_eq!(got, vec![(9, 4.0), (3, 2.0)]);
    assert!(heap.is_empty());
}

#[test]
fn extract_orders_ties_by_ctid() {
    let mut heap = TopKHeap::new(4);
    heap.add_memtable(2, 7, key(1.0));
    heap.add_memtable(2, 3, key(1.0));
    heap.add_memtable(1, 9, key(1.0));
    heap.add_segment(5, 4, key(6.0));
    let results = heap.extract_sorted();
    assert_eq!(
        results,
        vec![
            ScoredDoc { ctid_page: 0, ctid_offset: 0, seg_block: 5, doc_id: 4, score: key(6.0) },
            ScoredDoc { ctid_page: 1, ctid_offset: 9, seg_block: u32::MAX, doc_id: 0, score: key(1.0) },
            ScoredDoc { ctid_page: 2, ctid_offset: 3, seg_block: u32::MAX, doc_id: 0, score: key(1.0) },
            ScoredDoc { ctid_page: 2, ctid_offset: 7, seg_block: u32::MAX, doc_id: 0, score: key(1.0) },
        ]
    );
}

#[test]
fn zero_capacity_takes_nothing() {
    let mut heap = TopKHeap::new(0);
    heap.add_segment(1, 2, key(3.0));
    assert!(heap.is_empty());
    assert!(heap.extract_sorted().is_empty());
}
