use pg_textsearch::topk::TopKHeap;

/// Order-preserving key of a (non-NaN) score.
fn key(score: f32) -> u32 {
    let score = if score == 0.0 { 0.0f32 } else { score };
    let bits = score.to_bits();
    if bits & 0x8000_0000 != 0 {
        !bits
    } else {
        bits | 0x8000_0000
    }
}

fn unkey(k: u32) -> f32 {
    if k & 0x8000_0000 != 0 {
        f32::from_bits(k & 0x7FFF_FFFF)
    } else {
        f32::from_bits(!k)
    }
}

fn threshold(heap: &TopKHeap) -> f32 {
    heap.threshold().map(unkey).unwrap_or(0.0)
}

fn extract(heap: &mut TopKHeap, n: usize) -> (usize, Vec<u32>, Vec<f32>) {
    let mut indices = vec![0u32; n];
    let mut keys = vec![0u32; n];
    let count = heap.extract_sorted(&mut indices, &mut keys);
    let scores = keys[..count].iter().map(|&k| unkey(k)).collect();
    (count, indices, scores)
}

#[test]
fn test_empty_heap() {
    let heap = TopKHeap::new(5);
    assert_eq!(threshold(&heap), 0.0);
    assert_eq!(heap.len(), 0);
    assert!(heap.is_empty());
    assert!(!heap.dominated(key(0.0)));
}

#[test]
fn test_add_below_capacity() {
    let mut heap = TopKHeap::new(3);
    assert!(heap.add(0, key(5.0)));
    assert!(heap.add(1, key(3.0)));
    assert!(heap.add(2, key(7.0)));
    assert_eq!(heap.len(), 3);
    // Threshold should be the minimum score
    assert_eq!(threshold(&heap), 3.0);
}

#[test]
fn test_add_above_threshold() {
    let mut heap = TopKHeap::new(3);
    heap.add(0, key(5.0));
    heap.add(1, key(3.0));
    heap.add(2, key(7.0));

    // This should replace the 3.0 entry
    assert!(heap.add(3, key(4.0)));
    assert_eq!(threshold(&heap), 4.0);
}

#[test]
fn test_add_below_threshold() {
    let mut heap = TopKHeap::new(3);
    heap.add(0, key(5.0));
    heap.add(1, key(3.0));
    heap.add(2, key(7.0));

    // This should be rejected (below threshold of 3.0)
    assert!(!heap.add(3, key(2.0)));
    assert_eq!(heap.len(), 3);
}

#[test]
fn test_dominated() {
    let mut heap = TopKHeap::new(2);
    heap.add(0, key(5.0));
    heap.add(1, key(3.0));

    assert!(heap.dominated(key(2.0))); // below threshold
    assert!(!heap.dominated(key(3.0))); // at threshold (equal)
    assert!(!heap.dominated(key(4.0))); // above threshold
}

#[test]
fn test_extract_sorted() {
    let mut heap = TopKHeap::new(5);
    heap.add(0, key(3.0));
    heap.add(1, key(7.0));
    heap.add(2, key(1.0));
    heap.add(3, key(5.0));
    heap.add(4, key(9.0));

    let (count, indices, scores) = extract(&mut heap, 5);

    assert_eq!(count, 5);
    // Should be descending by score
    assert_eq!(scores[0], 9.0);
    assert_eq!(scores[1], 7.0);
    assert_eq!(scores[2], 5.0);
    assert_eq!(scores[3], 3.0);
    assert_eq!(scores[4], 1.0);

    // Indices should match
    assert_eq!(indices[0], 4); // score 9.0
    assert_eq!(indices[1], 1); // score 7.0
    assert_eq!(indices[2], 3); // score 5.0
    assert_eq!(indices[3], 0); // score 3.0
    assert_eq!(indices[4], 2); // score 1.0

    // Heap should be empty after extraction
    assert!(heap.is_empty());
}

#[test]
fn test_extract_with_evictions() {
    let mut heap = TopKHeap::new(3);
    heap.add(0, key(1.0));
    heap.add(1, key(2.0));
    heap.add(2, key(3.0));
    heap.add(3, key(4.0)); // evicts 1.0
    heap.add(4, key(5.0)); // evicts 2.0

    let (count, _indices, scores) = extract(&mut heap, 3);

    assert_eq!(count, 3);
    assert_eq!(scores[0], 5.0);
    assert_eq!(scores[1], 4.0);
    assert_eq!(scores[2], 3.0);
}

#[test]
fn test_capacity_one() {
    let mut heap = TopKHeap::new(1);
    heap.add(0, key(5.0));
    assert_eq!(threshold(&heap), 5.0);

    heap.add(1, key(3.0)); // rejected
    assert_eq!(threshold(&heap), 5.0);

    heap.add(2, key(7.0)); // replaces 5.0
    assert_eq!(threshold(&heap), 7.0);

    let (count, indices, scores) = extract(&mut heap, 1);
    assert_eq!(count, 1);
    assert_eq!(scores[0], 7.0);
    assert_eq!(indices[0], 2);
}

#[test]
fn keeps_the_top_k_of_many() {
    let mut heap = TopKHeap::new(4);
    let scores = [0.5f32, 9.0, -1.0, 3.5, 7.25, 3.5, 100.0, 0.0, 2.0, 8.0];
    for (i, s) in scores.iter().enumerate() {
        heap.add(i as u32, key(*s));
    }
    let (count, indices, got) = extract(&mut heap, 6);
    assert_eq!(count, 4);
    assert_eq!(got, vec![100.0, 9.0, 8.0, 7.25]);
    assert_eq!(&indices[..4], &[6, 1, 9, 4]);
    // The slots past the count are left alone.
    assert_eq!(&indices[4..], &[0, 0]);
}

#[test]
fn equal_scores_extract_by_index() {
    let mut heap = TopKHeap::new(3);
    heap.add(7, key(2.0));
    heap.add(3, key(2.0));
    heap.add(5, key(2.0));
    assert!(!heap.add(1, key(2.0)));
    let (count, indices, _) = extract(&mut heap, 3);
    assert_eq!(count, 3);
    assert_eq!(indices, vec![3, 5, 7]);
}

#[test]
fn key_order_matches_score_order() {
    let xs = [-5.0f32, -0.5, 0.0, 1e-30, 0.5, 1.0, 3.0e9];
    for w in xs.windows(2) {
        assert!(key(w[0]) < key(w[1]));
        assert_eq!(unkey(key(w[0])), w[0]);
    }
    assert_eq!(key(-0.0), key(0.0));
}
