use pg_textsearch::bmw::{bmw_block_step, bmw_score_block, BMWStats, TopKHeap};

/// Order-preserving key of a (non-NaN) score.
fn key(score: f32) -> u32 {
    let score = if score == 0.0 { 0.0f32 } else { score };
    let bits = score.to_bits();
    if bits & 0x8000_0000 != 0 {
        !bits
    } else {
        bits | 0x8000_0000
    }
}

#[test]
fn blocks_skip_until_they_beat_the_threshold() {
    let zero = key(0.0);
    let mut heap = TopKHeap::new(2);
    let mut stats = BMWStats::default();
    // Not full: the threshold is zero, so any positive bound scans.
    assert!(bmw_block_step(&heap, key(1.0), zero, &mut stats));
    assert!(!bmw_block_step(&heap, key(0.0), zero, &mut stats));
    bmw_score_block(&mut heap, 7, &[(1, key(3.0)), (2, key(0.0)), (3, key(5.0))], zero, &mut stats);
    assert_eq!(heap.len(), 2);
    // Full: the threshold is 3.0.
    assert!(!bmw_block_step(&heap, key(3.0), zero, &mut stats));
    assert!(bmw_block_step(&heap, key(3.5), zero, &mut stats));
    // 2.0 is dominated, 3.0 is offered but does not beat the root, 4.0 replaces it.
    bmw_score_block(&mut heap, 7, &[(4, key(2.0)), (5, key(3.0)), (6, key(4.0))], zero, &mut stats);
    assert_eq!(stats.blocks_scanned, 2);
    assert_eq!(stats.blocks_skipped, 2);
    assert_eq!(stats.segment_docs_scored, 6);
    let docs: Vec<(u32, u32)> = heap.extract_sorted().iter().map(|d| (d.doc_id, d.seg_block)).collect();
    assert_eq!(docs, vec![(3, 7), (6, 7)]);
}

#[test]
fn empty_heap_scores_nothing_without_positive_scores() {
    let zero = key(0.0);
    let mut heap = TopKHeap::new(0);
    let mut stats = BMWStats::default();
    bmw_score_block(&mut heap, 1, &[(1, key(0.0)), (2, key(-1.0))], zero, &mut stats);
    assert!(heap.is_empty());
    assert_eq!(stats.segment_docs_scored, 2);
}
