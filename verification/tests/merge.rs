use pg_textsearch::segment::format::{PostingEntry, TpTenantStats};
use pg_textsearch::segment::merge::{
    compute_tenant_docfreqs, merge_postings, merge_postings_tenant, merge_tenant_stats,
    merge_term_lists,
};

fn p(doc_id: u32, frequency: u16, fieldnorm: u8) -> PostingEntry {
    PostingEntry { doc_id, frequency, fieldnorm, tenant_id: 0 }
}

fn pt(doc_id: u32, frequency: u16, fieldnorm: u8, tenant_id: u32) -> PostingEntry {
    PostingEntry { doc_id, frequency, fieldnorm, tenant_id }
}

#[test]
fn test_merge_postings_single_source() {
    let postings = vec![p(1, 3, 42), p(5, 1, 55)];
    let merged = merge_postings(&[&postings], None);
    assert_eq!(merged.len(), 2);
    assert_eq!(merged[0].doc_id, 1);
    assert_eq!(merged[1].doc_id, 5);
}

#[test]
fn test_merge_postings_two_sources() {
    let src1 = vec![p(1, 3, 42), p(5, 1, 55)];
    let src2 = vec![p(2, 2, 30), p(7, 4, 60)];

    let merged = merge_postings(&[&src1, &src2], None);
    assert_eq!(merged.len(), 4);
    assert_eq!(merged[0].doc_id, 1);
    assert_eq!(merged[1].doc_id, 2);
    assert_eq!(merged[2].doc_id, 5);
    assert_eq!(merged[3].doc_id, 7);
}

#[test]
fn test_merge_postings_with_remap() {
    let src1 = vec![p(0, 3, 42)];
    let src2 = vec![p(0, 1, 55)];

    let map1 = vec![10u32];
    let map2 = vec![20u32];
    let maps: Vec<&[u32]> = vec![&map1, &map2];

    let merged = merge_postings(&[&src1, &src2], Some(&maps));
    assert_eq!(merged.len(), 2);
    assert_eq!(merged[0].doc_id, 10);
    assert_eq!(merged[1].doc_id, 20);
}

#[test]
fn test_merge_term_lists() {
    let src1 = vec![
        ("alpha".to_string(), vec![p(0, 1, 42)]),
        ("beta".to_string(), vec![p(1, 2, 42)]),
    ];
    let src2 = vec![
        ("beta".to_string(), vec![p(0, 3, 55)]),
        ("gamma".to_string(), vec![p(1, 1, 30)]),
    ];

    let merged = merge_term_lists(&[src1, src2], None);
    assert_eq!(merged.len(), 3);
    assert_eq!(merged[0].0, "alpha");
    assert_eq!(merged[1].0, "beta");
    assert_eq!(merged[1].1.len(), 2);
    assert_eq!(merged[2].0, "gamma");
}

#[test]
fn test_merge_postings_tenant_sorted() {
    let src1 = vec![pt(0, 1, 42, 10), pt(1, 2, 42, 20)];
    let src2 = vec![pt(0, 3, 55, 10), pt(1, 1, 30, 20)];

    let merged = merge_postings_tenant(&[&src1, &src2], None);
    assert_eq!(merged.len(), 4);
    // Should be sorted by (tenant_id, doc_id)
    assert_eq!(merged[0].tenant_id, 10);
    assert_eq!(merged[1].tenant_id, 10);
    assert_eq!(merged[2].tenant_id, 20);
    assert_eq!(merged[3].tenant_id, 20);
}

#[test]
fn test_merge_tenant_stats() {
    let src1 = vec![
        TpTenantStats { tenant_id: 1, num_docs: 100, total_tokens: 5000 },
        TpTenantStats { tenant_id: 2, num_docs: 50, total_tokens: 2000 },
    ];
    let src2 = vec![TpTenantStats { tenant_id: 1, num_docs: 200, total_tokens: 10000 }];

    let merged = merge_tenant_stats(&[&src1, &src2]);
    assert_eq!(merged.len(), 2);
    assert_eq!(merged[0].tenant_id, 1);
    assert_eq!(merged[0].num_docs, 300);
    assert_eq!(merged[0].total_tokens, 15000);
    assert_eq!(merged[1].tenant_id, 2);
    assert_eq!(merged[1].num_docs, 50);
}

#[test]
fn test_compute_tenant_docfreqs() {
    let postings = vec![
        pt(0, 1, 42, 10),
        pt(1, 2, 42, 10),
        pt(2, 1, 55, 10),
        pt(3, 3, 30, 20),
        pt(4, 1, 42, 20),
    ];
    let freqs = compute_tenant_docfreqs(&postings);
    assert_eq!(freqs.len(), 2);
    assert_eq!(freqs[0].tenant_id, 10);
    assert_eq!(freqs[0].doc_freq, 3);
    assert_eq!(freqs[1].tenant_id, 20);
    assert_eq!(freqs[1].doc_freq, 2);
}

#[test]
fn merge_is_stable_for_equal_doc_ids() {
    let src1 = vec![p(3, 1, 1), p(3, 2, 2)];
    let src2 = vec![p(1, 9, 9), p(3, 3, 3)];
    let merged = merge_postings(&[&src1, &src2], None);
    let freqs: Vec<u16> = merged.iter().map(|e| e.frequency).collect();
    assert_eq!(freqs, vec![9, 1, 2, 3]);
}

#[test]
fn tenant_merge_orders_by_tenant_then_doc() {
    let src1 = vec![pt(5, 1, 0, 2), pt(1, 1, 0, 2)];
    let src2 = vec![pt(9, 1, 0, 1), pt(0, 1, 0, 3)];
    let merged = merge_postings_tenant(&[&src1, &src2], None);
    let keys: Vec<(u32, u32)> = merged.iter().map(|e| (e.tenant_id, e.doc_id)).collect();
    assert_eq!(keys, vec![(1, 9), (2, 1), (2, 5), (3, 0)]);
}

#[test]
fn merge_term_lists_with_maps_and_duplicates() {
    let src1 = vec![
        ("b".to_string(), vec![p(1, 1, 0)]),
        ("a".to_string(), vec![p(0, 2, 0)]),
        ("b".to_string(), vec![p(0, 7, 0)]),
    ];
    let src2 = vec![("b".to_string(), vec![p(0, 3, 0)])];
    let map1 = vec![0u32, 1];
    let map2 = vec![2u32];
    let maps: Vec<&[u32]> = vec![&map1, &map2];
    let merged = merge_term_lists(&[src1, src2], Some(&maps));
    assert_eq!(merged.len(), 2);
    assert_eq!(merged[0].0, "a");
    assert_eq!(merged[0].1, vec![p(0, 2, 0)]);
    // Only the first "b" of the first source is read.
    assert_eq!(merged[1].0, "b");
    assert_eq!(merged[1].1, vec![p(1, 1, 0), p(2, 3, 0)]);
}

#[test]
fn empty_inputs_merge_to_nothing() {
    assert!(merge_postings(&[], None).is_empty());
    assert!(merge_term_lists(&[], None).is_empty());
    assert!(merge_tenant_stats(&[]).is_empty());
    assert!(compute_tenant_docfreqs(&[]).is_empty());
}

#[test]
fn docfreqs_add_up_to_posting_count() {
    let postings = vec![
        pt(7, 1, 0, 3),
        pt(1, 1, 0, 9),
        pt(2, 1, 0, 3),
        pt(5, 1, 0, 1),
        pt(3, 1, 0, 9),
        pt(9, 1, 0, 3),
    ];
    let freqs = compute_tenant_docfreqs(&postings);
    let total: u32 = freqs.iter().map(|f| f.doc_freq).sum();
    assert_eq!(total as usize, postings.len());
    let ids: Vec<u32> = freqs.iter().map(|f| f.tenant_id).collect();
    assert_eq!(ids, vec![1, 3, 9]);
}

#[test]
fn tenant_aggregates_ignore_input_order() {
    let a = vec![
        TpTenantStats { tenant_id: 4, num_docs: 2, total_tokens: 20 },
        TpTenantStats { tenant_id: 1, num_docs: 5, total_tokens: 7 },
    ];
    let b = vec![TpTenantStats { tenant_id: 4, num_docs: 3, total_tokens: 1 }];
    let fwd = merge_tenant_stats(&[&a, &b]);
    let rev_a: Vec<TpTenantStats> = a.iter().rev().copied().collect();
    let back = merge_tenant_stats(&[&b, &rev_a]);
    assert_eq!(fwd, back);
    let postings = vec![pt(0, 1, 0, 2), pt(1, 1, 0, 1), pt(2, 1, 0, 2)];
    let shuffled = vec![pt(2, 1, 0, 2), pt(0, 1, 0, 2), pt(1, 1, 0, 1)];
    assert_eq!(compute_tenant_docfreqs(&postings), compute_tenant_docfreqs(&shuffled));
}
