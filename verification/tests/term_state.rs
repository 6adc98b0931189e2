use pg_textsearch::bmw::term_state::{restore_ordering, sort_terms_by_doc_id, TermState};
use pg_textsearch::bmw::BlockPosting;

fn test_new(current_doc_id: u32, query_freq: i32) -> TermState {
    TermState {
        query_freq,
        found: true,
        finished: false,
        block_last_doc_ids: vec![u32::MAX],
        current_block: 0,
        current_in_block: 0,
        block_count: 1,
        current_postings: vec![BlockPosting { doc_id: current_doc_id, frequency: 1, fieldnorm: 42 }],
    }
}

#[test]
fn test_current_doc_id() {
    let ts = test_new(42, 1);
    assert_eq!(ts.current_doc_id(), 42);
}

#[test]
fn test_current_doc_id_finished() {
    let mut ts = test_new(42, 1);
    ts.finished = true;
    assert_eq!(ts.current_doc_id(), u32::MAX);
}

#[test]
fn test_advance_in_block() {
    let mut ts = TermState {
        current_postings: vec![
            BlockPosting { doc_id: 1, frequency: 1, fieldnorm: 42 },
            BlockPosting { doc_id: 5, frequency: 2, fieldnorm: 42 },
        ],
        ..test_new(1, 1)
    };

    assert_eq!(ts.current_doc_id(), 1);
    assert!(ts.advance_in_block());
    assert_eq!(ts.current_doc_id(), 5);
    assert!(!ts.advance_in_block());
}

#[test]
fn test_find_block_for_doc() {
    let ts = TermState {
        block_last_doc_ids: vec![127, 255, 383, 500],
        current_block: 0,
        ..test_new(0, 1)
    };

    assert_eq!(ts.find_block_for_doc(0), Some(0));
    assert_eq!(ts.find_block_for_doc(127), Some(0));
    assert_eq!(ts.find_block_for_doc(128), Some(1));
    assert_eq!(ts.find_block_for_doc(400), Some(3));
    assert_eq!(ts.find_block_for_doc(501), None);
}

#[test]
fn test_sort_terms_by_doc_id() {
    let mut terms = vec![test_new(30, 1), test_new(10, 1), test_new(20, 1)];

    sort_terms_by_doc_id(&mut terms);

    assert_eq!(terms[0].current_doc_id(), 10);
    assert_eq!(terms[1].current_doc_id(), 20);
    assert_eq!(terms[2].current_doc_id(), 30);
}

#[test]
fn test_restore_ordering() {
    let mut terms = vec![test_new(10, 1), test_new(20, 1), test_new(30, 1)];

    // Advance term[0] past term[1]
    terms[0].current_postings[0].doc_id = 25;
    restore_ordering(&mut terms, 0);

    assert_eq!(terms[0].current_doc_id(), 20);
    assert_eq!(terms[1].current_doc_id(), 25);
    assert_eq!(terms[2].current_doc_id(), 30);
}

#[test]
fn test_restore_ordering_no_move() {
    let mut terms = vec![test_new(10, 1), test_new(20, 1)];

    // term[0] still less than term[1] — no move needed
    terms[0].current_postings[0].doc_id = 15;
    restore_ordering(&mut terms, 0);

    assert_eq!(terms[0].current_doc_id(), 15);
    assert_eq!(terms[1].current_doc_id(), 20);
}

#[test]
fn test_restore_ordering_move_to_end() {
    let mut terms = vec![test_new(10, 1), test_new(20, 1), test_new(30, 1)];

    // Advance term[0] past all others
    terms[0].current_postings[0].doc_id = 50;
    restore_ordering(&mut terms, 0);

    assert_eq!(terms[0].current_doc_id(), 20);
    assert_eq!(terms[1].current_doc_id(), 30);
    assert_eq!(terms[2].current_doc_id(), 50);
}

#[test]
fn sort_is_stable_and_exhausted_terms_go_last() {
    let mut done = test_new(1, 9);
    done.finished = true;
    let mut terms = vec![test_new(5, 1), done, test_new(3, 2), test_new(5, 3)];
    sort_terms_by_doc_id(&mut terms);
    let order: Vec<(u32, i32)> = terms.iter().map(|t| (t.current_doc_id(), t.query_freq)).collect();
    assert_eq!(order, vec![(3, 2), (5, 1), (5, 3), (u32::MAX, 9)]);
}

#[test]
fn restore_stops_before_equal_doc() {
    let mut terms = vec![test_new(10, 1), test_new(20, 2), test_new(30, 3)];
    terms[0].current_postings[0].doc_id = 30;
    restore_ordering(&mut terms, 0);
    let order: Vec<(u32, i32)> = terms.iter().map(|t| (t.current_doc_id(), t.query_freq)).collect();
    assert_eq!(order, vec![(20, 2), (30, 1), (30, 3)]);
}

#[test]
fn find_block_starts_at_current_block() {
    let ts = TermState { block_last_doc_ids: vec![10, 20, 30], current_block: 2, ..test_new(0, 1) };
    assert_eq!(ts.find_block_for_doc(5), Some(2));
    let past = TermState { block_last_doc_ids: vec![10, 20], current_block: 5, ..test_new(0, 1) };
    assert_eq!(past.find_block_for_doc(5), None);
    let empty = TermState { block_last_doc_ids: vec![], ..test_new(0, 1) };
    assert_eq!(empty.find_block_for_doc(0), None);
}

#[test]
fn current_posting_follows_position() {
    let mut ts = test_new(8, 1);
    assert_eq!(ts.current_posting(), Some(&BlockPosting { doc_id: 8, frequency: 1, fieldnorm: 42 }));
    assert!(!ts.advance_in_block());
    assert_eq!(ts.current_posting(), None);
    assert_eq!(ts.current_doc_id(), u32::MAX);
}

#[test]
fn sort_many_terms_keeps_ties_in_order() {
    let docs = [9u32, 4, 9, 1, 4, 7, 1, 9, 0, 4, 7];
    let mut terms: Vec<TermState> = docs.iter().enumerate().map(|(i, d)| test_new(*d, i as i32)).collect();
    sort_terms_by_doc_id(&mut terms);
    let order: Vec<(u32, i32)> = terms.iter().map(|t| (t.current_doc_id(), t.query_freq)).collect();
    assert_eq!(
        order,
        vec![(0, 8), (1, 3), (1, 6), (4, 1), (4, 4), (4, 9), (7, 5), (7, 10), (9, 0), (9, 2), (9, 7)]
    );
}
