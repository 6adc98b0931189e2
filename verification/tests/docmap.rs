use pg_textsearch::segment::docmap::{build_merge_remap, total_docs};

#[test]
fn test_build_merge_remap_single() {
    let maps = build_merge_remap(&[5]);
    assert_eq!(maps.len(), 1);
    assert_eq!(maps[0], vec![0, 1, 2, 3, 4]);
}

#[test]
fn test_build_merge_remap_multiple() {
    let maps = build_merge_remap(&[3, 2, 4]);
    assert_eq!(maps.len(), 3);
    assert_eq!(maps[0], vec![0, 1, 2]);
    assert_eq!(maps[1], vec![3, 4]);
    assert_eq!(maps[2], vec![5, 6, 7, 8]);
}

#[test]
fn test_build_merge_remap_empty() {
    let maps = build_merge_remap(&[]);
    assert!(maps.is_empty());
}

#[test]
fn test_build_merge_remap_with_zero() {
    let maps = build_merge_remap(&[2, 0, 3]);
    assert_eq!(maps.len(), 3);
    assert_eq!(maps[0], vec![0, 1]);
    assert!(maps[1].is_empty());
    assert_eq!(maps[2], vec![2, 3, 4]);
}

#[test]
fn test_total_docs() {
    assert_eq!(total_docs(&[3, 2, 4]), 9);
    assert_eq!(total_docs(&[]), 0);
    assert_eq!(total_docs(&[0, 0, 0]), 0);
}

#[test]
fn remap_covers_every_new_id_once() {
    let counts = [4u32, 1, 0, 3];
    let maps = build_merge_remap(&counts);
    let mut all: Vec<u32> = maps.iter().flatten().copied().collect();
    all.sort();
    let expected: Vec<u32> = (0..total_docs(&counts)).collect();
    assert_eq!(all, expected);
}
