use pg_textsearch::segment::dictionary::{encode_dictionary, lookup_term};
use pg_textsearch::segment::format::TpDictEntry;

fn entry_bytes(e: &TpDictEntry) -> Vec<u8> {
    let mut b = Vec::new();
    b.extend_from_slice(&e.skip_index_offset.to_le_bytes());
    b.extend_from_slice(&e.block_count.to_le_bytes());
    b.extend_from_slice(&e.reserved.to_le_bytes());
    b.extend_from_slice(&e.doc_freq.to_le_bytes());
    b
}

fn test_entry(i: usize) -> TpDictEntry {
    TpDictEntry {
        skip_index_offset: (i * 100) as u32,
        block_count: (i + 1) as u16,
        reserved: 0,
        doc_freq: (i * 10 + 5) as u32,
    }
}

/// Lay out `[padding][dict][strings][entries]` with filled entries; returns the data
/// and the three offsets.
fn build(terms: &[&str], pad: usize) -> (Vec<u8>, u32, u32, u32) {
    let (dict, strings, mut entries) = encode_dictionary(terms);
    for i in 0..terms.len() {
        let offset = i * std::mem::size_of::<TpDictEntry>();
        entries[offset..offset + 12].copy_from_slice(&entry_bytes(&test_entry(i)));
    }
    let dict_offset = pad as u32;
    let strings_offset = dict_offset + dict.len() as u32;
    let entries_offset = strings_offset + strings.len() as u32;
    let mut data = vec![0u8; pad];
    data.extend_from_slice(&dict);
    data.extend_from_slice(&strings);
    data.extend_from_slice(&entries);
    (data, dict_offset, strings_offset, entries_offset)
}

#[test]
fn test_encode_dictionary() {
    let terms = vec!["alpha", "beta", "gamma"];
    let (dict, strings, entries) = encode_dictionary(&terms);

    // Check num_terms
    let num = u32::from_le_bytes(dict[0..4].try_into().unwrap());
    assert_eq!(num, 3);

    // Check entries placeholder size
    assert_eq!(entries.len(), 3 * std::mem::size_of::<TpDictEntry>());

    // Strings should contain all terms
    assert!(strings.len() > 0);
}

#[test]
fn test_lookup_in_encoded_dictionary() {
    let terms = vec!["alpha", "beta", "gamma", "delta"];
    let (_data, _d, _s, _e) = build(&terms, 100);

    // Look up existing terms (terms must be sorted for binary search)
    let mut sorted_terms = terms.clone();
    sorted_terms.sort();
    let (data2, dict_offset2, strings_offset2, entries_offset2) = build(&sorted_terms, 100);

    // Look up "beta" (should be at index 1 in sorted order)
    let result = lookup_term(&data2, dict_offset2, strings_offset2, entries_offset2, "beta");
    assert!(result.is_some());
    let entry = result.unwrap();
    assert_eq!(entry.block_count, 2); // index 1 → block_count = 2

    // Look up non-existent term
    let result = lookup_term(&data2, dict_offset2, strings_offset2, entries_offset2, "zeta");
    assert!(result.is_none());
}

#[test]
fn encoded_dictionary_exact_bytes() {
    let (dict, strings, entries) = encode_dictionary(&["ab", "c"]);
    assert_eq!(dict, vec![2, 0, 0, 0, 0, 0, 0, 0, 10, 0, 0, 0]);
    assert_eq!(
        strings,
        vec![2, 0, 0, 0, b'a', b'b', 0, 0, 0, 0, 1, 0, 0, 0, b'c', 12, 0, 0, 0]
    );
    assert_eq!(entries, vec![0u8; 24]);
}

#[test]
fn lookup_finds_every_term_and_nothing_else() {
    let terms = ["alpha", "beta", "delta", "gamma", "zeta"];
    let (data, d, s, e) = build(&terms, 37);
    for (i, t) in terms.iter().enumerate() {
        assert_eq!(lookup_term(&data, d, s, e, t), Some(test_entry(i)));
    }
    for absent in ["", "a", "alphabet", "carrot", "omega", "zz"] {
        assert_eq!(lookup_term(&data, d, s, e, absent), None);
    }
}

#[test]
fn lookup_in_empty_or_truncated_dictionary() {
    let (data, d, s, e) = build(&[], 8);
    assert_eq!(lookup_term(&data, d, s, e, "x"), None);
    // Dictionary offset past the data.
    assert_eq!(lookup_term(&[0u8; 3], 0, 0, 0, "x"), None);
}

#[test]
fn lookup_entry_past_data_is_none() {
    let terms = ["one", "two"];
    let (mut data, d, s, e) = build(&terms, 0);
    data.truncate(data.len() - 1);
    assert_eq!(lookup_term(&data, d, s, e, "one"), Some(test_entry(0)));
    assert_eq!(lookup_term(&data, d, s, e, "two"), None);
}

#[test]
fn lookup_in_damaged_dictionary_is_none() {
    let terms = ["alpha", "beta", "gamma"];
    let (mut data, d, s, e) = build(&terms, 0);
    // The dictionary claims more terms than the data holds offsets for.
    data[d as usize] = 200;
    assert_eq!(lookup_term(&data, d, s, e, "zzz"), None);
    // A string offset that points past the data.
    let (mut data2, d2, s2, e2) = build(&terms, 0);
    let mid = d2 as usize + 4 + 4;
    data2[mid..mid + 4].copy_from_slice(&u32::MAX.to_le_bytes());
    assert_eq!(lookup_term(&data2, d2, s2, e2, "beta"), None);
}
