use pg_textsearch::segment::dictionary::lookup_term;
use pg_textsearch::segment::format::{
    PostingEntry, TpTenantDocFreq, TpTenantStats, TP_SEGMENT_FORMAT_VERSION, TP_SEGMENT_MAGIC,
};
use pg_textsearch::segment::reader::{read_header, read_posting_block, read_skip_entry};
use pg_textsearch::segment::writer::SegmentBuilder;
use pg_textsearch::types::TpBlockPosting;

fn pe(doc_id: u32, frequency: u16, fieldnorm: u8) -> PostingEntry {
    PostingEntry { doc_id, frequency, fieldnorm, tenant_id: 0 }
}

#[test]
fn test_segment_builder_basic() {
    let mut builder = SegmentBuilder::new(true);

    let terms = vec!["hello", "world"];
    builder.write_header_placeholder();
    builder.write_dictionary(&terms);
    builder.write_strings(&terms);
    builder.reserve_entries(terms.len());
    builder.set_stats(10, 500);

    // Write postings for "hello"
    let postings = vec![
        PostingEntry { doc_id: 0, frequency: 3, fieldnorm: 42, tenant_id: 0 },
        PostingEntry { doc_id: 5, frequency: 1, fieldnorm: 55, tenant_id: 0 },
    ];
    builder.write_term_postings(&postings);

    // Write postings for "world"
    let postings2 = vec![PostingEntry { doc_id: 2, frequency: 2, fieldnorm: 42, tenant_id: 0 }];
    builder.write_term_postings(&postings2);

    let skip_off = builder.write_skip_index();
    let fnorm_off = builder.write_fieldnorms(&[42, 55, 42, 0, 0, 5, 0, 0, 0, 0]);
    let ctid_pages_off = builder.write_ctid_pages(&[1, 1, 1, 2, 2, 2, 3, 3, 3, 3]);
    let ctid_off_off = builder.write_ctid_offsets(&[1, 2, 3, 1, 2, 3, 1, 2, 3, 4]);

    let data = builder.finish(0, 0, skip_off, fnorm_off, ctid_pages_off, ctid_off_off);
    assert!(!data.is_empty());

    // Verify header magic
    let magic = u32::from_le_bytes(data[0..4].try_into().unwrap());
    assert_eq!(magic, TP_SEGMENT_MAGIC);
}

/// Build a segment of the given terms and posting lists; returns its bytes.
fn build(terms: &[&str], lists: &[Vec<PostingEntry>], compress: bool) -> Vec<u8> {
    let mut builder = SegmentBuilder::new(compress);
    builder.write_header_placeholder();
    builder.write_dictionary(terms);
    builder.write_strings(terms);
    builder.reserve_entries(terms.len());
    builder.set_stats(7, 1234);
    for list in lists {
        builder.write_term_postings(list);
    }
    let skip_off = builder.write_skip_index();
    let fnorm_off = builder.write_fieldnorms(&[1, 2, 3]);
    let pages_off = builder.write_ctid_pages(&[9, 9]);
    let offs_off = builder.write_ctid_offsets(&[4, 5]);
    builder.finish(2, 77, skip_off, fnorm_off, pages_off, offs_off).to_vec()
}

fn blocks_of(data: &[u8], term: &str) -> Vec<Vec<TpBlockPosting>> {
    let h = read_header(data).unwrap();
    let de = lookup_term(data, h.dictionary_offset, h.strings_offset, h.entries_offset, term).unwrap();
    let mut out = Vec::new();
    for k in 0..de.block_count as u32 {
        let at = h.skip_index_offset + de.skip_index_offset + 16 * k;
        let skip = read_skip_entry(data, at as usize).unwrap();
        out.push(read_posting_block(&data[skip.posting_offset as usize..], &skip));
    }
    out
}

#[test]
fn finished_segment_reads_back() {
    let terms = ["apple", "banana", "cherry"];
    let many: Vec<PostingEntry> = (0..300u32).map(|i| pe(i * 2, (i % 5) as u16 + 1, (i % 7) as u8)).collect();
    let lists = vec![vec![pe(0, 3, 42), pe(5, 1, 55)], many.clone(), vec![pe(2, 2, 42)]];
    for compress in [false, true] {
        let data = build(&terms, &lists, compress);
        let h = read_header(&data).unwrap();
        assert_eq!(h.magic, TP_SEGMENT_MAGIC);
        assert_eq!(h.version, TP_SEGMENT_FORMAT_VERSION);
        assert_eq!(h.num_terms, 3);
        assert_eq!(h.num_docs, 7);
        assert_eq!(h.total_tokens, 1234);
        assert_eq!(h.level, 2);
        assert_eq!(h.next_segment, 77);
        assert_eq!(h.data_size as usize, data.len());
        assert_eq!(h.dictionary_offset, 104);

        for (t, list) in terms.iter().zip(lists.iter()) {
            let de = lookup_term(&data, h.dictionary_offset, h.strings_offset, h.entries_offset, t).unwrap();
            assert_eq!(de.doc_freq as usize, list.len());
            let blocks = blocks_of(&data, t);
            assert_eq!(blocks.len(), (list.len() + 127) / 128);
            let flat: Vec<TpBlockPosting> = blocks.into_iter().flatten().collect();
            let want: Vec<TpBlockPosting> = list
                .iter()
                .map(|p| TpBlockPosting { doc_id: p.doc_id, frequency: p.frequency, fieldnorm: p.fieldnorm, reserved: 0 })
                .collect();
            assert_eq!(flat, want);
        }
        assert!(lookup_term(&data, h.dictionary_offset, h.strings_offset, h.entries_offset, "durian").is_none());
    }
}

#[test]
fn skip_entries_point_at_consecutive_blocks() {
    let terms = ["t"];
    let list: Vec<PostingEntry> = (0..129u32).map(|i| pe(i, 1, 1)).collect();
    let data = build(&terms, &[list], false);
    let h = read_header(&data).unwrap();
    let s0 = read_skip_entry(&data, h.skip_index_offset as usize).unwrap();
    let s1 = read_skip_entry(&data, h.skip_index_offset as usize + 16).unwrap();
    assert_eq!(s0.doc_count, 128);
    assert_eq!(s0.last_doc_id, 127);
    assert_eq!(s1.doc_count, 1);
    assert_eq!(s1.last_doc_id, 128);
    assert_eq!(s1.posting_offset, s0.posting_offset + 128 * 8);
    assert_eq!(s0.posting_offset, h.postings_offset);
}

#[test]
fn tenant_sections_layout() {
    let mut builder = SegmentBuilder::new(false);
    let map_off = builder.write_tenant_map(&[7, 0x0102_0304]);
    assert_eq!(map_off, 0);
    let stats_off = builder.write_tenant_stats(&[TpTenantStats { tenant_id: 7, num_docs: 2, total_tokens: 0x1_0000_0005 }]);
    assert_eq!(stats_off, 8);
    let df_off = builder.write_tenant_docfreqs(&[
        vec![TpTenantDocFreq { tenant_id: 7, doc_freq: 3 }],
        vec![],
    ]);
    assert_eq!(df_off, 8 + 4 + 16);
    let data = builder.data();
    let mut want: Vec<u8> = vec![7, 0, 0, 0, 4, 3, 2, 1];
    want.extend_from_slice(&[1, 0, 0, 0]);
    want.extend_from_slice(&[7, 0, 0, 0, 2, 0, 0, 0, 5, 0, 0, 0, 1, 0, 0, 0]);
    want.extend_from_slice(&[1, 0, 7, 0, 0, 0, 3, 0, 0, 0]);
    want.extend_from_slice(&[0, 0]);
    assert_eq!(data, &want[..]);
}

#[test]
fn fieldnorm_and_ctid_sections_layout() {
    let mut builder = SegmentBuilder::new(false);
    assert_eq!(builder.write_fieldnorms(&[9, 8]), 0);
    assert_eq!(builder.write_ctid_pages(&[0x0A0B0C0D]), 2);
    assert_eq!(builder.write_ctid_offsets(&[0x0102, 3]), 6);
    assert_eq!(builder.data(), &[9, 8, 0x0D, 0x0C, 0x0B, 0x0A, 2, 1, 3, 0][..]);
}

#[test]
fn returned_entries_are_the_finished_entries() {
    let terms = ["alpha", "beta", "gamma"];
    let long: Vec<PostingEntry> = (0..300u32).map(|d| pe(d, 1, 1)).collect();
    let lists = [long, vec![pe(3, 2, 2)], (0..129u32).map(|d| pe(d * 2, 1, 3)).collect::<Vec<_>>()];
    let mut builder = SegmentBuilder::new(false);
    builder.write_header_placeholder();
    builder.write_dictionary(&terms);
    builder.write_strings(&terms);
    builder.reserve_entries(terms.len());
    let returned: Vec<_> = lists.iter().map(|l| builder.write_term_postings(l)).collect();
    assert_eq!(
        returned.iter().map(|e| (e.skip_index_offset, e.block_count, e.doc_freq)).collect::<Vec<_>>(),
        vec![(0, 3, 300), (48, 1, 1), (64, 2, 129)]
    );
    let skip_off = builder.write_skip_index();
    let data = builder.finish(0, 0, skip_off, 0, 0, 0).to_vec();
    let h = read_header(&data).unwrap();
    for (term, entry) in terms.iter().zip(returned.iter()) {
        let found = lookup_term(&data, h.dictionary_offset, h.strings_offset, h.entries_offset, term).unwrap();
        assert_eq!(found.skip_index_offset, entry.skip_index_offset);
        assert_eq!(found.block_count, entry.block_count);
        assert_eq!(found.doc_freq, entry.doc_freq);
    }
}
