use pg_textsearch::segment::format::{
    TpDictEntry, TpSegmentHeader, TpSkipEntry, TpTenantDocFreq, TpTenantStats,
    TP_FLAG_HAS_TENANT_DATA, TP_SEGMENT_FORMAT_V3, TP_SEGMENT_FORMAT_V4, TP_SEGMENT_MAGIC,
    TP_TENANT_MODE_MIXED, TP_TENANT_MODE_NONE, TP_TENANT_MODE_SINGLE,
};

fn header(version: u32, flags: u32) -> TpSegmentHeader {
    TpSegmentHeader {
        magic: TP_SEGMENT_MAGIC,
        version,
        created_at: 0,
        num_pages: 0,
        data_size: 0,
        level: 0,
        next_segment: 0,
        dictionary_offset: 0,
        strings_offset: 0,
        entries_offset: 0,
        postings_offset: 0,
        skip_index_offset: 0,
        fieldnorm_offset: 0,
        ctid_pages_offset: 0,
        ctid_offsets_offset: 0,
        num_terms: 0,
        num_docs: 0,
        total_tokens: 0,
        page_index: 0,
        tenant_map_offset: 0,
        tenant_stats_offset: 0,
        tenant_docfreq_offset: 0,
        flags,
    }
}

#[test]
fn test_dict_entry_size() {
    assert_eq!(std::mem::size_of::<TpDictEntry>(), 12);
}

#[test]
fn test_skip_entry_size() {
    assert_eq!(std::mem::size_of::<TpSkipEntry>(), 16);
}

#[test]
fn test_tenant_stats_size() {
    assert_eq!(std::mem::size_of::<TpTenantStats>(), 16);
}

#[test]
fn test_tenant_docfreq_size() {
    assert_eq!(std::mem::size_of::<TpTenantDocFreq>(), 8);
}

#[test]
fn test_skip_entry_tenant_info() {
    let mut skip = TpSkipEntry::default();
    skip.set_tenant_info(TP_TENANT_MODE_SINGLE, 42);
    assert_eq!(skip.tenant_mode(), TP_TENANT_MODE_SINGLE);
    assert_eq!(skip.tenant_id_low16(), 42);
    assert!(skip.can_skip_for_tenant(99));
    assert!(!skip.can_skip_for_tenant(42));
}

#[test]
fn test_skip_entry_tenant_mixed_no_skip() {
    let mut skip = TpSkipEntry::default();
    skip.set_tenant_info(TP_TENANT_MODE_MIXED, 0);
    assert!(!skip.can_skip_for_tenant(42));
}

#[test]
fn test_header_v4_flags() {
    let mut header = header(TP_SEGMENT_FORMAT_V4, 0);
    assert!(header.is_v4());
    assert!(!header.has_tenant_data());

    header.flags = TP_FLAG_HAS_TENANT_DATA;
    assert!(header.has_tenant_data());
}

#[test]
fn header_v3_is_not_v4() {
    let h = header(TP_SEGMENT_FORMAT_V3, TP_FLAG_HAS_TENANT_DATA | 0x10);
    assert!(!h.is_v4());
    assert!(h.has_tenant_data());
    let h2 = header(TP_SEGMENT_FORMAT_V4, 0x10);
    assert!(!h2.has_tenant_data());
}

#[test]
fn tenant_info_keeps_low_bits_of_tenant() {
    let mut skip = TpSkipEntry::default();
    skip.set_tenant_info(TP_TENANT_MODE_SINGLE, 0x0001_0005);
    assert_eq!(skip.tenant_mode(), TP_TENANT_MODE_SINGLE);
    assert_eq!(skip.tenant_id_low16(), 5);
    // Only the low 16 bits are compared.
    assert!(!skip.can_skip_for_tenant(0x0002_0005));
    assert!(skip.can_skip_for_tenant(6));
}

#[test]
fn tenant_mode_none_never_skips() {
    let mut skip = TpSkipEntry::default();
    skip.set_tenant_info(TP_TENANT_MODE_NONE, 7);
    assert_eq!(skip.tenant_mode(), TP_TENANT_MODE_NONE);
    assert!(!skip.can_skip_for_tenant(8));
    assert_eq!(skip.reserved, [TP_TENANT_MODE_NONE, 7, 0]);
}
