use pg_textsearch::compression::compress_block;
use pg_textsearch::segment::format::{
    TpDictEntry, TpSkipEntry, TP_BLOCK_FLAG_DELTA, TP_BLOCK_FLAG_UNCOMPRESSED,
};
use pg_textsearch::segment::reader::{read_dict_entry, read_header, read_posting_block, read_skip_entry};
use pg_textsearch::types::{TpBlockPosting, TP_MAX_COMPRESSED_BLOCK_SIZE};

fn skip_bytes(e: &TpSkipEntry) -> Vec<u8> {
    let mut b = Vec::new();
    b.extend_from_slice(&e.last_doc_id.to_le_bytes());
    b.push(e.doc_count);
    b.extend_from_slice(&e.block_max_tf.to_le_bytes());
    b.push(e.block_max_norm);
    b.extend_from_slice(&e.posting_offset.to_le_bytes());
    b.push(e.flags);
    b.extend_from_slice(&e.reserved);
    b
}

fn skip(doc_count: u8, flags: u8) -> TpSkipEntry {
    TpSkipEntry {
        last_doc_id: 0,
        doc_count,
        block_max_tf: 0,
        block_max_norm: 0,
        posting_offset: 0,
        flags,
        reserved: [0; 3],
    }
}

#[test]
fn test_read_header_invalid() {
    let data = vec![0u8; 10];
    assert!(read_header(&data).is_none());
}

#[test]
fn test_read_skip_entry() {
    let entry = TpSkipEntry {
        last_doc_id: 42,
        doc_count: 10,
        block_max_tf: 5,
        block_max_norm: 30,
        posting_offset: 1000,
        flags: TP_BLOCK_FLAG_DELTA,
        reserved: [0; 3],
    };
    let bytes = skip_bytes(&entry);

    let result = read_skip_entry(&bytes, 0);
    assert!(result.is_some());
    let e = result.unwrap();
    let last_doc_id = e.last_doc_id;
    let doc_count = e.doc_count;
    let flags = e.flags;
    assert_eq!(last_doc_id, 42);
    assert_eq!(doc_count, 10);
    assert_eq!(flags, TP_BLOCK_FLAG_DELTA);
}

#[test]
fn header_with_wrong_magic_is_rejected() {
    let data = vec![0u8; 104];
    assert!(read_header(&data).is_none());
}

#[test]
fn skip_entry_past_end_is_none() {
    let bytes = skip_bytes(&skip(1, 0));
    assert!(read_skip_entry(&bytes, 1).is_none());
    assert!(read_skip_entry(&bytes, 100).is_none());
    let mut padded = vec![9u8; 3];
    padded.extend_from_slice(&bytes);
    let e = read_skip_entry(&padded, 3).unwrap();
    assert_eq!(e.doc_count, 1);
    assert_eq!(e.reserved, [0, 0, 0]);
}

#[test]
fn dict_entry_reads_little_endian_fields() {
    let bytes = [1u8, 0, 0, 0, 2, 0, 3, 0, 4, 1, 0, 0, 0xff];
    assert_eq!(
        read_dict_entry(&bytes, 0),
        Some(TpDictEntry { skip_index_offset: 1, block_count: 2, reserved: 3, doc_freq: 260 })
    );
    assert_eq!(read_dict_entry(&bytes, 2), None);
}

#[test]
fn uncompressed_block_reads_postings() {
    let bytes = [7u8, 0, 0, 0, 3, 0, 9, 0, 8, 1, 0, 0, 1, 0, 2, 0];
    let got = read_posting_block(&bytes, &skip(3, TP_BLOCK_FLAG_UNCOMPRESSED));
    assert_eq!(
        got,
        vec![
            TpBlockPosting { doc_id: 7, frequency: 3, fieldnorm: 9, reserved: 0 },
            TpBlockPosting { doc_id: 264, frequency: 1, fieldnorm: 2, reserved: 0 },
            // Past the data: zero.
            TpBlockPosting { doc_id: 0, frequency: 0, fieldnorm: 0, reserved: 0 },
        ]
    );
}

#[test]
fn compressed_block_reads_back() {
    let postings: Vec<TpBlockPosting> = (0..20u32)
        .map(|i| TpBlockPosting {
            doc_id: i * 3 + 1,
            frequency: (i % 4) as u16 + 1,
            fieldnorm: i as u8,
            reserved: 0,
        })
        .collect();
    let mut buf = vec![0u8; TP_MAX_COMPRESSED_BLOCK_SIZE];
    let n = compress_block(&postings, &mut buf);
    let mut data = buf[..n].to_vec();
    data.extend_from_slice(&[0xAA; 5]);
    let got = read_posting_block(&data, &skip(20, TP_BLOCK_FLAG_DELTA));
    assert_eq!(got, postings);
}
