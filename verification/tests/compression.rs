use pg_textsearch::compression::{
    can_decompress_block,
    bitpack_decode, bitpack_encode, compress_block, compressed_block_size, compute_bit_width,
    decompress_block,
};
use pg_textsearch::types::{TpBlockPosting, TP_MAX_COMPRESSED_BLOCK_SIZE};

#[test]
fn test_compute_bit_width() {
    assert_eq!(compute_bit_width(0), 1);
    assert_eq!(compute_bit_width(1), 1);
    assert_eq!(compute_bit_width(2), 2);
    assert_eq!(compute_bit_width(3), 2);
    assert_eq!(compute_bit_width(4), 3);
    assert_eq!(compute_bit_width(7), 3);
    assert_eq!(compute_bit_width(8), 4);
    assert_eq!(compute_bit_width(255), 8);
    assert_eq!(compute_bit_width(256), 9);
    assert_eq!(compute_bit_width(u32::MAX), 32);
}

#[test]
fn test_bitpack_roundtrip() {
    let values = [1u32, 3, 7, 2, 5, 0, 6, 4];
    let bits = 3u8;
    let mut packed = vec![0u8; 10];
    let written = bitpack_encode(&values, bits, &mut packed);
    assert!(written > 0);

    let mut decoded = vec![0u32; 8];
    bitpack_decode(&packed, 8, bits, &mut decoded);
    assert_eq!(decoded, values);
}

#[test]
fn test_compress_decompress_roundtrip() {
    let postings: Vec<TpBlockPosting> = (0..128)
        .map(|i| TpBlockPosting {
            doc_id: i * 3 + 1,
            frequency: (i % 10 + 1) as u16,
            fieldnorm: (i % 200) as u8,
            reserved: 0,
        })
        .collect();

    let mut compressed = vec![0u8; TP_MAX_COMPRESSED_BLOCK_SIZE];
    let compressed_len = compress_block(&postings, &mut compressed);
    assert!(compressed_len > 0);
    assert!(compressed_len < TP_MAX_COMPRESSED_BLOCK_SIZE);

    let mut decompressed = vec![TpBlockPosting::default(); 128];
    decompress_block(&compressed, 128, 0, &mut decompressed);

    for (i, (orig, dec)) in postings.iter().zip(decompressed.iter()).enumerate() {
        assert_eq!(orig.doc_id, dec.doc_id, "doc_id mismatch at index {}", i);
        assert_eq!(orig.frequency, dec.frequency, "frequency mismatch at index {}", i);
        assert_eq!(orig.fieldnorm, dec.fieldnorm, "fieldnorm mismatch at index {}", i);
    }
}

#[test]
fn test_compress_small_block() {
    let postings = vec![
        TpBlockPosting {
            doc_id: 5,
            frequency: 3,
            fieldnorm: 42,
            reserved: 0,
        },
        TpBlockPosting {
            doc_id: 10,
            frequency: 1,
            fieldnorm: 55,
            reserved: 0,
        },
    ];

    let mut compressed = vec![0u8; TP_MAX_COMPRESSED_BLOCK_SIZE];
    let compressed_len = compress_block(&postings, &mut compressed);
    assert!(compressed_len > 0);

    let mut decompressed = vec![TpBlockPosting::default(); 2];
    decompress_block(&compressed, 2, 0, &mut decompressed);

    assert_eq!(decompressed[0].doc_id, 5);
    assert_eq!(decompressed[0].frequency, 3);
    assert_eq!(decompressed[0].fieldnorm, 42);
    assert_eq!(decompressed[1].doc_id, 10);
    assert_eq!(decompressed[1].frequency, 1);
    assert_eq!(decompressed[1].fieldnorm, 55);
}

#[test]
fn test_compressed_block_size() {
    let postings: Vec<TpBlockPosting> = (0..64)
        .map(|i| TpBlockPosting {
            doc_id: i * 2,
            frequency: 1,
            fieldnorm: 10,
            reserved: 0,
        })
        .collect();

    let mut compressed = vec![0u8; TP_MAX_COMPRESSED_BLOCK_SIZE];
    let actual_len = compress_block(&postings, &mut compressed);
    let computed_len = compressed_block_size(&compressed, 64);

    assert_eq!(actual_len as u32, computed_len);
}

#[test]
fn test_compress_empty() {
    let mut compressed = vec![0u8; TP_MAX_COMPRESSED_BLOCK_SIZE];
    assert_eq!(compress_block(&[], &mut compressed), 0);
}

#[test]
fn test_compress_single_posting() {
    let postings = vec![TpBlockPosting {
        doc_id: 42,
        frequency: 7,
        fieldnorm: 100,
        reserved: 0,
    }];

    let mut compressed = vec![0u8; TP_MAX_COMPRESSED_BLOCK_SIZE];
    let compressed_len = compress_block(&postings, &mut compressed);
    assert!(compressed_len > 0);

    let mut decompressed = vec![TpBlockPosting::default(); 1];
    decompress_block(&compressed, 1, 0, &mut decompressed);

    assert_eq!(decompressed[0].doc_id, 42);
    assert_eq!(decompressed[0].frequency, 7);
    assert_eq!(decompressed[0].fieldnorm, 100);
}

#[test]
fn bitpack_exact_bytes() {
    // 3-bit values 1,3,7,2,5,0,6,4 packed little-endian, first value lowest.
    let values = [1u32, 3, 7, 2, 5, 0, 6, 4];
    let mut packed = vec![0xAAu8; 5];
    let written = bitpack_encode(&values, 3, &mut packed);
    assert_eq!(written, 3);
    assert_eq!(packed, vec![0xD9, 0x55, 0x98, 0xAA, 0xAA]);
}

#[test]
fn compressed_block_exact_layout() {
    let postings = vec![
        TpBlockPosting { doc_id: 5, frequency: 3, fieldnorm: 42, reserved: 9 },
        TpBlockPosting { doc_id: 10, frequency: 1, fieldnorm: 55, reserved: 9 },
    ];
    let mut compressed = vec![0xFFu8; 16];
    let len = compress_block(&postings, &mut compressed);
    // widths 3 and 2; deltas 5,5 -> 0b101101 ; freqs 3,1 -> 0b0111 ; norms 42, 55
    assert_eq!(len, 6);
    assert_eq!(&compressed[..6], &[3, 2, 0x2D, 0x07, 42, 55]);
    assert_eq!(compressed[6], 0xFF);
    let mut out = vec![TpBlockPosting::default(); 3];
    decompress_block(&compressed, 2, 100, &mut out);
    assert_eq!(out[0], TpBlockPosting { doc_id: 105, frequency: 3, fieldnorm: 42, reserved: 0 });
    assert_eq!(out[1], TpBlockPosting { doc_id: 110, frequency: 1, fieldnorm: 55, reserved: 0 });
    assert_eq!(out[2], TpBlockPosting::default());
}

#[test]
fn decompress_check_rejects_malformed_blocks() {
    let postings: Vec<TpBlockPosting> = (0..4u32)
        .map(|i| TpBlockPosting { doc_id: 10 * i, frequency: 1, fieldnorm: 0, reserved: 0 })
        .collect();
    let mut buf = vec![0u8; TP_MAX_COMPRESSED_BLOCK_SIZE];
    let n = compress_block(&postings, &mut buf);
    assert!(can_decompress_block(&buf[..n], 4, 0));
    assert!(can_decompress_block(&buf[..n], 0, 0));
    // Too few bytes.
    assert!(!can_decompress_block(&buf[..n - 1], 4, 0));
    // More than a block.
    assert!(!can_decompress_block(&buf, 129, 0));
    // Doc ids past u32::MAX.
    assert!(!can_decompress_block(&buf[..n], 4, u32::MAX - 5));
    assert!(can_decompress_block(&buf[..n], 4, u32::MAX - 30));
    // Bad bit widths.
    let mut bad = buf[..n].to_vec();
    bad[0] = 0;
    assert!(!can_decompress_block(&bad, 4, 0));
    bad[0] = 33;
    assert!(!can_decompress_block(&bad, 4, 0));
    let mut bad2 = buf[..n].to_vec();
    bad2[1] = 17;
    assert!(!can_decompress_block(&bad2, 4, 0));
}

#[test]
fn compressed_block_size_formula() {
    // 2 header bytes + ceil(10 * 5 / 8) + ceil(10 * 3 / 8) + 10 fieldnorms.
    assert_eq!(compressed_block_size(&[5, 3], 10), 2 + 7 + 4 + 10);
    assert_eq!(compressed_block_size(&[32, 16], 128), 2 + 512 + 256 + 128);
    assert_eq!(compressed_block_size(&[], 0), 0);
}
