use vstd::prelude::*;
use crate::bytes::{read_u16, read_u32, read_u64};
use crate::compression::{decompress_block, decompress_ok, decompressed_block_spec};
use crate::segment::format::{
    TpSegmentHeader, TpSkipEntry, TpDictEntry, TP_SEGMENT_MAGIC, TP_SEGMENT_HEADER_SIZE,
    TP_SKIP_ENTRY_SIZE, TP_DICT_ENTRY_SIZE, TP_BLOCK_POSTING_SIZE, TP_BLOCK_FLAG_DELTA,
    parse_header, parse_skip_entry, parse_dict_entry, parse_block_posting, header_bytes, lemma_header_roundtrip,
};
use crate::bytes::u32_at;
use crate::types::TpBlockPosting;

verus! {

/// What `read_header` gives for `data`.
pub open spec fn read_header_spec(data: Seq<u8>) -> Option<TpSegmentHeader> {
    if data.len() < TP_SEGMENT_HEADER_SIZE || parse_header(data).magic != TP_SEGMENT_MAGIC {
        None
    } else {
        Some(parse_header(data))
    }
}

/// A header is accepted exactly when the data holds its bytes and starts with the
/// segment magic: then it is read as it stands, whatever its other fields hold (its
/// data size among them, which may well exceed the bytes at hand); otherwise nothing
/// is read.
pub proof fn lemma_read_header_accepts(data: Seq<u8>)
    ensures
        data.len() >= TP_SEGMENT_HEADER_SIZE && u32_at(data, 0) == TP_SEGMENT_MAGIC
            ==> read_header_spec(data) == Some(parse_header(data)),
        data.len() < TP_SEGMENT_HEADER_SIZE || u32_at(data, 0) != TP_SEGMENT_MAGIC
            ==> read_header_spec(data) is None,
{
}

/// A header with the segment magic reads back from its own bytes, followed by any
/// bytes at all: the header alone, without the rest of its segment, is enough.
pub proof fn lemma_header_reads_back(h: TpSegmentHeader, rest: Seq<u8>)
    requires
        h.magic == TP_SEGMENT_MAGIC,
    ensures
        read_header_spec(header_bytes(h) + rest) == Some(h),
{
    lemma_header_roundtrip(h, rest);
}

/// Read a segment header from the start of a byte slice: `None` when the slice is too
/// short or the magic number does not match.
pub fn read_header(data: &[u8]) -> (h: Option<TpSegmentHeader>)
    ensures
        h == read_header_spec(data@),
        data@.len() >= TP_SEGMENT_HEADER_SIZE && u32_at(data@, 0) == TP_SEGMENT_MAGIC ==> h == Some(parse_header(data@)),
        data@.len() < TP_SEGMENT_HEADER_SIZE || u32_at(data@, 0) != TP_SEGMENT_MAGIC ==> h is None,
{
    proof {
        lemma_read_header_accepts(data@);
    }
    if data.len() < TP_SEGMENT_HEADER_SIZE {
        return None;
    }
    let header = TpSegmentHeader {
        magic: read_u32(data, 0),
        version: read_u32(data, 4),
        created_at: read_u64(data, 8) as i64,
        num_pages: read_u32(data, 16),
        data_size: read_u32(data, 20),
        level: read_u32(data, 24),
        next_segment: read_u32(data, 28),
        dictionary_offset: read_u32(data, 32),
        strings_offset: read_u32(data, 36),
        entries_offset: read_u32(data, 40),
        postings_offset: read_u32(data, 44),
        skip_index_offset: read_u32(data, 48),
        fieldnorm_offset: read_u32(data, 52),
        ctid_pages_offset: read_u32(data, 56),
        ctid_offsets_offset: read_u32(data, 60),
        num_terms: read_u32(data, 64),
        num_docs: read_u32(data, 68),
        total_tokens: read_u64(data, 72),
        page_index: read_u32(data, 80),
        tenant_map_offset: read_u32(data, 84),
        tenant_stats_offset: read_u32(data, 88),
        tenant_docfreq_offset: read_u32(data, 92),
        flags: read_u32(data, 96),
    };
    if header.magic != TP_SEGMENT_MAGIC {
        return None;
    }
    Some(header)
}

/// Read a skip entry from a byte slice: `None` unless its 16 bytes lie within the slice.
pub fn read_skip_entry(data: &[u8], offset: usize) -> (e: Option<TpSkipEntry>)
    ensures
        e == (if offset + TP_SKIP_ENTRY_SIZE <= data@.len() { Some(parse_skip_entry(data@, offset as int)) } else { None::<TpSkipEntry> }),
{
    if offset > data.len() || data.len() - offset < TP_SKIP_ENTRY_SIZE {
        return None;
    }
    Some(TpSkipEntry {
        last_doc_id: read_u32(data, offset),
        doc_count: data[offset + 4],
        block_max_tf: read_u16(data, offset + 5),
        block_max_norm: data[offset + 7],
        posting_offset: read_u32(data, offset + 8),
        flags: data[offset + 12],
        reserved: [data[offset + 13], data[offset + 14], data[offset + 15]],
    })
}

/// Read a dict entry from segment data at the given offset: `None` unless its 12 bytes
/// lie within the slice.
pub fn read_dict_entry(data: &[u8], offset: usize) -> (e: Option<TpDictEntry>)
    ensures
        e == (if offset + TP_DICT_ENTRY_SIZE <= data@.len() { Some(parse_dict_entry(data@, offset as int)) } else { None::<TpDictEntry> }),
{
    if offset > data.len() || data.len() - offset < TP_DICT_ENTRY_SIZE {
        return None;
    }
    Some(TpDictEntry {
        skip_index_offset: read_u32(data, offset),
        block_count: read_u16(data, offset + 4),
        reserved: read_u16(data, offset + 6),
        doc_freq: read_u32(data, offset + 8),
    })
}

pub open spec fn zero_posting() -> TpBlockPosting {
    TpBlockPosting { doc_id: 0, frequency: 0, fieldnorm: 0, reserved: 0 }
}

/// The postings of an uncompressed block: posting `i` from bytes `8i .. 8i + 8`, or all
/// zero where those bytes run past the data.
pub open spec fn raw_block_spec(data: Seq<u8>, count: nat) -> Seq<TpBlockPosting> {
    Seq::new(count, |i: int|
        if (i + 1) * TP_BLOCK_POSTING_SIZE <= data.len() { parse_block_posting(data, i * TP_BLOCK_POSTING_SIZE) } else { zero_posting() })
}

/// What `read_posting_block` gives for a block's bytes and its skip entry.
pub open spec fn posting_block_spec(block_data: Seq<u8>, skip: TpSkipEntry) -> Seq<TpBlockPosting> {
    if skip.flags == TP_BLOCK_FLAG_DELTA {
        decompressed_block_spec(block_data, skip.doc_count as nat, 0)
    } else {
        raw_block_spec(block_data, skip.doc_count as nat)
    }
}

/// Read a posting block (possibly compressed).
///
/// `block_data` is the raw bytes at the posting_offset.
/// `skip` describes the block (count, flags, etc.).
///
/// Returns the decompressed block postings.
pub fn read_posting_block(block_data: &[u8], skip: &TpSkipEntry) -> (postings: Vec<TpBlockPosting>)
    requires
        skip.flags == TP_BLOCK_FLAG_DELTA ==> decompress_ok(block_data@, skip.doc_count as nat, 0),
    ensures
        postings@ == posting_block_spec(block_data@, *skip),
{
    let count = skip.doc_count as usize;
    let zero = TpBlockPosting { doc_id: 0, frequency: 0, fieldnorm: 0, reserved: 0 };
    let mut postings: Vec<TpBlockPosting> = Vec::new();
    let mut k: usize = 0;
    while k < count
        invariant
            k <= count,
            zero == zero_posting(),
            postings@ == Seq::new(k as nat, |i: int| zero_posting()),
        decreases count - k,
    {
        postings.push(zero);
        k = k + 1;
        proof {
            assert(postings@ =~= Seq::new(k as nat, |i: int| zero_posting()));
        }
    }
    if skip.flags == TP_BLOCK_FLAG_DELTA {
        decompress_block(block_data, count, 0, postings.as_mut_slice());
        proof {
            assert(postings@ =~= decompressed_block_spec(block_data@, count as nat, 0));
        }
    } else {
        let ghost want = raw_block_spec(block_data@, count as nat);
        let mut i: usize = 0;
        while i < count
            invariant
                count == skip.doc_count,
                want == raw_block_spec(block_data@, count as nat),
                i <= count <= 255,
                postings@.len() == count,
                forall|j: int| 0 <= j < i ==> postings@[j] == want[j],
                forall|j: int| i <= j < count ==> postings@[j] == zero_posting(),
            decreases count - i,
        {
            let offset = i * TP_BLOCK_POSTING_SIZE;
            if offset + TP_BLOCK_POSTING_SIZE <= block_data.len() {
                let p = TpBlockPosting {
                    doc_id: read_u32(block_data, offset),
                    frequency: read_u16(block_data, offset + 4),
                    fieldnorm: block_data[offset + 6],
                    reserved: block_data[offset + 7],
                };
                postings.set(i, p);
            }
            i = i + 1;
        }
        proof {
            assert(postings@ =~= want);
        }
    }
    postings
}

} // verus!
