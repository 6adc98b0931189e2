use vstd::prelude::*;
use vstd::string::StringSliceAdditionalSpecFns;
use crate::segment::dictionary::{dictionary_section, strings_section, string_offset, term_bytes, lemma_strings_section_len,
    lemma_encoded_dictionary, dict_well_formed, dict_key, dict_entry_pos};
use crate::lex::lex_lt;
use crate::compression::{compress_block, compressed_block_spec, sorted_by_doc_id, seq_max, lemma_compressed_block_fits, splice,
    decompress_ok, lemma_block_roundtrip, lemma_decompress_extend};
use crate::segment::reader::{posting_block_spec, raw_block_spec, read_header_spec};
use crate::types::{TpBlockPosting, TP_MAX_COMPRESSED_BLOCK_SIZE};
use crate::bytes::{push_u16, push_u32, push_u64, u16_le_bytes, u32_le_bytes};
use crate::segment::format::{
    TpSkipEntry, TpDictEntry, TpTenantStats, TpTenantDocFreq, PostingEntry, TP_SEGMENT_HEADER_SIZE,
    TpSegmentHeader, TP_SEGMENT_MAGIC, TP_SEGMENT_FORMAT_VERSION, dict_entry_bytes, header_bytes, header_words,
    TP_DICT_ENTRY_SIZE, TP_SKIP_ENTRY_SIZE, TP_BLOCK_SIZE, TP_BLOCK_FLAG_DELTA, TP_BLOCK_FLAG_UNCOMPRESSED,
    skip_entry_bytes, block_posting_bytes, tenant_stats_bytes, tenant_docfreq_bytes, words_le_bytes,
    lemma_words_push, lemma_block_posting_roundtrip, parse_block_posting, TP_BLOCK_POSTING_SIZE,
    parse_dict_entry, lemma_dict_entry_roundtrip, lemma_header_roundtrip, parse_skip_entry,
    lemma_skip_entry_roundtrip,
};

verus! {

/// What a segment builder holds: the bytes written so far, the skip entries and
/// dictionary entries gathered for later sections, the corpus statistics, and the
/// section offsets recorded along the way.
pub struct SegmentBuilderView {
    pub buffer: Seq<u8>,
    pub skip_entries: Seq<TpSkipEntry>,
    pub dict_entries: Seq<TpDictEntry>,
    pub num_terms: u32,
    pub num_docs: u32,
    pub total_tokens: u64,
    pub compress: bool,
    pub dictionary_offset: u32,
    pub strings_offset: u32,
    pub entries_offset: u32,
    pub postings_offset: u32,
}

/// Accumulates segment data as bytes during a build.
///
/// After all postings are written, call `finish()` to get the
/// final TpSegmentHeader with correct offsets.
pub struct SegmentBuilder {
    /// Running byte buffer for the segment.
    buffer: Vec<u8>,
    /// Accumulated skip entries across all terms.
    skip_entries: Vec<TpSkipEntry>,
    /// Dictionary entries parallel to terms.
    dict_entries: Vec<TpDictEntry>,
    /// Number of terms written.
    num_terms: u32,
    /// Number of documents in segment.
    num_docs: u32,
    /// Total tokens across all documents.
    total_tokens: u64,
    /// Whether compression is enabled.
    compress: bool,
    /// Section offsets (filled during build).
    dictionary_offset: u32,
    strings_offset: u32,
    entries_offset: u32,
    postings_offset: u32,
}

impl View for SegmentBuilder {
    type V = SegmentBuilderView;

    closed spec fn view(&self) -> SegmentBuilderView {
        SegmentBuilderView {
            buffer: self.buffer@,
            skip_entries: self.skip_entries@,
            dict_entries: self.dict_entries@,
            num_terms: self.num_terms,
            num_docs: self.num_docs,
            total_tokens: self.total_tokens,
            compress: self.compress,
            dictionary_offset: self.dictionary_offset,
            strings_offset: self.strings_offset,
            entries_offset: self.entries_offset,
            postings_offset: self.postings_offset,
        }
    }
}

/// `n` zero bytes.
pub open spec fn zeros(n: nat) -> Seq<u8> {
    Seq::new(n, |i: int| 0u8)
}

/// Bytes of a run of `u16` values, each little-endian.
pub open spec fn u16s_le_bytes(s: Seq<u16>) -> Seq<u8>
    decreases s.len(),
{
    if s.len() == 0 {
        Seq::empty()
    } else {
        u16s_le_bytes(s.drop_last()) + u16_le_bytes(s.last())
    }
}

/// Bytes of a run of skip entries.
pub open spec fn skip_entries_bytes(s: Seq<TpSkipEntry>) -> Seq<u8>
    decreases s.len(),
{
    if s.len() == 0 {
        Seq::empty()
    } else {
        skip_entries_bytes(s.drop_last()) + skip_entry_bytes(s.last())
    }
}

/// Bytes of a run of per-tenant statistics.
pub open spec fn tenant_stats_all_bytes(s: Seq<TpTenantStats>) -> Seq<u8>
    decreases s.len(),
{
    if s.len() == 0 {
        Seq::empty()
    } else {
        tenant_stats_all_bytes(s.drop_last()) + tenant_stats_bytes(s.last())
    }
}

/// Bytes of a run of per-tenant document frequencies.
pub open spec fn docfreqs_bytes(s: Seq<TpTenantDocFreq>) -> Seq<u8>
    decreases s.len(),
{
    if s.len() == 0 {
        Seq::empty()
    } else {
        docfreqs_bytes(s.drop_last()) + tenant_docfreq_bytes(s.last())
    }
}

/// The per-term doc freq section: for each term, its entry count (as a `u16`) and entries.
pub open spec fn tenant_docfreq_section(per_term: Seq<Seq<TpTenantDocFreq>>) -> Seq<u8>
    decreases per_term.len(),
{
    if per_term.len() == 0 {
        Seq::empty()
    } else {
        tenant_docfreq_section(per_term.drop_last()) + u16_le_bytes(per_term.last().len() as u16)
            + docfreqs_bytes(per_term.last())
    }
}

/// A posting as it is stored in a block.
pub open spec fn posting_to_block(p: PostingEntry) -> TpBlockPosting {
    TpBlockPosting { doc_id: p.doc_id, frequency: p.frequency, fieldnorm: p.fieldnorm, reserved: 0 }
}

/// Doc ids of the postings in non-decreasing order.
pub open spec fn postings_sorted(p: Seq<PostingEntry>) -> bool {
    forall|i: int, j: int| 0 <= i <= j < p.len() ==> p[i].doc_id <= p[j].doc_id
}

/// Number of blocks a list of `n` postings takes.
pub open spec fn num_blocks(n: nat) -> nat {
    (n + 127) / 128
}

/// Block `k` of a term's postings: postings `128k ..` up to 128 of them.
pub open spec fn term_block(p: Seq<PostingEntry>, k: nat) -> Seq<TpBlockPosting> {
    let start = 128 * k;
    let len = if p.len() >= start + 128 { 128 } else { (p.len() - start) as nat };
    Seq::new(len, |j: int| posting_to_block(p[start + j]))
}

/// Bytes of an uncompressed block: its postings in their 8-byte layout.
pub open spec fn raw_block_bytes(b: Seq<TpBlockPosting>) -> Seq<u8>
    decreases b.len(),
{
    if b.len() == 0 {
        Seq::empty()
    } else {
        raw_block_bytes(b.drop_last()) + block_posting_bytes(b.last())
    }
}

/// Whether a block is written compressed.
pub open spec fn block_is_compressed(b: Seq<TpBlockPosting>, compress: bool) -> bool {
    compress && b.len() > 1
}

/// Bytes that a block is written as.
pub open spec fn block_data_bytes(b: Seq<TpBlockPosting>, compress: bool) -> Seq<u8> {
    if block_is_compressed(b, compress) {
        compressed_block_spec(b)
    } else {
        raw_block_bytes(b)
    }
}

pub open spec fn block_max_tf(b: Seq<TpBlockPosting>) -> u16 {
    seq_max(Seq::new(b.len(), |i: int| b[i].frequency as u32)) as u16
}

pub open spec fn block_max_norm(b: Seq<TpBlockPosting>) -> u8 {
    seq_max(Seq::new(b.len(), |i: int| b[i].fieldnorm as u32)) as u8
}

/// The skip entry of a block written at `offset`.
pub open spec fn skip_for_block(b: Seq<TpBlockPosting>, offset: nat, compress: bool) -> TpSkipEntry {
    TpSkipEntry {
        last_doc_id: if b.len() == 0 { 0 } else { b.last().doc_id },
        doc_count: b.len() as u8,
        block_max_tf: block_max_tf(b),
        block_max_norm: block_max_norm(b),
        posting_offset: offset as u32,
        flags: if block_is_compressed(b, compress) { TP_BLOCK_FLAG_DELTA } else { TP_BLOCK_FLAG_UNCOMPRESSED },
        reserved: [0u8, 0u8, 0u8],
    }
}

/// Bytes of the first `k` blocks of a term.
pub open spec fn blocks_bytes(p: Seq<PostingEntry>, compress: bool, k: nat) -> Seq<u8>
    decreases k,
{
    if k == 0 {
        Seq::empty()
    } else {
        blocks_bytes(p, compress, (k - 1) as nat) + block_data_bytes(term_block(p, (k - 1) as nat), compress)
    }
}

/// Skip entries of the first `k` blocks of a term whose blocks start at `base`.
pub open spec fn blocks_skips(base: nat, p: Seq<PostingEntry>, compress: bool, k: nat) -> Seq<TpSkipEntry>
    decreases k,
{
    if k == 0 {
        Seq::empty()
    } else {
        blocks_skips(base, p, compress, (k - 1) as nat).push(
            skip_for_block(term_block(p, (k - 1) as nat), base + blocks_bytes(p, compress, (k - 1) as nat).len(), compress),
        )
    }
}

/// Offset, within the skip index, of the first skip entry of term `i`.
pub open spec fn skip_prefix(des: Seq<TpDictEntry>, i: nat) -> nat
    decreases i,
{
    if i == 0 {
        0
    } else {
        skip_prefix(des, (i - 1) as nat) + (des[i - 1].block_count as nat) * (TP_SKIP_ENTRY_SIZE as nat)
    }
}

/// The dictionary entries as `finish` writes them: each points at its first skip entry.
pub open spec fn finished_dict_entries(des: Seq<TpDictEntry>) -> Seq<TpDictEntry> {
    Seq::new(des.len(), |i: int| TpDictEntry { skip_index_offset: skip_prefix(des, i as nat) as u32, ..des[i] })
}

/// Bytes of a run of dictionary entries.
pub open spec fn dict_entries_bytes(s: Seq<TpDictEntry>) -> Seq<u8>
    decreases s.len(),
{
    if s.len() == 0 {
        Seq::empty()
    } else {
        dict_entries_bytes(s.drop_last()) + dict_entry_bytes(s.last())
    }
}

/// The header that `finish` writes.
pub open spec fn finished_header(
    v: SegmentBuilderView,
    level: u32,
    next_segment: u32,
    skip_index_offset: u32,
    fieldnorm_offset: u32,
    ctid_pages_offset: u32,
    ctid_offsets_offset: u32,
) -> TpSegmentHeader {
    TpSegmentHeader {
        magic: TP_SEGMENT_MAGIC,
        version: TP_SEGMENT_FORMAT_VERSION,
        created_at: 0,
        num_pages: 0,
        data_size: v.buffer.len() as u32,
        level,
        next_segment,
        dictionary_offset: v.dictionary_offset,
        strings_offset: v.strings_offset,
        entries_offset: v.entries_offset,
        postings_offset: v.postings_offset,
        skip_index_offset,
        fieldnorm_offset,
        ctid_pages_offset,
        ctid_offsets_offset,
        num_terms: v.num_terms,
        num_docs: v.num_docs,
        total_tokens: v.total_tokens,
        page_index: 0,
        tenant_map_offset: 0,
        tenant_stats_offset: 0,
        tenant_docfreq_offset: 0,
        flags: 0,
    }
}

/// The bytes that `finish` leaves: the dictionary entries written over the reserved
/// region, then the header over the first bytes.
pub open spec fn finished_buffer(
    v: SegmentBuilderView,
    level: u32,
    next_segment: u32,
    skip_index_offset: u32,
    fieldnorm_offset: u32,
    ctid_pages_offset: u32,
    ctid_offsets_offset: u32,
) -> Seq<u8> {
    splice(
        splice(v.buffer, v.entries_offset as int, dict_entries_bytes(finished_dict_entries(v.dict_entries))),
        0,
        header_bytes(finished_header(v, level, next_segment, skip_index_offset, fieldnorm_offset,
            ctid_pages_offset, ctid_offsets_offset)),
    )
}

/// What `finish` may be asked to do: the reserved entries region and the header fit the
/// buffer, and the skip offsets stay within `u32`.
pub open spec fn finish_ok(v: SegmentBuilderView) -> bool {
    &&& TP_SEGMENT_HEADER_SIZE <= v.buffer.len()
    &&& v.entries_offset + v.dict_entries.len() * TP_DICT_ENTRY_SIZE <= v.buffer.len()
    &&& skip_prefix(v.dict_entries, v.dict_entries.len()) <= u32::MAX
}

pub proof fn lemma_skip_prefix_monotonic(des: Seq<TpDictEntry>, k: nat, n: nat)
    requires
        k <= n,
    ensures
        skip_prefix(des, k) <= skip_prefix(des, n),
    decreases n,
{
    if k < n {
        lemma_skip_prefix_monotonic(des, k, (n - 1) as nat);
    }
}

pub proof fn lemma_dict_entries_bytes_len(s: Seq<TpDictEntry>)
    ensures
        dict_entries_bytes(s).len() == s.len() * TP_DICT_ENTRY_SIZE,
    decreases s.len(),
{
    if s.len() > 0 {
        lemma_dict_entries_bytes_len(s.drop_last());
    }
}

/// The maximum of values below `bound` is below `bound`.
pub proof fn lemma_seq_max_small(s: Seq<u32>, bound: nat)
    requires
        forall|i: int| 0 <= i < s.len() ==> s[i] < bound,
        bound > 0,
    ensures
        seq_max(s) < bound,
    decreases s.len(),
{
    if s.len() > 0 {
        lemma_seq_max_small(s.drop_last(), bound);
    }
}

/// An uncompressed block is `8` bytes per posting, each posting readable at its place.
proof fn lemma_raw_block_bytes(b: Seq<TpBlockPosting>, rest: Seq<u8>)
    ensures
        raw_block_bytes(b).len() == b.len() * TP_BLOCK_POSTING_SIZE,
        forall|i: int| 0 <= i < b.len()
            ==> parse_block_posting(raw_block_bytes(b) + rest, i * TP_BLOCK_POSTING_SIZE) == #[trigger] b[i],
    decreases b.len(),
{
    if b.len() > 0 {
        let d = b.drop_last();
        let last = block_posting_bytes(b.last());
        lemma_raw_block_bytes(d, last + rest);
        lemma_block_posting_roundtrip(b.last(), raw_block_bytes(d), rest);
        assert(raw_block_bytes(b) + rest =~= raw_block_bytes(d) + (last + rest));
        assert forall|i: int| 0 <= i < b.len()
            implies parse_block_posting(raw_block_bytes(b) + rest, i * TP_BLOCK_POSTING_SIZE) == #[trigger] b[i] by {
            if i < b.len() - 1 {
                assert(b[i] == d[i]);
            }
        }
    }
}

/// A block reads back from the bytes it was written as, through the skip entry written
/// for it, whatever bytes follow it.
pub proof fn lemma_block_read_back(b: Seq<TpBlockPosting>, compress: bool, offset: nat, rest: Seq<u8>)
    requires
        0 < b.len() <= TP_BLOCK_SIZE,
        sorted_by_doc_id(b),
        forall|i: int| 0 <= i < b.len() ==> (#[trigger] b[i]).reserved == 0,
    ensures
        skip_for_block(b, offset, compress).flags == TP_BLOCK_FLAG_DELTA
            ==> decompress_ok(block_data_bytes(b, compress) + rest, b.len(), 0),
        posting_block_spec(block_data_bytes(b, compress) + rest, skip_for_block(b, offset, compress)) == b,
{
    let skip = skip_for_block(b, offset, compress);
    assert(skip.doc_count as nat == b.len());
    if block_is_compressed(b, compress) {
        lemma_block_roundtrip(b);
        lemma_decompress_extend(compressed_block_spec(b), rest, b.len(), 0);
        assert(posting_block_spec(block_data_bytes(b, compress) + rest, skip) =~= b);
    } else {
        lemma_raw_block_bytes(b, rest);
        let data = raw_block_bytes(b) + rest;
        assert forall|i: int| 0 <= i < b.len() implies #[trigger] raw_block_spec(data, b.len())[i] == b[i] by {
            assert((i + 1) * TP_BLOCK_POSTING_SIZE <= data.len()) by (nonlinear_arith)
                requires i < b.len(), data.len() >= b.len() * TP_BLOCK_POSTING_SIZE;
        }
        assert(raw_block_spec(data, b.len()) =~= b);
    }
}

pub proof fn lemma_blocks_bytes_prefix(p: Seq<PostingEntry>, compress: bool, k: nat, n: nat)
    requires
        k <= n,
    ensures
        blocks_bytes(p, compress, k).len() <= blocks_bytes(p, compress, n).len(),
        blocks_bytes(p, compress, n).take(blocks_bytes(p, compress, k).len() as int) == blocks_bytes(p, compress, k),
    decreases n,
{
    if k < n {
        lemma_blocks_bytes_prefix(p, compress, k, (n - 1) as nat);
        let prev = blocks_bytes(p, compress, (n - 1) as nat);
        assert(blocks_bytes(p, compress, n).take(blocks_bytes(p, compress, k).len() as int)
            =~= prev.take(blocks_bytes(p, compress, k).len() as int));
    } else {
        assert(blocks_bytes(p, compress, n).take(blocks_bytes(p, compress, k).len() as int) =~= blocks_bytes(p, compress, n));
    }
}

proof fn lemma_blocks_skips_index(base: nat, p: Seq<PostingEntry>, compress: bool, k: nat, n: nat)
    requires
        k < n,
    ensures
        blocks_skips(base, p, compress, n).len() == n,
        blocks_skips(base, p, compress, n)[k as int]
            == skip_for_block(term_block(p, k), base + blocks_bytes(p, compress, k).len(), compress),
    decreases n,
{
    lemma_blocks_skips_len(base, p, compress, n);
    if k < n - 1 {
        lemma_blocks_skips_index(base, p, compress, k, (n - 1) as nat);
    }
}

proof fn lemma_blocks_skips_len(base: nat, p: Seq<PostingEntry>, compress: bool, n: nat)
    ensures
        blocks_skips(base, p, compress, n).len() == n,
    decreases n,
{
    if n > 0 {
        lemma_blocks_skips_len(base, p, compress, (n - 1) as nat);
    }
}

/// Block `k` of a sorted posting list holds between one and a block's worth of
/// postings, sorted, with zero reserved bytes.
proof fn lemma_term_block_shape(p: Seq<PostingEntry>, k: nat)
    requires
        postings_sorted(p),
        k < num_blocks(p.len()),
    ensures
        0 < term_block(p, k).len() <= TP_BLOCK_SIZE,
        sorted_by_doc_id(term_block(p, k)),
        forall|i: int| 0 <= i < term_block(p, k).len() ==> (#[trigger] term_block(p, k)[i]).reserved == 0,
{
    assert(128 * k < p.len());
    let b = term_block(p, k);
    assert forall|i: int, j: int| 0 <= i <= j < b.len() implies b[i].doc_id <= b[j].doc_id by {
        assert(b[i] == posting_to_block(p[128 * k + i]));
        assert(b[j] == posting_to_block(p[128 * k + j]));
    }
}

/// The postings that `write_term_postings` writes read back: placed after `base` bytes
/// (and followed by anything), block `k` of the term is read from the offset that its
/// skip entry records, through that skip entry, as the `k`-th run of the term's
/// postings.
#[verifier::rlimit(40)]
pub proof fn lemma_term_postings_read_back(
    pre: Seq<u8>,
    p: Seq<PostingEntry>,
    compress: bool,
    rest: Seq<u8>,
    k: nat,
)
    requires
        postings_sorted(p),
        k < num_blocks(p.len()),
        pre.len() + blocks_bytes(p, compress, num_blocks(p.len())).len() <= u32::MAX,
    ensures
        ({
            let nb = num_blocks(p.len());
            let data = pre + blocks_bytes(p, compress, nb) + rest;
            let skip = blocks_skips(pre.len(), p, compress, nb)[k as int];
            &&& skip.posting_offset <= data.len()
            &&& skip.flags == TP_BLOCK_FLAG_DELTA
                ==> decompress_ok(data.skip(skip.posting_offset as int), skip.doc_count as nat, 0)
            &&& posting_block_spec(data.skip(skip.posting_offset as int), skip)
                == term_block(p, k)
        }),
{
    let nb = num_blocks(p.len());
    let all = blocks_bytes(p, compress, nb);
    let data = pre + all + rest;
    let b = term_block(p, k);
    let lk = blocks_bytes(p, compress, k).len();
    let bdb = block_data_bytes(b, compress);
    lemma_blocks_skips_index(pre.len(), p, compress, k, nb);
    lemma_blocks_bytes_prefix(p, compress, k + 1, nb);
    let l1 = blocks_bytes(p, compress, k + 1).len();
    assert(l1 == lk + bdb.len());
    let tail = all.skip(l1 as int) + rest;
    assert(all =~= blocks_bytes(p, compress, k + 1) + all.skip(l1 as int));
    assert(data.skip((pre.len() + lk) as int) =~= bdb + tail);
    let skip = blocks_skips(pre.len(), p, compress, nb)[k as int];
    assert(skip == skip_for_block(b, pre.len() + lk, compress));
    assert(skip.posting_offset == pre.len() + lk);
    lemma_term_block_shape(p, k);
    lemma_block_read_back(b, compress, pre.len() + lk, tail);
}

/// The header that `finish` writes reads back from the segment's bytes.
pub proof fn lemma_finish_header(
    v: SegmentBuilderView,
    level: u32,
    next_segment: u32,
    skip_index_offset: u32,
    fieldnorm_offset: u32,
    ctid_pages_offset: u32,
    ctid_offsets_offset: u32,
)
    requires
        finish_ok(v),
    ensures
        read_header_spec(finished_buffer(v, level, next_segment, skip_index_offset, fieldnorm_offset,
            ctid_pages_offset, ctid_offsets_offset))
            == Some(finished_header(v, level, next_segment, skip_index_offset, fieldnorm_offset,
                ctid_pages_offset, ctid_offsets_offset)),
{
    let h = finished_header(v, level, next_segment, skip_index_offset, fieldnorm_offset,
        ctid_pages_offset, ctid_offsets_offset);
    let inner = splice(v.buffer, v.entries_offset as int, dict_entries_bytes(finished_dict_entries(v.dict_entries)));
    let hb = header_bytes(h);
    lemma_header_roundtrip(h, inner.skip(hb.len() as int));
    lemma_dict_entries_bytes_len(finished_dict_entries(v.dict_entries));
    let out = finished_buffer(v, level, next_segment, skip_index_offset, fieldnorm_offset,
        ctid_pages_offset, ctid_offsets_offset);
    assert(out =~= hb + inner.skip(hb.len() as int));
}

/// A run of dictionary entries reads back entry by entry.
proof fn lemma_dict_entries_read(s: Seq<TpDictEntry>, rest: Seq<u8>)
    ensures
        dict_entries_bytes(s).len() == s.len() * TP_DICT_ENTRY_SIZE,
        forall|i: int| 0 <= i < s.len()
            ==> parse_dict_entry(dict_entries_bytes(s) + rest, i * TP_DICT_ENTRY_SIZE) == #[trigger] s[i],
    decreases s.len(),
{
    if s.len() > 0 {
        let d = s.drop_last();
        let last = dict_entry_bytes(s.last());
        lemma_dict_entries_read(d, last + rest);
        lemma_dict_entry_roundtrip(s.last(), dict_entries_bytes(d), rest);
        assert(dict_entries_bytes(s) + rest =~= dict_entries_bytes(d) + (last + rest));
        assert forall|i: int| 0 <= i < s.len()
            implies parse_dict_entry(dict_entries_bytes(s) + rest, i * TP_DICT_ENTRY_SIZE) == #[trigger] s[i] by {
            if i < s.len() - 1 {
                assert(s[i] == d[i]);
            }
        }
    }
}

/// A dict entry reads the same from a suffix of the bytes.
proof fn lemma_parse_dict_entry_skip(x: Seq<u8>, a: int, j: int)
    requires
        0 <= a,
        0 <= j,
        a + j + TP_DICT_ENTRY_SIZE <= x.len(),
    ensures
        parse_dict_entry(x, a + j) == parse_dict_entry(x.skip(a), j),
{
    let y = x.skip(a);
    assert forall|t: int| 0 <= t < 12 implies #[trigger] y[j + t] == x[a + j + t] by {}
    assert(y[j] == x[a + j]);
    assert(y[j + 1] == x[a + j + 1]);
    assert(y[j + 2] == x[a + j + 2]);
    assert(y[j + 3] == x[a + j + 3]);
    assert(y[j + 4] == x[a + j + 4]);
    assert(y[j + 5] == x[a + j + 5]);
    assert(y[j + 6] == x[a + j + 6]);
    assert(y[j + 7] == x[a + j + 7]);
    assert(y[j + 8] == x[a + j + 8]);
    assert(y[j + 9] == x[a + j + 9]);
    assert(y[j + 10] == x[a + j + 10]);
    assert(y[j + 11] == x[a + j + 11]);
}

/// The dictionary entries that `finish` writes read back from the segment's bytes: the
/// `i`-th stands at `entries_offset + 12 i` and points at the term's first skip entry.
pub proof fn lemma_finish_dict_entries(
    v: SegmentBuilderView,
    level: u32,
    next_segment: u32,
    skip_index_offset: u32,
    fieldnorm_offset: u32,
    ctid_pages_offset: u32,
    ctid_offsets_offset: u32,
    i: int,
)
    requires
        finish_ok(v),
        v.entries_offset >= TP_SEGMENT_HEADER_SIZE,
        0 <= i < v.dict_entries.len(),
    ensures
        ({
            let out = finished_buffer(v, level, next_segment, skip_index_offset, fieldnorm_offset,
                ctid_pages_offset, ctid_offsets_offset);
            &&& v.entries_offset + (i + 1) * TP_DICT_ENTRY_SIZE <= out.len()
            &&& parse_dict_entry(out, v.entries_offset + i * TP_DICT_ENTRY_SIZE)
                == finished_dict_entries(v.dict_entries)[i]
        }),
{
    let fin = finished_dict_entries(v.dict_entries);
    let deb = dict_entries_bytes(fin);
    let eo = v.entries_offset as int;
    let inner = splice(v.buffer, eo, deb);
    let h = finished_header(v, level, next_segment, skip_index_offset, fieldnorm_offset,
        ctid_pages_offset, ctid_offsets_offset);
    let hb = header_bytes(h);
    lemma_header_roundtrip(h, Seq::empty());
    let out = finished_buffer(v, level, next_segment, skip_index_offset, fieldnorm_offset,
        ctid_pages_offset, ctid_offsets_offset);
    let tail = v.buffer.skip(eo + deb.len());
    lemma_dict_entries_read(fin, tail);
    assert(out.len() == v.buffer.len());
    assert(out.skip(eo) =~= deb + tail);
    assert((i + 1) * TP_DICT_ENTRY_SIZE <= deb.len()) by (nonlinear_arith)
        requires i < fin.len(), deb.len() == fin.len() * TP_DICT_ENTRY_SIZE;
    lemma_parse_dict_entry_skip(out, eo, i * TP_DICT_ENTRY_SIZE);
}

/// The skip index that `write_skip_index` writes reads back: wherever it stands, entry
/// `k` is read from 16 bytes at `16 k` after its start.
pub proof fn lemma_skip_index_read_back(pre: Seq<u8>, s: Seq<TpSkipEntry>, rest: Seq<u8>)
    ensures
        skip_entries_bytes(s).len() == s.len() * TP_SKIP_ENTRY_SIZE,
        forall|k: int| 0 <= k < s.len()
            ==> parse_skip_entry(pre + skip_entries_bytes(s) + rest, pre.len() + k * TP_SKIP_ENTRY_SIZE) == #[trigger] s[k],
    decreases s.len(),
{
    if s.len() > 0 {
        let d = s.drop_last();
        let last = skip_entry_bytes(s.last());
        lemma_skip_index_read_back(pre, d, last + rest);
        lemma_skip_entry_roundtrip(s.last(), pre + skip_entries_bytes(d), rest);
        assert(pre + skip_entries_bytes(s) + rest =~= pre + skip_entries_bytes(d) + (last + rest));
        assert(pre + skip_entries_bytes(d) + last + rest =~= pre + skip_entries_bytes(s) + rest);
        assert forall|k: int| 0 <= k < s.len()
            implies parse_skip_entry(pre + skip_entries_bytes(s) + rest, pre.len() + k * TP_SKIP_ENTRY_SIZE) == #[trigger] s[k] by {
            if k < s.len() - 1 {
                assert(s[k] == d[k]);
            }
        }
    }
}

/// `finish` writes only the header and the dictionary entries: the bytes between them
/// are as they were.
proof fn lemma_finish_keeps_between(
    v: SegmentBuilderView,
    level: u32,
    next_segment: u32,
    skip_index_offset: u32,
    fieldnorm_offset: u32,
    ctid_pages_offset: u32,
    ctid_offsets_offset: u32,
    a: int,
    b: int,
)
    requires
        finish_ok(v),
        TP_SEGMENT_HEADER_SIZE <= a <= b <= v.entries_offset,
    ensures
        finished_buffer(v, level, next_segment, skip_index_offset, fieldnorm_offset, ctid_pages_offset,
            ctid_offsets_offset).subrange(a, b) == v.buffer.subrange(a, b),
{
    let h = finished_header(v, level, next_segment, skip_index_offset, fieldnorm_offset,
        ctid_pages_offset, ctid_offsets_offset);
    lemma_header_roundtrip(h, Seq::empty());
    let fin = finished_dict_entries(v.dict_entries);
    lemma_dict_entries_bytes_len(fin);
    let inner = splice(v.buffer, v.entries_offset as int, dict_entries_bytes(fin));
    let out = finished_buffer(v, level, next_segment, skip_index_offset, fieldnorm_offset,
        ctid_pages_offset, ctid_offsets_offset);
    assert forall|k: int| a <= k < b implies #[trigger] out[k] == v.buffer[k] by {
        assert(out[k] == inner[k]);
    }
    assert(out.subrange(a, b) =~= v.buffer.subrange(a, b));
}

/// Terms written through the builder are found in the finished segment: when the
/// header placeholder is followed by the dictionary and the string pool of the terms,
/// then by the reserved entries, and the terms ascend strictly, the finished bytes hold
/// a well-formed dictionary at the header's offsets in which term `i` has the text of
/// the `i`-th term and, at its entry position, the `i`-th finished dict entry. So
/// `lookup_term` on the finished segment gives each term its entry, and finds no other
/// term.
#[verifier::rlimit(30)]
pub proof fn lemma_finished_segment_lookup(
    v: SegmentBuilderView,
    terms: Seq<Seq<u8>>,
    level: u32,
    next_segment: u32,
    skip_index_offset: u32,
    fieldnorm_offset: u32,
    ctid_pages_offset: u32,
    ctid_offsets_offset: u32,
)
    requires
        finish_ok(v),
        terms.len() * TP_DICT_ENTRY_SIZE <= u32::MAX,
        string_offset(terms, terms.len()) <= u32::MAX,
        forall|i: int, j: int| 0 <= i < j < terms.len() ==> lex_lt(terms[i], terms[j]),
        v.dict_entries.len() == terms.len(),
        v.dictionary_offset == TP_SEGMENT_HEADER_SIZE,
        v.strings_offset == v.dictionary_offset + dictionary_section(terms).len(),
        v.entries_offset == v.strings_offset + string_offset(terms, terms.len()),
        v.buffer.subrange(v.dictionary_offset as int, v.strings_offset as int) == dictionary_section(terms),
        v.buffer.subrange(v.strings_offset as int, v.entries_offset as int) == strings_section(terms, terms.len()),
    ensures
        ({
            let out = finished_buffer(v, level, next_segment, skip_index_offset, fieldnorm_offset,
                ctid_pages_offset, ctid_offsets_offset);
            let d = v.dictionary_offset as int;
            let s = v.strings_offset as int;
            let e = v.entries_offset as int;
            &&& dict_well_formed(out, d, s)
            &&& forall|i: int| 0 <= i < terms.len() ==> {
                &&& #[trigger] dict_key(out, d, s, i) == terms[i]
                &&& dict_entry_pos(out, d, s, e, i) + TP_DICT_ENTRY_SIZE <= out.len()
                &&& parse_dict_entry(out, dict_entry_pos(out, d, s, e, i)) == finished_dict_entries(v.dict_entries)[i]
            }
        }),
{
    let out = finished_buffer(v, level, next_segment, skip_index_offset, fieldnorm_offset,
        ctid_pages_offset, ctid_offsets_offset);
    let d = v.dictionary_offset as int;
    let s = v.strings_offset as int;
    let e = v.entries_offset as int;
    let fin = finished_dict_entries(v.dict_entries);
    lemma_strings_section_len(terms, terms.len());
    lemma_finish_keeps_between(v, level, next_segment, skip_index_offset, fieldnorm_offset,
        ctid_pages_offset, ctid_offsets_offset, d, s);
    lemma_finish_keeps_between(v, level, next_segment, skip_index_offset, fieldnorm_offset,
        ctid_pages_offset, ctid_offsets_offset, s, e);
    lemma_encoded_dictionary(terms, out, d, s, e);
    assert forall|i: int| 0 <= i < terms.len() implies {
        &&& #[trigger] dict_key(out, d, s, i) == terms[i]
        &&& dict_entry_pos(out, d, s, e, i) + TP_DICT_ENTRY_SIZE <= out.len()
        &&& parse_dict_entry(out, dict_entry_pos(out, d, s, e, i)) == fin[i]
    } by {
        lemma_finish_dict_entries(v, level, next_segment, skip_index_offset, fieldnorm_offset,
            ctid_pages_offset, ctid_offsets_offset, i);
    }
}

/// `finish` writes only the header and the dictionary entries: the bytes after the
/// entries are as they were.
proof fn lemma_finish_keeps_after(
    v: SegmentBuilderView,
    level: u32,
    next_segment: u32,
    skip_index_offset: u32,
    fieldnorm_offset: u32,
    ctid_pages_offset: u32,
    ctid_offsets_offset: u32,
    a: int,
)
    requires
        finish_ok(v),
        TP_SEGMENT_HEADER_SIZE <= a,
        v.entries_offset + v.dict_entries.len() * TP_DICT_ENTRY_SIZE <= a <= v.buffer.len(),
    ensures
        finished_buffer(v, level, next_segment, skip_index_offset, fieldnorm_offset, ctid_pages_offset,
            ctid_offsets_offset).skip(a) == v.buffer.skip(a),
{
    let h = finished_header(v, level, next_segment, skip_index_offset, fieldnorm_offset,
        ctid_pages_offset, ctid_offsets_offset);
    lemma_header_roundtrip(h, Seq::empty());
    let fin = finished_dict_entries(v.dict_entries);
    lemma_dict_entries_bytes_len(fin);
    let inner = splice(v.buffer, v.entries_offset as int, dict_entries_bytes(fin));
    let out = finished_buffer(v, level, next_segment, skip_index_offset, fieldnorm_offset,
        ctid_pages_offset, ctid_offsets_offset);
    assert forall|k: int| a <= k < v.buffer.len() implies #[trigger] out[k] == v.buffer[k] by {
        assert(out[k] == inner[k]);
    }
    assert(out.skip(a) =~= v.buffer.skip(a));
}

/// Postings written through the builder read back from the finished segment: when the
/// buffer holds a term's blocks after the reserved entries, block `k` of the term is
/// read from the finished bytes at the offset its skip entry records, through that skip
/// entry, as the `k`-th run of the term's postings.
pub proof fn lemma_finished_postings_read_back(
    v: SegmentBuilderView,
    level: u32,
    next_segment: u32,
    skip_index_offset: u32,
    fieldnorm_offset: u32,
    ctid_pages_offset: u32,
    ctid_offsets_offset: u32,
    pre: Seq<u8>,
    p: Seq<PostingEntry>,
    rest: Seq<u8>,
    k: nat,
)
    requires
        finish_ok(v),
        TP_SEGMENT_HEADER_SIZE <= pre.len(),
        v.entries_offset + v.dict_entries.len() * TP_DICT_ENTRY_SIZE <= pre.len(),
        v.buffer == pre + blocks_bytes(p, v.compress, num_blocks(p.len())) + rest,
        postings_sorted(p),
        k < num_blocks(p.len()),
        pre.len() + blocks_bytes(p, v.compress, num_blocks(p.len())).len() <= u32::MAX,
    ensures
        ({
            let out = finished_buffer(v, level, next_segment, skip_index_offset, fieldnorm_offset,
                ctid_pages_offset, ctid_offsets_offset);
            let skip = blocks_skips(pre.len(), p, v.compress, num_blocks(p.len()))[k as int];
            &&& skip.posting_offset <= out.len()
            &&& skip.flags == TP_BLOCK_FLAG_DELTA
                ==> decompress_ok(out.skip(skip.posting_offset as int), skip.doc_count as nat, 0)
            &&& posting_block_spec(out.skip(skip.posting_offset as int), skip) == term_block(p, k)
        }),
{
    let nb = num_blocks(p.len());
    lemma_term_postings_read_back(pre, p, v.compress, rest, k);
    lemma_blocks_skips_index(pre.len(), p, v.compress, k, nb);
    lemma_blocks_bytes_prefix(p, v.compress, k, nb);
    let skip = blocks_skips(pre.len(), p, v.compress, nb)[k as int];
    let off = skip.posting_offset as int;
    assert(off == pre.len() + blocks_bytes(p, v.compress, k).len());
    lemma_finish_keeps_after(v, level, next_segment, skip_index_offset, fieldnorm_offset,
        ctid_pages_offset, ctid_offsets_offset, pre.len() as int);
    let out = finished_buffer(v, level, next_segment, skip_index_offset, fieldnorm_offset,
        ctid_pages_offset, ctid_offsets_offset);
    assert(out.skip(off) =~= out.skip(pre.len() as int).skip(off - pre.len()));
    assert(v.buffer.skip(off) =~= v.buffer.skip(pre.len() as int).skip(off - pre.len()));
}

/// The dictionary entry of a term with postings `p`, before `finish` sets its skip offset.
pub open spec fn term_dict_entry(p: Seq<PostingEntry>) -> TpDictEntry {
    TpDictEntry { skip_index_offset: 0, block_count: num_blocks(p.len()) as u16, reserved: 0, doc_freq: p.len() as u32 }
}

/// The builder after `write_term_postings` writes the postings `p`.
pub open spec fn term_written(o: SegmentBuilderView, p: Seq<PostingEntry>) -> SegmentBuilderView {
    let nb = num_blocks(p.len());
    SegmentBuilderView {
        buffer: o.buffer + blocks_bytes(p, o.compress, nb),
        skip_entries: o.skip_entries + blocks_skips(o.buffer.len(), p, o.compress, nb),
        dict_entries: o.dict_entries.push(term_dict_entry(p)),
        postings_offset: if o.postings_offset == 0 { o.buffer.len() as u32 } else { o.postings_offset },
        ..o
    }
}

/// The entry `write_term_postings` returns for the postings `p`: it points at the first
/// skip entry the call adds.
pub open spec fn term_entry(o: SegmentBuilderView, p: Seq<PostingEntry>) -> TpDictEntry {
    TpDictEntry { skip_index_offset: (o.skip_entries.len() * TP_SKIP_ENTRY_SIZE) as u32, ..term_dict_entry(p) }
}

/// The builder after `write_term_postings` writes each list of `ps` in turn.
pub open spec fn terms_written(o: SegmentBuilderView, ps: Seq<Seq<PostingEntry>>) -> SegmentBuilderView
    decreases ps.len(),
{
    if ps.len() == 0 {
        o
    } else {
        term_written(terms_written(o, ps.drop_last()), ps.last())
    }
}

/// The entries those calls return, in order.
pub open spec fn terms_entries(o: SegmentBuilderView, ps: Seq<Seq<PostingEntry>>) -> Seq<TpDictEntry>
    decreases ps.len(),
{
    if ps.len() == 0 {
        Seq::empty()
    } else {
        terms_entries(o, ps.drop_last()).push(term_entry(terms_written(o, ps.drop_last()), ps.last()))
    }
}

/// Every skip entry belongs to a written term: the skip index is as long as the
/// dictionary entries' blocks add up to.
pub open spec fn skips_match_entries(v: SegmentBuilderView) -> bool {
    v.skip_entries.len() * TP_SKIP_ENTRY_SIZE == skip_prefix(v.dict_entries, v.dict_entries.len())
}

proof fn lemma_skip_prefix_push(des: Seq<TpDictEntry>, d: TpDictEntry, k: nat)
    requires
        k <= des.len(),
    ensures
        skip_prefix(des.push(d), k) == skip_prefix(des, k),
    decreases k,
{
    if k > 0 {
        assert(des.push(d)[k - 1] == des[k - 1]);
        lemma_skip_prefix_push(des, d, (k - 1) as nat);
    }
}

/// A fresh builder has no skip entries and no dictionary entries.
pub proof fn lemma_new_skips_match(compress: bool)
    ensures
        skips_match_entries(SegmentBuilderView {
            buffer: Seq::empty(),
            skip_entries: Seq::empty(),
            dict_entries: Seq::empty(),
            num_terms: 0,
            num_docs: 0,
            total_tokens: 0,
            compress,
            dictionary_offset: 0,
            strings_offset: 0,
            entries_offset: 0,
            postings_offset: 0,
        }),
{
}

/// What `write_term_postings` returns for a term is what `finish` later writes for it:
/// while every skip entry belongs to a written term, the entry returned for the new term
/// equals the last of the finished dictionary entries (it points at the term's first
/// skip entry, 16 bytes times the blocks of all earlier terms), and every skip entry
/// still belongs to a written term afterwards.
pub proof fn lemma_written_entry_is_finished_entry(o: SegmentBuilderView, p: Seq<PostingEntry>)
    requires
        skips_match_entries(o),
        num_blocks(p.len()) <= u16::MAX,
    ensures
        skips_match_entries(term_written(o, p)),
        finished_dict_entries(term_written(o, p).dict_entries)[o.dict_entries.len() as int] == term_entry(o, p),
{
    let nb = num_blocks(p.len());
    let dict = TpDictEntry { skip_index_offset: 0, block_count: nb as u16, reserved: 0, doc_freq: p.len() as u32 };
    let des = o.dict_entries.push(dict);
    lemma_blocks_skips_len(o.buffer.len(), p, o.compress, nb);
    lemma_skip_prefix_push(o.dict_entries, dict, o.dict_entries.len());
    assert(des[des.len() - 1] == dict);
    assert(skip_prefix(des, des.len()) == skip_prefix(des, o.dict_entries.len()) + nb * TP_SKIP_ENTRY_SIZE);
    assert((o.skip_entries.len() + nb) * TP_SKIP_ENTRY_SIZE == o.skip_entries.len() * TP_SKIP_ENTRY_SIZE + nb * TP_SKIP_ENTRY_SIZE)
        by (nonlinear_arith);
}

proof fn lemma_finished_entries_push(des: Seq<TpDictEntry>, d: TpDictEntry, i: int)
    requires
        0 <= i < des.len(),
    ensures
        finished_dict_entries(des.push(d))[i] == finished_dict_entries(des)[i],
{
    lemma_skip_prefix_push(des, d, i as nat);
    assert(des.push(d)[i] == des[i]);
}

/// `finish` writes, for a series of terms, exactly the entries `write_term_postings`
/// returned for them: while every skip entry belongs to a written term, after writing
/// the posting lists `ps` one after another, the finished dictionary entry of the
/// `i`-th of them is the entry its call returned (it points 16 bytes times the blocks of
/// all earlier terms into the skip index), and every skip entry still belongs to a
/// written term. `finish` stores these finished entries at the reserved entries
/// offset, and `lemma_finish_dict_entries` reads them back from its bytes.
pub proof fn lemma_finish_writes_returned_entries(o: SegmentBuilderView, ps: Seq<Seq<PostingEntry>>)
    requires
        skips_match_entries(o),
        forall|i: int| 0 <= i < ps.len() ==> num_blocks((#[trigger] ps[i]).len()) <= u16::MAX,
    ensures
        skips_match_entries(terms_written(o, ps)),
        terms_written(o, ps).dict_entries.len() == o.dict_entries.len() + ps.len(),
        terms_entries(o, ps).len() == ps.len(),
        forall|i: int| 0 <= i < ps.len() ==> finished_dict_entries(terms_written(o, ps).dict_entries)[o.dict_entries.len() + i]
            == #[trigger] terms_entries(o, ps)[i],
    decreases ps.len(),
{
    if ps.len() > 0 {
        let q = ps.drop_last();
        assert forall|i: int| 0 <= i < q.len() implies num_blocks((#[trigger] q[i]).len()) <= u16::MAX by {
            assert(q[i] == ps[i]);
        }
        lemma_finish_writes_returned_entries(o, q);
        let mid = terms_written(o, q);
        assert(num_blocks(ps[ps.len() - 1].len()) <= u16::MAX);
        lemma_written_entry_is_finished_entry(mid, ps.last());
        let des = mid.dict_entries;
        assert forall|i: int| 0 <= i < ps.len() implies finished_dict_entries(terms_written(o, ps).dict_entries)[o.dict_entries.len() + i]
            == #[trigger] terms_entries(o, ps)[i] by {
            if i < q.len() {
                lemma_finished_entries_push(des, term_dict_entry(ps.last()), o.dict_entries.len() + i);
                assert(terms_entries(o, ps)[i] == terms_entries(o, q)[i]);
            }
        }
    }
}

/// The skip entry written for each block bounds the block: over the postings
/// `128 k .. 128 k + 128` of a term (those that exist), its `block_max_tf` is at least
/// every posting's frequency and is one of them, its `block_max_norm` is at least every
/// posting's fieldnorm and is one of them, it counts the block's postings and holds
/// the block's last doc id.
pub proof fn lemma_skip_entry_bounds_block(base: nat, p: Seq<PostingEntry>, compress: bool, k: nat)
    requires
        k < num_blocks(p.len()),
    ensures
        ({
            let s = blocks_skips(base, p, compress, num_blocks(p.len()))[k as int];
            let lo: int = 128 * k as int;
            let hi: int = if p.len() >= lo + 128 { lo + 128 } else { p.len() as int };
            &&& lo < hi
            &&& forall|j: int| lo <= j < hi ==> (#[trigger] p[j]).frequency <= s.block_max_tf
                && p[j].fieldnorm <= s.block_max_norm
            &&& exists|j: int| lo <= j < hi && (#[trigger] p[j]).frequency == s.block_max_tf
            &&& exists|j: int| lo <= j < hi && (#[trigger] p[j]).fieldnorm == s.block_max_norm
            &&& s.doc_count == hi - lo
            &&& s.last_doc_id == p[hi - 1].doc_id
        }),
{
    let nb = num_blocks(p.len());
    lemma_blocks_skips_index(base, p, compress, k, nb);
    let b = term_block(p, k);
    let lo: int = 128 * k as int;
    let hi: int = if p.len() >= lo + 128 { lo + 128 } else { p.len() as int };
    assert(lo < p.len()) by (nonlinear_arith)
        requires k < nb, nb == (p.len() + 127) / 128, lo == 128 * k;
    assert(b.len() == hi - lo);
    let fs = Seq::new(b.len(), |i: int| b[i].frequency as u32);
    let ns = Seq::new(b.len(), |i: int| b[i].fieldnorm as u32);
    lemma_seq_max_small(fs, 0x10000);
    lemma_seq_max_small(ns, 0x100);
    assert forall|j: int| lo <= j < hi implies (#[trigger] p[j]).frequency <= block_max_tf(b)
        && p[j].fieldnorm <= block_max_norm(b) by {
        crate::compression::lemma_seq_max_bound(fs, j - lo);
        crate::compression::lemma_seq_max_bound(ns, j - lo);
        assert(b[j - lo] == posting_to_block(p[j]));
    }
    crate::compression::lemma_seq_max_in(fs);
    let i = choose|i: int| 0 <= i < fs.len() && fs[i] == seq_max(fs);
    assert(b[i] == posting_to_block(p[lo + i]));
    assert(p[lo + i].frequency == block_max_tf(b));
    crate::compression::lemma_seq_max_in(ns);
    let i2 = choose|i: int| 0 <= i < ns.len() && ns[i] == seq_max(ns);
    assert(b[i2] == posting_to_block(p[lo + i2]));
    assert(p[lo + i2].fieldnorm == block_max_norm(b));
    assert(b.last() == posting_to_block(p[hi - 1]));
}

proof fn lemma_postings_offset_series(o: SegmentBuilderView, ps: Seq<Seq<PostingEntry>>)
    requires
        o.postings_offset == 0,
        o.skip_entries.len() == 0,
        0 < o.buffer.len() <= u32::MAX,
    ensures
        ps.len() > 0 ==> terms_written(o, ps).postings_offset == o.buffer.len(),
        ps.len() == 0 ==> terms_written(o, ps).postings_offset == 0,
        terms_written(o, ps).skip_entries.len() == 0 ==> terms_written(o, ps).buffer.len() == o.buffer.len(),
        terms_written(o, ps).skip_entries.len() > 0 ==> terms_written(o, ps).skip_entries[0].posting_offset == o.buffer.len(),
    decreases ps.len(),
{
    if ps.len() > 0 {
        let q = ps.drop_last();
        let p = ps.last();
        lemma_postings_offset_series(o, q);
        let v = terms_written(o, q);
        let nb = num_blocks(p.len());
        lemma_blocks_skips_len(v.buffer.len(), p, v.compress, nb);
        if v.skip_entries.len() == 0 && nb > 0 {
            lemma_blocks_skips_index(v.buffer.len(), p, v.compress, 0, nb);
            assert(blocks_bytes(p, v.compress, 0) =~= Seq::<u8>::empty());
        }
        if nb == 0 {
            assert(blocks_bytes(p, v.compress, 0) =~= Seq::<u8>::empty());
        }
    }
}

/// The segment's postings offset is where its first posting block starts: on a builder
/// that has written bytes (its header placeholder) but no postings yet, after writing
/// the posting lists `ps` one after another, the builder's postings offset, which
/// `finish` puts in the header, equals the posting offset of the first skip entry,
/// whichever later terms follow.
pub proof fn lemma_postings_offset_is_first_block(o: SegmentBuilderView, ps: Seq<Seq<PostingEntry>>)
    requires
        o.postings_offset == 0,
        o.skip_entries.len() == 0,
        0 < o.buffer.len() <= u32::MAX,
        terms_written(o, ps).skip_entries.len() > 0,
    ensures
        terms_written(o, ps).postings_offset == terms_written(o, ps).skip_entries[0].posting_offset,
        terms_written(o, ps).postings_offset == o.buffer.len(),
{
    lemma_postings_offset_series(o, ps);
    if ps.len() == 0 {
        assert(terms_written(o, ps) == o);
    }
}

impl SegmentBuilder {
    pub fn new(compress: bool) -> (b: Self)
        ensures
            b@ == (SegmentBuilderView {
                buffer: Seq::empty(),
                skip_entries: Seq::empty(),
                dict_entries: Seq::empty(),
                num_terms: 0,
                num_docs: 0,
                total_tokens: 0,
                compress,
                dictionary_offset: 0,
                strings_offset: 0,
                entries_offset: 0,
                postings_offset: 0,
            }),
    {
        SegmentBuilder {
            buffer: Vec::new(),
            skip_entries: Vec::new(),
            dict_entries: Vec::new(),
            num_terms: 0,
            num_docs: 0,
            total_tokens: 0,
            compress,
            dictionary_offset: 0,
            strings_offset: 0,
            entries_offset: 0,
            postings_offset: 0,
        }
    }

    /// Grow or cut the buffer to `len` bytes, new bytes zero.
    fn resize_buffer(&mut self, len: usize)
        ensures
            final(self)@ == (SegmentBuilderView {
                buffer: if len <= old(self)@.buffer.len() {
                    old(self)@.buffer.take(len as int)
                } else {
                    old(self)@.buffer + zeros((len - old(self)@.buffer.len()) as nat)
                },
                ..old(self)@
            }),
    {
        let old_len = self.buffer.len();
        if len <= old_len {
            self.buffer.truncate(len);
        } else {
            let mut k: usize = old_len;
            while k < len
                invariant
                    old_len <= k <= len,
                    old_len == old(self)@.buffer.len(),
                    self@ == (SegmentBuilderView { buffer: old(self)@.buffer + zeros((k - old_len) as nat), ..old(self)@ }),
                decreases len - k,
            {
                self.buffer.push(0);
                k = k + 1;
                proof {
                    assert(self.buffer@ =~= old(self)@.buffer + zeros((k - old_len) as nat));
                }
            }
        }
        proof {
            if len <= old_len {
                assert(self.buffer@ =~= old(self)@.buffer.take(len as int));
            }
        }
    }

    /// Write the segment header placeholder: the buffer becomes exactly the header's
    /// size. Returns the header offset (always 0).
    pub fn write_header_placeholder(&mut self) -> (offset: usize)
        ensures
            offset == 0,
            final(self)@ == (SegmentBuilderView {
                buffer: if TP_SEGMENT_HEADER_SIZE <= old(self)@.buffer.len() {
                    old(self)@.buffer.take(TP_SEGMENT_HEADER_SIZE as int)
                } else {
                    old(self)@.buffer + zeros((TP_SEGMENT_HEADER_SIZE - old(self)@.buffer.len()) as nat)
                },
                ..old(self)@
            }),
    {
        self.resize_buffer(TP_SEGMENT_HEADER_SIZE);
        0
    }

    /// Write the dictionary section (term offsets).
    pub fn write_dictionary(&mut self, terms: &[&str])
        requires
            string_offset(term_bytes(terms@), terms@.len()) <= u32::MAX,
        ensures
            final(self)@ == (SegmentBuilderView {
                buffer: old(self)@.buffer + dictionary_section(term_bytes(terms@)),
                dictionary_offset: old(self)@.buffer.len() as u32,
                num_terms: terms@.len() as u32,
                ..old(self)@
            }),
    {
        let ghost tb = term_bytes(terms@);
        self.dictionary_offset = self.buffer.len() as u32;
        self.num_terms = terms.len() as u32;
        let ghost mid = self@;
        push_u32(&mut self.buffer, self.num_terms);
        let ghost start = self.buffer@;
        let mut next_offset: u32 = 0;
        let mut i: usize = 0;
        while i < terms.len()
            invariant
                tb == term_bytes(terms@),
                string_offset(tb, terms@.len()) <= u32::MAX,
                i <= terms@.len(),
                next_offset == string_offset(tb, i as nat),
                self@ == (SegmentBuilderView {
                    buffer: start + words_le_bytes(Seq::new(i as nat, |j: int| string_offset(tb, j as nat) as u32)),
                    ..mid
                }),
            decreases terms@.len() - i,
        {
            proof {
                crate::segment::dictionary::lemma_string_offset_monotonic(tb, (i + 1) as nat, terms@.len());
                assert(tb[i as int] == terms@[i as int].spec_bytes());
            }
            push_u32(&mut self.buffer, next_offset);
            let term = terms[i];
            next_offset = next_offset + 4 + term.len() as u32 + 4;
            proof {
                let ws = Seq::new(i as nat, |j: int| string_offset(tb, j as nat) as u32);
                lemma_words_push(ws, string_offset(tb, i as nat) as u32);
                assert(ws.push(string_offset(tb, i as nat) as u32) =~= Seq::new((i + 1) as nat, |j: int| string_offset(tb, j as nat) as u32));
                assert(self.buffer@ =~= start + words_le_bytes(Seq::new((i + 1) as nat, |j: int| string_offset(tb, j as nat) as u32)));
            }
            i = i + 1;
        }
        proof {
            assert(self.buffer@ =~= old(self)@.buffer + dictionary_section(tb));
        }
    }

    /// Write the string pool section.
    pub fn write_strings(&mut self, terms: &[&str])
        requires
            terms@.len() * TP_DICT_ENTRY_SIZE <= usize::MAX,
        ensures
            final(self)@ == (SegmentBuilderView {
                buffer: old(self)@.buffer + strings_section(term_bytes(terms@), terms@.len()),
                strings_offset: old(self)@.buffer.len() as u32,
                ..old(self)@
            }),
    {
        let ghost tb = term_bytes(terms@);
        self.strings_offset = self.buffer.len() as u32;
        let ghost mid = self@;
        let ghost start = self.buffer@;
        let mut i: usize = 0;
        while i < terms.len()
            invariant
                tb == term_bytes(terms@),
                terms@.len() * TP_DICT_ENTRY_SIZE <= usize::MAX,
                i <= terms@.len(),
                self@ == (SegmentBuilderView { buffer: start + strings_section(tb, i as nat), ..mid }),
            decreases terms@.len() - i,
        {
            let term = terms[i];
            let len = term.len() as u32;
            let ghost before = self.buffer@;
            push_u32(&mut self.buffer, len);
            let bytes = term.as_bytes();
            let ghost with_len = self.buffer@;
            let mut k: usize = 0;
            while k < bytes.len()
                invariant
                    k <= bytes@.len(),
                    self@ == (SegmentBuilderView { buffer: with_len + bytes@.take(k as int), ..mid }),
                decreases bytes@.len() - k,
            {
                self.buffer.push(bytes[k]);
                k = k + 1;
                proof {
                    assert(self.buffer@ =~= with_len + bytes@.take(k as int));
                }
            }
            let entry_offset = (i * TP_DICT_ENTRY_SIZE) as u32;
            push_u32(&mut self.buffer, entry_offset);
            proof {
                assert(bytes@.take(k as int) =~= bytes@);
                assert(tb[i as int] == bytes@);
                assert(self.buffer@ =~= start + strings_section(tb, (i + 1) as nat));
            }
            i = i + 1;
        }
    }

    /// Reserve space for dictionary entries (filled after postings).
    pub fn reserve_entries(&mut self, num_terms: usize)
        requires
            old(self)@.buffer.len() + num_terms * TP_DICT_ENTRY_SIZE <= usize::MAX,
        ensures
            final(self)@ == (SegmentBuilderView {
                buffer: old(self)@.buffer + zeros(num_terms as nat * TP_DICT_ENTRY_SIZE as nat),
                entries_offset: old(self)@.buffer.len() as u32,
                ..old(self)@
            }),
    {
        self.entries_offset = self.buffer.len() as u32;
        let size = num_terms * TP_DICT_ENTRY_SIZE;
        let len = self.buffer.len() + size;
        self.resize_buffer(len);
        proof {
            assert(self.buffer@ =~= old(self)@.buffer + zeros(num_terms as nat * TP_DICT_ENTRY_SIZE as nat));
        }
    }

    /// Write the skip index section. Returns its offset.
    pub fn write_skip_index(&mut self) -> (offset: u32)
        ensures
            offset == old(self)@.buffer.len() as u32,
            final(self)@ == (SegmentBuilderView {
                buffer: old(self)@.buffer + skip_entries_bytes(old(self)@.skip_entries),
                ..old(self)@
            }),
    {
        let offset = self.buffer.len() as u32;
        let mut i: usize = 0;
        while i < self.skip_entries.len()
            invariant
                i <= self.skip_entries@.len(),
                self@ == (SegmentBuilderView {
                    buffer: old(self)@.buffer + skip_entries_bytes(old(self)@.skip_entries.take(i as int)),
                    ..old(self)@
                }),
            decreases self.skip_entries@.len() - i,
        {
            let skip = self.skip_entries[i];
            push_u32(&mut self.buffer, skip.last_doc_id);
            self.buffer.push(skip.doc_count);
            push_u16(&mut self.buffer, skip.block_max_tf);
            self.buffer.push(skip.block_max_norm);
            push_u32(&mut self.buffer, skip.posting_offset);
            self.buffer.push(skip.flags);
            self.buffer.push(skip.reserved[0]);
            self.buffer.push(skip.reserved[1]);
            self.buffer.push(skip.reserved[2]);
            proof {
                let s = old(self)@.skip_entries;
                assert(s.take(i + 1).drop_last() =~= s.take(i as int));
                assert(self.buffer@ =~= old(self)@.buffer + skip_entries_bytes(s.take(i + 1)));
            }
            i = i + 1;
        }
        proof {
            assert(old(self)@.skip_entries.take(i as int) =~= old(self)@.skip_entries);
        }
        offset
    }

    /// Write the fieldnorm table. Returns its offset.
    pub fn write_fieldnorms(&mut self, fieldnorms: &[u8]) -> (offset: u32)
        ensures
            offset == old(self)@.buffer.len() as u32,
            final(self)@ == (SegmentBuilderView { buffer: old(self)@.buffer + fieldnorms@, ..old(self)@ }),
    {
        let offset = self.buffer.len() as u32;
        let mut i: usize = 0;
        while i < fieldnorms.len()
            invariant
                i <= fieldnorms@.len(),
                self@ == (SegmentBuilderView { buffer: old(self)@.buffer + fieldnorms@.take(i as int), ..old(self)@ }),
            decreases fieldnorms@.len() - i,
        {
            self.buffer.push(fieldnorms[i]);
            i = i + 1;
            proof {
                assert(self.buffer@ =~= old(self)@.buffer + fieldnorms@.take(i as int));
            }
        }
        proof {
            assert(fieldnorms@.take(i as int) =~= fieldnorms@);
        }
        offset
    }

    /// Append `u32` values, each little-endian.
    fn push_u32s(&mut self, values: &[u32])
        ensures
            final(self)@ == (SegmentBuilderView { buffer: old(self)@.buffer + words_le_bytes(values@), ..old(self)@ }),
    {
        let mut i: usize = 0;
        while i < values.len()
            invariant
                i <= values@.len(),
                self@ == (SegmentBuilderView { buffer: old(self)@.buffer + words_le_bytes(values@.take(i as int)), ..old(self)@ }),
            decreases values@.len() - i,
        {
            push_u32(&mut self.buffer, values[i]);
            proof {
                assert(values@.take(i + 1) =~= values@.take(i as int).push(values@[i as int]));
                lemma_words_push(values@.take(i as int), values@[i as int]);
                assert(self.buffer@ =~= old(self)@.buffer + words_le_bytes(values@.take(i + 1)));
            }
            i = i + 1;
        }
        proof {
            assert(values@.take(i as int) =~= values@);
        }
    }

    /// Write the CTID pages array (BlockNumber per doc). Returns its offset.
    pub fn write_ctid_pages(&mut self, pages: &[u32]) -> (offset: u32)
        ensures
            offset == old(self)@.buffer.len() as u32,
            final(self)@ == (SegmentBuilderView { buffer: old(self)@.buffer + words_le_bytes(pages@), ..old(self)@ }),
    {
        let offset = self.buffer.len() as u32;
        self.push_u32s(pages);
        offset
    }

    /// Write the CTID offsets array (OffsetNumber per doc). Returns its offset.
    pub fn write_ctid_offsets(&mut self, offsets: &[u16]) -> (offset: u32)
        ensures
            offset == old(self)@.buffer.len() as u32,
            final(self)@ == (SegmentBuilderView { buffer: old(self)@.buffer + u16s_le_bytes(offsets@), ..old(self)@ }),
    {
        let offset = self.buffer.len() as u32;
        let mut i: usize = 0;
        while i < offsets.len()
            invariant
                i <= offsets@.len(),
                self@ == (SegmentBuilderView { buffer: old(self)@.buffer + u16s_le_bytes(offsets@.take(i as int)), ..old(self)@ }),
            decreases offsets@.len() - i,
        {
            push_u16(&mut self.buffer, offsets[i]);
            proof {
                assert(offsets@.take(i + 1).drop_last() =~= offsets@.take(i as int));
                assert(self.buffer@ =~= old(self)@.buffer + u16s_le_bytes(offsets@.take(i + 1)));
            }
            i = i + 1;
        }
        proof {
            assert(offsets@.take(i as int) =~= offsets@);
        }
        offset
    }

    /// Write the tenant_id table (uint32 per doc). V4 only. Returns its offset.
    pub fn write_tenant_map(&mut self, tenant_ids: &[u32]) -> (offset: u32)
        ensures
            offset == old(self)@.buffer.len() as u32,
            final(self)@ == (SegmentBuilderView { buffer: old(self)@.buffer + words_le_bytes(tenant_ids@), ..old(self)@ }),
    {
        let offset = self.buffer.len() as u32;
        self.push_u32s(tenant_ids);
        offset
    }

    /// Write per-tenant stats section. V4 only. Returns its offset.
    /// Format: num_tenants (u32) + TpTenantStats[num_tenants]
    pub fn write_tenant_stats(&mut self, stats: &[TpTenantStats]) -> (offset: u32)
        ensures
            offset == old(self)@.buffer.len() as u32,
            final(self)@ == (SegmentBuilderView {
                buffer: old(self)@.buffer + u32_le_bytes(stats@.len() as u32) + tenant_stats_all_bytes(stats@),
                ..old(self)@
            }),
    {
        let offset = self.buffer.len() as u32;
        let count = stats.len() as u32;
        push_u32(&mut self.buffer, count);
        let ghost start = self.buffer@;
        let mut i: usize = 0;
        while i < stats.len()
            invariant
                i <= stats@.len(),
                self@ == (SegmentBuilderView { buffer: start + tenant_stats_all_bytes(stats@.take(i as int)), ..old(self)@ }),
            decreases stats@.len() - i,
        {
            let stat = stats[i];
            push_u32(&mut self.buffer, stat.tenant_id);
            push_u32(&mut self.buffer, stat.num_docs);
            push_u64(&mut self.buffer, stat.total_tokens);
            proof {
                assert(stats@.take(i + 1).drop_last() =~= stats@.take(i as int));
                assert(self.buffer@ =~= start + tenant_stats_all_bytes(stats@.take(i + 1)));
            }
            i = i + 1;
        }
        proof {
            assert(stats@.take(i as int) =~= stats@);
        }
        offset
    }

    /// Write per-term per-tenant doc_freq section. V4 only. Returns its offset.
    /// For each term (in dictionary order):
    ///   num_tenant_entries (u16) + TpTenantDocFreq[]
    pub fn write_tenant_docfreqs(&mut self, per_term_entries: &[Vec<TpTenantDocFreq>]) -> (offset: u32)
        ensures
            offset == old(self)@.buffer.len() as u32,
            final(self)@ == (SegmentBuilderView {
                buffer: old(self)@.buffer + tenant_docfreq_section(per_term_entries@.map_values(|v: Vec<TpTenantDocFreq>| v@)),
                ..old(self)@
            }),
    {
        let ghost per_term = per_term_entries@.map_values(|v: Vec<TpTenantDocFreq>| v@);
        let offset = self.buffer.len() as u32;
        let mut t: usize = 0;
        while t < per_term_entries.len()
            invariant
                t <= per_term_entries@.len(),
                per_term == per_term_entries@.map_values(|v: Vec<TpTenantDocFreq>| v@),
                self@ == (SegmentBuilderView {
                    buffer: old(self)@.buffer + tenant_docfreq_section(per_term.take(t as int)),
                    ..old(self)@
                }),
            decreases per_term_entries@.len() - t,
        {
            let entries = &per_term_entries[t];
            let count = entries.len() as u16;
            push_u16(&mut self.buffer, count);
            let ghost start = self.buffer@;
            let mut i: usize = 0;
            while i < entries.len()
                invariant
                    i <= entries@.len(),
                    self@ == (SegmentBuilderView { buffer: start + docfreqs_bytes(entries@.take(i as int)), ..old(self)@ }),
                decreases entries@.len() - i,
            {
                let entry = entries[i];
                push_u32(&mut self.buffer, entry.tenant_id);
                push_u32(&mut self.buffer, entry.doc_freq);
                proof {
                    assert(entries@.take(i + 1).drop_last() =~= entries@.take(i as int));
                    assert(self.buffer@ =~= start + docfreqs_bytes(entries@.take(i + 1)));
                }
                i = i + 1;
            }
            proof {
                assert(entries@.take(i as int) =~= entries@);
                assert(per_term.take(t + 1).drop_last() =~= per_term.take(t as int));
                assert(per_term[t as int] == entries@);
                assert(self.buffer@ =~= old(self)@.buffer + tenant_docfreq_section(per_term.take(t + 1)));
            }
            t = t + 1;
        }
        proof {
            assert(per_term.take(t as int) =~= per_term);
        }
        offset
    }

    /// Write one block of postings, compressed when compression is on and the block
    /// holds more than one posting, and record its skip entry.
    fn flush_block(&mut self, block: &[TpBlockPosting])
        requires
            0 < block@.len() <= TP_BLOCK_SIZE,
            sorted_by_doc_id(block@),
        ensures
            final(self)@ == (SegmentBuilderView {
                buffer: old(self)@.buffer + block_data_bytes(block@, old(self)@.compress),
                skip_entries: old(self)@.skip_entries.push(
                    skip_for_block(block@, old(self)@.buffer.len(), old(self)@.compress)),
                ..old(self)@
            }),
    {
        let ghost b = block@;
        let posting_offset = self.buffer.len() as u32;
        let count = block.len() as u8;

        // Compute block max TF and max norm
        let mut max_tf: u16 = 0;
        let mut max_norm: u8 = 0;
        let mut last_doc_id: u32 = 0;
        let mut i: usize = 0;
        while i < block.len()
            invariant
                b == block@,
                i <= b.len(),
                max_tf == block_max_tf(b.take(i as int)),
                max_norm == block_max_norm(b.take(i as int)),
                last_doc_id == (if i == 0 { 0 } else { b[i - 1].doc_id }),
            decreases b.len() - i,
        {
            let posting = block[i];
            proof {
                let t = b.take(i + 1);
                assert(Seq::new(t.len(), |k: int| t[k].frequency as u32).drop_last()
                    =~= Seq::new(b.take(i as int).len(), |k: int| b.take(i as int)[k].frequency as u32));
                assert(Seq::new(t.len(), |k: int| t[k].fieldnorm as u32).drop_last()
                    =~= Seq::new(b.take(i as int).len(), |k: int| b.take(i as int)[k].fieldnorm as u32));
                crate::segment::writer::lemma_seq_max_small(Seq::new(b.take(i as int).len(), |k: int| b.take(i as int)[k].frequency as u32), 0x10000);
                crate::segment::writer::lemma_seq_max_small(Seq::new(b.take(i as int).len(), |k: int| b.take(i as int)[k].fieldnorm as u32), 0x100);
            }
            if posting.frequency > max_tf {
                max_tf = posting.frequency;
            }
            if posting.fieldnorm > max_norm {
                max_norm = posting.fieldnorm;
            }
            last_doc_id = posting.doc_id;
            i = i + 1;
        }
        proof {
            assert(b.take(i as int) =~= b);
        }

        // Compress or write raw
        let flags = if self.compress && block.len() > 1 {
            proof {
                lemma_compressed_block_fits(b);
            }
            let mut compressed = vec![0u8; TP_MAX_COMPRESSED_BLOCK_SIZE];
            let compressed_len = compress_block(block, compressed.as_mut_slice());
            let ghost before = self.buffer@;
            let mut k: usize = 0;
            while k < compressed_len
                invariant
                    compressed_len == compressed_block_spec(b).len(),
                    compressed@ == splice(compressed@, 0, compressed_block_spec(b)),
                    compressed_len <= compressed@.len(),
                    k <= compressed_len,
                    self@ == (SegmentBuilderView { buffer: before + compressed_block_spec(b).take(k as int), ..old(self)@ }),
                decreases compressed_len - k,
            {
                proof {
                    assert(compressed@[k as int] == compressed_block_spec(b)[k as int]);
                }
                self.buffer.push(compressed[k]);
                k = k + 1;
                proof {
                    assert(self.buffer@ =~= before + compressed_block_spec(b).take(k as int));
                }
            }
            proof {
                assert(compressed_block_spec(b).take(k as int) =~= compressed_block_spec(b));
            }
            TP_BLOCK_FLAG_DELTA
        } else {
            let ghost before = self.buffer@;
            let mut k: usize = 0;
            while k < block.len()
                invariant
                    b == block@,
                    k <= b.len(),
                    self@ == (SegmentBuilderView { buffer: before + raw_block_bytes(b.take(k as int)), ..old(self)@ }),
                decreases b.len() - k,
            {
                let posting = block[k];
                push_u32(&mut self.buffer, posting.doc_id);
                push_u16(&mut self.buffer, posting.frequency);
                self.buffer.push(posting.fieldnorm);
                self.buffer.push(posting.reserved);
                proof {
                    assert(b.take(k + 1).drop_last() =~= b.take(k as int));
                    assert(self.buffer@ =~= before + raw_block_bytes(b.take(k + 1)));
                }
                k = k + 1;
            }
            proof {
                assert(b.take(k as int) =~= b);
            }
            TP_BLOCK_FLAG_UNCOMPRESSED
        };

        // Create skip entry
        self.skip_entries.push(TpSkipEntry {
            last_doc_id,
            doc_count: count,
            block_max_tf: max_tf,
            block_max_norm: max_norm,
            posting_offset,
            flags,
            reserved: [0; 3],
        });
        proof {
            let want = skip_for_block(b, old(self)@.buffer.len(), old(self)@.compress);
            assert(self.skip_entries@.last().reserved =~= want.reserved);
            vstd::array::axiom_array_ext_equal(self.skip_entries@.last().reserved, want.reserved);
            assert(self.skip_entries@ =~= old(self)@.skip_entries.push(want));
        }
    }

    /// Write posting blocks for a term.
    ///
    /// Postings must be sorted by doc_id. Groups into blocks of
    /// TP_BLOCK_SIZE, compresses if enabled, and accumulates skip
    /// entries. Returns the term's dictionary entry, pointing at its first skip entry.
    pub fn write_term_postings(&mut self, postings: &[PostingEntry]) -> (entry: TpDictEntry)
        requires
            postings_sorted(postings@),
            num_blocks(postings@.len()) <= u16::MAX,
            (old(self)@.skip_entries.len() + num_blocks(postings@.len())) * TP_SKIP_ENTRY_SIZE <= usize::MAX,
        ensures
            final(self)@ == term_written(old(self)@, postings@),
            entry == term_entry(old(self)@, postings@),
    {
        let ghost p = postings@;
        let ghost o = self@;
        if self.postings_offset == 0 {
            self.postings_offset = self.buffer.len() as u32;
        }
        let ghost o2 = self@;

        let mut block_count: u16 = 0;
        let skip_start = self.skip_entries.len();
        let mut block: Vec<TpBlockPosting> = Vec::with_capacity(TP_BLOCK_SIZE as usize);
        let mut i: usize = 0;
        while i < postings.len()
            invariant
                p == postings@,
                postings_sorted(p),
                num_blocks(p.len()) <= u16::MAX,
                i <= p.len(),
                block_count as nat == i / 128,
                block@ == term_block(p, block_count as nat).take((i - 128 * block_count) as int),
                i - 128 * block_count < 128,
                skip_start == o.skip_entries.len(),
                o2.compress == o.compress,
                o2.buffer == o.buffer,
                o2.skip_entries == o.skip_entries,
                self@ == (SegmentBuilderView {
                    buffer: o.buffer + blocks_bytes(p, o.compress, block_count as nat),
                    skip_entries: o.skip_entries + blocks_skips(o.buffer.len(), p, o.compress, block_count as nat),
                    ..o2
                }),
            decreases p.len() - i,
        {
            let posting = postings[i];
            block.push(TpBlockPosting {
                doc_id: posting.doc_id,
                frequency: posting.frequency,
                fieldnorm: posting.fieldnorm,
                reserved: 0,
            });
            proof {
                let k = block_count as nat;
                assert(block@ =~= term_block(p, k).take((i + 1 - 128 * k) as int));
            }
            if block.len() == TP_BLOCK_SIZE as usize {
                proof {
                    let k = block_count as nat;
                    assert(term_block(p, k).len() == 128);
                    assert(block@ =~= term_block(p, k));
                    assert(sorted_by_doc_id(block@));
                    assert((i + 1) / 128 == k + 1);
                }
                self.flush_block(block.as_slice());
                proof {
                    let k = block_count as nat;
                    assert(self.buffer@ =~= o.buffer + blocks_bytes(p, o.compress, k + 1));
                    assert(self.skip_entries@ =~= o.skip_entries + blocks_skips(o.buffer.len(), p, o.compress, k + 1));
                }
                block.clear();
                block_count = block_count + 1;
                proof {
                    assert(block@ =~= term_block(p, block_count as nat).take(0));
                }
            }
            i = i + 1;
        }

        // Flush remaining partial block
        if block.len() > 0 {
            proof {
                let k = block_count as nat;
                assert(block@ =~= term_block(p, k));
                assert(sorted_by_doc_id(block@));
            }
            let ghost before = self@;
            self.flush_block(block.as_slice());
            proof {
                let k = block_count as nat;
                assert(before.buffer == o.buffer + blocks_bytes(p, o.compress, k));
                assert(before.compress == o.compress);
                assert(self.buffer@ == before.buffer + block_data_bytes(term_block(p, k), o.compress));
                assert(blocks_bytes(p, o.compress, k + 1) == blocks_bytes(p, o.compress, k) + block_data_bytes(term_block(p, k), o.compress));
                assert(self.buffer@ =~= o.buffer + blocks_bytes(p, o.compress, k + 1));
                assert(self.skip_entries@ =~= o.skip_entries + blocks_skips(o.buffer.len(), p, o.compress, k + 1));
                assert(num_blocks(p.len()) == k + 1);
            }
            block_count = block_count + 1;
        } else {
            proof {
                assert(num_blocks(p.len()) == block_count as nat);
            }
        }

        let entry = TpDictEntry {
            skip_index_offset: 0,
            block_count,
            reserved: 0,
            doc_freq: postings.len() as u32,
        };
        self.dict_entries.push(entry);

        let mut result = entry;
        result.skip_index_offset = (skip_start * TP_SKIP_ENTRY_SIZE) as u32;
        result
    }

    /// Write `bytes` over the buffer from position `at`.
    fn overwrite(&mut self, at: usize, bytes: &Vec<u8>)
        requires
            at + bytes@.len() <= old(self)@.buffer.len(),
        ensures
            final(self)@ == (SegmentBuilderView { buffer: splice(old(self)@.buffer, at as int, bytes@), ..old(self)@ }),
    {
        let mut k: usize = 0;
        proof {
            assert(splice(old(self)@.buffer, at as int, bytes@.take(0)) =~= old(self)@.buffer);
            assert(self.buffer@.len() == self.buffer.len());
        }
        while k < bytes.len()
            invariant
                k <= bytes@.len(),
                at + bytes@.len() <= old(self)@.buffer.len(),
                old(self)@.buffer.len() <= usize::MAX,
                self@ == (SegmentBuilderView {
                    buffer: splice(old(self)@.buffer, at as int, bytes@.take(k as int)),
                    ..old(self)@
                }),
            decreases bytes@.len() - k,
        {
            self.buffer.set(at + k, bytes[k]);
            k = k + 1;
            proof {
                assert(self.buffer@ =~= splice(old(self)@.buffer, at as int, bytes@.take(k as int)));
            }
        }
        proof {
            assert(bytes@.take(k as int) =~= bytes@);
        }
    }

    /// Finalize the segment: fill in the dictionary entries (each pointing at its first
    /// skip entry) and the header, and return the segment's bytes.
    pub fn finish(
        &mut self,
        level: u32,
        next_segment: u32,
        skip_index_offset: u32,
        fieldnorm_offset: u32,
        ctid_pages_offset: u32,
        ctid_offsets_offset: u32,
    ) -> (data: &[u8])
        requires
            finish_ok(old(self)@),
        ensures
            final(self)@ == (SegmentBuilderView {
                buffer: finished_buffer(old(self)@, level, next_segment, skip_index_offset,
                    fieldnorm_offset, ctid_pages_offset, ctid_offsets_offset),
                ..old(self)@
            }),
            data@ == final(self)@.buffer,
    {
        let ghost des = self.dict_entries@;
        let ghost fin = finished_dict_entries(des);
        // Update dictionary entries in the buffer
        let entries_off = self.entries_offset as usize;
        let mut entry_bytes: Vec<u8> = Vec::new();
        let mut skip_offset: u32 = 0;
        let mut i: usize = 0;
        while i < self.dict_entries.len()
            invariant
                des == self.dict_entries@,
                fin == finished_dict_entries(des),
                self@ == old(self)@,
                finish_ok(old(self)@),
                i <= des.len(),
                skip_offset == skip_prefix(des, i as nat),
                entry_bytes@ == dict_entries_bytes(fin.take(i as int)),
            decreases des.len() - i,
        {
            proof {
                lemma_skip_prefix_monotonic(des, (i + 1) as nat, des.len());
            }
            let entry = self.dict_entries[i];
            push_u32(&mut entry_bytes, skip_offset);
            push_u16(&mut entry_bytes, entry.block_count);
            push_u16(&mut entry_bytes, entry.reserved);
            push_u32(&mut entry_bytes, entry.doc_freq);
            skip_offset = skip_offset + entry.block_count as u32 * TP_SKIP_ENTRY_SIZE as u32;
            proof {
                assert(fin.take(i + 1).drop_last() =~= fin.take(i as int));
                assert(entry_bytes@ =~= dict_entries_bytes(fin.take(i + 1)));
            }
            i = i + 1;
        }
        proof {
            assert(fin.take(i as int) =~= fin);
            crate::segment::writer::lemma_dict_entries_bytes_len(fin);
        }
        self.overwrite(entries_off, &entry_bytes);

        // Write header at position 0
        let ghost h = finished_header(old(self)@, level, next_segment, skip_index_offset,
            fieldnorm_offset, ctid_pages_offset, ctid_offsets_offset);
        let data_size = self.buffer.len() as u32;
        let words: [u32; 26] = [
            TP_SEGMENT_MAGIC, TP_SEGMENT_FORMAT_VERSION, 0, 0,
            0, data_size, level, next_segment,
            self.dictionary_offset, self.strings_offset, self.entries_offset, self.postings_offset,
            skip_index_offset, fieldnorm_offset, ctid_pages_offset, ctid_offsets_offset,
            self.num_terms, self.num_docs,
            (self.total_tokens % 0x1_0000_0000) as u32, (self.total_tokens / 0x1_0000_0000) as u32,
            0, 0, 0, 0, 0,
            0,
        ];
        proof {
            assert(words@ =~= header_words(h));
        }
        let mut header: Vec<u8> = Vec::new();
        let mut w: usize = 0;
        while w < 26
            invariant
                w <= 26,
                header@ == words_le_bytes(words@.take(w as int)),
            decreases 26 - w,
        {
            push_u32(&mut header, words[w]);
            proof {
                assert(words@.take(w + 1) =~= words@.take(w as int).push(words@[w as int]));
                lemma_words_push(words@.take(w as int), words@[w as int]);
            }
            w = w + 1;
        }
        proof {
            assert(words@.take(26) =~= words@);
        }
        self.overwrite(0, &header);
        self.buffer.as_slice()
    }

    /// Get the current buffer contents.
    pub fn data(&self) -> (d: &[u8])
        ensures
            d@ == self@.buffer,
    {
        self.buffer.as_slice()
    }

    /// Set corpus statistics.
    pub fn set_stats(&mut self, num_docs: u32, total_tokens: u64)
        ensures
            final(self)@ == (SegmentBuilderView { num_docs, total_tokens, ..old(self)@ }),
    {
        self.num_docs = num_docs;
        self.total_tokens = total_tokens;
    }
}

} // verus!
