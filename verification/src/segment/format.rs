use vstd::prelude::*;
use crate::bytes::{u16_le_bytes, u32_le_bytes, u64_le_bytes, u16_at, u32_at, u64_at, lemma_u16_roundtrip, lemma_u32_roundtrip};
use crate::types::TpBlockPosting;

verus! {

/// Segment magic number: "TPSG" in ASCII.
pub const TP_SEGMENT_MAGIC: u32 = 0x5450_5347;

/// Segment format V3: block compression.
pub const TP_SEGMENT_FORMAT_V3: u32 = 3;

/// Segment format V4: multi-tenant support.
pub const TP_SEGMENT_FORMAT_V4: u32 = 4;

/// Current segment format version.
pub const TP_SEGMENT_FORMAT_VERSION: u32 = TP_SEGMENT_FORMAT_V4;

/// Documents per block.
pub const TP_BLOCK_SIZE: u32 = 128;

/// Block compression flags.
pub const TP_BLOCK_FLAG_UNCOMPRESSED: u8 = 0x00;
pub const TP_BLOCK_FLAG_DELTA: u8 = 0x01;

/// Tenant mode values stored in skip entry reserved[0].
pub const TP_TENANT_MODE_NONE: u8 = 0;
pub const TP_TENANT_MODE_SINGLE: u8 = 1;
pub const TP_TENANT_MODE_MIXED: u8 = 2;

/// V4 header flags.
pub const TP_FLAG_HAS_TENANT_DATA: u32 = 0x01;

/// On-disk sizes of the segment structures (C layout).
pub const TP_SEGMENT_HEADER_SIZE: usize = 104;
pub const TP_DICT_ENTRY_SIZE: usize = 12;
pub const TP_SKIP_ENTRY_SIZE: usize = 16;
pub const TP_TENANT_STATS_SIZE: usize = 16;
pub const TP_TENANT_DOCFREQ_SIZE: usize = 8;
pub const TP_BLOCK_POSTING_SIZE: usize = 8;

/// Segment header, stored at the start of the segment's first page.
/// V3 fields first, then the V4 extensions.
#[derive(Clone, Debug)]
pub struct TpSegmentHeader {
    pub magic: u32,
    pub version: u32,
    pub created_at: i64,
    pub num_pages: u32,
    pub data_size: u32,
    pub level: u32,
    pub next_segment: u32,

    // Section offsets in logical file
    pub dictionary_offset: u32,
    pub strings_offset: u32,
    pub entries_offset: u32,
    pub postings_offset: u32,
    pub skip_index_offset: u32,
    pub fieldnorm_offset: u32,
    pub ctid_pages_offset: u32,
    pub ctid_offsets_offset: u32,

    // Corpus statistics
    pub num_terms: u32,
    pub num_docs: u32,
    pub total_tokens: u64,

    // Page index reference
    pub page_index: u32,

    /// Offset to tenant_id table: uint32[num_docs].
    pub tenant_map_offset: u32,
    /// Offset to per-tenant stats: TpTenantStats[].
    pub tenant_stats_offset: u32,
    /// Offset to per-term per-tenant doc_freq table.
    pub tenant_docfreq_offset: u32,
    /// Flags: bit 0 = has_tenant_data.
    pub flags: u32,
}

impl TpSegmentHeader {
    /// True if this segment contains tenant data.
    pub fn has_tenant_data(&self) -> (r: bool)
        ensures
            r == (self.flags % 2 == 1),
    {
        proof {
            let f = self.flags;
            assert(f & 1 == f % 2) by (bit_vector);
        }
        self.flags & TP_FLAG_HAS_TENANT_DATA != 0
    }

    /// True if this is a V4 (or later) segment.
    pub fn is_v4(&self) -> (r: bool)
        ensures
            r == (self.version >= TP_SEGMENT_FORMAT_V4),
    {
        self.version >= TP_SEGMENT_FORMAT_V4
    }
}

/// Dictionary entry: 12 bytes per term. Points to the term's skip entries and
/// stores its document frequency.
#[derive(Clone, Copy, Debug, Default, PartialEq, Eq, Structural)]
pub struct TpDictEntry {
    pub skip_index_offset: u32,
    pub block_count: u16,
    pub reserved: u16,
    pub doc_freq: u32,
}

/// Skip index entry: 16 bytes per block, the block's metadata for BMW.
///
/// In V4 the reserved bytes encode tenant info:
///   reserved[0] = tenant_mode (0=none, 1=single, 2=mixed)
///   reserved[1..2] = tenant_id_low16 (lower 16 bits of tenant_id, little-endian)
#[derive(Clone, Copy, Debug, Default)]
pub struct TpSkipEntry {
    pub last_doc_id: u32,
    pub doc_count: u8,
    pub block_max_tf: u16,
    pub block_max_norm: u8,
    pub posting_offset: u32,
    pub flags: u8,
    pub reserved: [u8; 3],
}

impl TpSkipEntry {
    pub open spec fn spec_tenant_mode(&self) -> u8 {
        self.reserved[0]
    }

    pub open spec fn spec_tenant_id_low16(&self) -> u16 {
        (self.reserved[1] + 256 * self.reserved[2]) as u16
    }

    /// The entry with its tenant info set as `set_tenant_info` sets it.
    pub open spec fn with_tenant_info(self, mode: u8, tenant_id: u32) -> TpSkipEntry {
        TpSkipEntry {
            reserved: [mode, (tenant_id % 256) as u8, ((tenant_id / 256) % 256) as u8],
            ..self
        }
    }

    /// A block can be skipped for a tenant when it holds a single tenant whose
    /// low 16 bits differ from the target's.
    pub open spec fn spec_can_skip_for_tenant(&self, target_tenant_id: u32) -> bool {
        self.spec_tenant_mode() == TP_TENANT_MODE_SINGLE && target_tenant_id % 0x10000 != self.spec_tenant_id_low16()
    }

    /// Get tenant mode from reserved bytes.
    pub fn tenant_mode(&self) -> (m: u8)
        ensures
            m == self.spec_tenant_mode(),
    {
        self.reserved[0]
    }

    /// Get lower 16 bits of tenant_id from reserved bytes.
    pub fn tenant_id_low16(&self) -> (t: u16)
        ensures
            t == self.spec_tenant_id_low16(),
    {
        self.reserved[1] as u16 + 256 * (self.reserved[2] as u16)
    }

    /// Set tenant info in reserved bytes.
    pub fn set_tenant_info(&mut self, mode: u8, tenant_id: u32)
        ensures
            *final(self) == old(self).with_tenant_info(mode, tenant_id),
    {
        // Low 16 bits of the tenant id, little-endian.
        let low = (tenant_id % 256) as u8;
        let high = ((tenant_id / 256) % 256) as u8;
        self.reserved = [mode, low, high];
    }

    /// Check if this block can be skipped for a tenant filter.
    /// Returns true if the block definitely has no docs for target.
    pub fn can_skip_for_tenant(&self, target_tenant_id: u32) -> (r: bool)
        ensures
            r == self.spec_can_skip_for_tenant(target_tenant_id),
    {
        let mode = self.tenant_mode();
        if mode == TP_TENANT_MODE_SINGLE {
            let low16 = self.tenant_id_low16();
            (target_tenant_id % 0x10000) as u16 != low16
        } else {
            false
        }
    }
}

/// After `set_tenant_info`, the tenant mode and low 16 bits of the tenant read back.
pub proof fn lemma_tenant_info_roundtrip(e: TpSkipEntry, mode: u8, tenant_id: u32)
    ensures
        e.with_tenant_info(mode, tenant_id).spec_tenant_mode() == mode,
        e.with_tenant_info(mode, tenant_id).spec_tenant_id_low16() == tenant_id % 0x10000,
{
    let r = e.with_tenant_info(mode, tenant_id).reserved;
    assert(r[1] == (tenant_id % 256) as u8);
    assert(r[2] == ((tenant_id / 256) % 256) as u8);
    assert((tenant_id % 256) + 256 * ((tenant_id / 256) % 256) == tenant_id % 0x10000) by (nonlinear_arith);
}

/// A block marked for a single tenant is never skipped for that tenant, and is skipped
/// for every tenant whose low 16 bits differ; a block with no or mixed tenants is never
/// skipped.
pub proof fn lemma_tenant_skip(e: TpSkipEntry, mode: u8, tenant_id: u32, target: u32)
    ensures
        mode == TP_TENANT_MODE_SINGLE ==> (e.with_tenant_info(mode, tenant_id).spec_can_skip_for_tenant(target)
            <==> target % 0x10000 != tenant_id % 0x10000),
        mode != TP_TENANT_MODE_SINGLE ==> !e.with_tenant_info(mode, tenant_id).spec_can_skip_for_tenant(target),
{
    lemma_tenant_info_roundtrip(e, mode, tenant_id);
}

/// Per-tenant corpus statistics, stored in the tenant_stats section of V4 segments.
#[derive(Clone, Copy, Debug, Default, PartialEq, Eq, Structural)]
pub struct TpTenantStats {
    pub tenant_id: u32,
    pub num_docs: u32,
    pub total_tokens: u64,
}

/// Per-term per-tenant document frequency, stored in the tenant_docfreq section of V4 segments.
#[derive(Clone, Copy, Debug, Default, PartialEq, Eq, Structural)]
pub struct TpTenantDocFreq {
    pub tenant_id: u32,
    pub doc_freq: u32,
}

/// Information about a term during segment building.
#[derive(Clone, Debug)]
pub struct TermInfo {
    pub term: String,
    pub postings: Vec<PostingEntry>,
    pub doc_freq: u32,
}

/// A posting entry before block grouping.
#[derive(Clone, Copy, Debug, PartialEq, Eq, Structural)]
pub struct PostingEntry {
    pub doc_id: u32,
    pub frequency: u16,
    pub fieldnorm: u8,
    /// Tenant ID (0 if no tenancy). V4 only.
    pub tenant_id: u32,
}

// --- On-disk byte layout (C layout, little-endian) ---

pub open spec fn dict_entry_bytes(e: TpDictEntry) -> Seq<u8> {
    u32_le_bytes(e.skip_index_offset) + u16_le_bytes(e.block_count) + u16_le_bytes(e.reserved) + u32_le_bytes(e.doc_freq)
}

pub open spec fn skip_entry_bytes(e: TpSkipEntry) -> Seq<u8> {
    u32_le_bytes(e.last_doc_id) + seq![e.doc_count] + u16_le_bytes(e.block_max_tf) + seq![e.block_max_norm]
        + u32_le_bytes(e.posting_offset) + seq![e.flags] + e.reserved@
}

pub open spec fn tenant_stats_bytes(s: TpTenantStats) -> Seq<u8> {
    u32_le_bytes(s.tenant_id) + u32_le_bytes(s.num_docs) + u64_le_bytes(s.total_tokens)
}

pub open spec fn tenant_docfreq_bytes(d: TpTenantDocFreq) -> Seq<u8> {
    u32_le_bytes(d.tenant_id) + u32_le_bytes(d.doc_freq)
}

pub open spec fn block_posting_bytes(p: TpBlockPosting) -> Seq<u8> {
    u32_le_bytes(p.doc_id) + u16_le_bytes(p.frequency) + seq![p.fieldnorm, p.reserved]
}

/// Little-endian bytes of a run of `u32` words.
pub open spec fn words_le_bytes(ws: Seq<u32>) -> Seq<u8> {
    Seq::new(4 * ws.len(), |i: int| u32_le_bytes(ws[i / 4])[i % 4])
}

/// The header as the 26 little-endian words of its C layout; 64-bit fields take two
/// words, low word first, and the last word is the struct's tail padding.
pub open spec fn header_words(h: TpSegmentHeader) -> Seq<u32> {
    seq![
        h.magic, h.version,
        ((h.created_at as u64) % 0x1_0000_0000) as u32, ((h.created_at as u64) / 0x1_0000_0000) as u32,
        h.num_pages, h.data_size, h.level, h.next_segment,
        h.dictionary_offset, h.strings_offset, h.entries_offset, h.postings_offset,
        h.skip_index_offset, h.fieldnorm_offset, h.ctid_pages_offset, h.ctid_offsets_offset,
        h.num_terms, h.num_docs,
        (h.total_tokens % 0x1_0000_0000) as u32, (h.total_tokens / 0x1_0000_0000) as u32,
        h.page_index, h.tenant_map_offset, h.tenant_stats_offset, h.tenant_docfreq_offset, h.flags,
        0u32,
    ]
}

pub open spec fn header_bytes(h: TpSegmentHeader) -> Seq<u8> {
    words_le_bytes(header_words(h))
}

/// The header that `data` holds at its start.
pub open spec fn parse_header(d: Seq<u8>) -> TpSegmentHeader {
    TpSegmentHeader {
        magic: u32_at(d, 0),
        version: u32_at(d, 4),
        created_at: u64_at(d, 8) as i64,
        num_pages: u32_at(d, 16),
        data_size: u32_at(d, 20),
        level: u32_at(d, 24),
        next_segment: u32_at(d, 28),
        dictionary_offset: u32_at(d, 32),
        strings_offset: u32_at(d, 36),
        entries_offset: u32_at(d, 40),
        postings_offset: u32_at(d, 44),
        skip_index_offset: u32_at(d, 48),
        fieldnorm_offset: u32_at(d, 52),
        ctid_pages_offset: u32_at(d, 56),
        ctid_offsets_offset: u32_at(d, 60),
        num_terms: u32_at(d, 64),
        num_docs: u32_at(d, 68),
        total_tokens: u64_at(d, 72),
        page_index: u32_at(d, 80),
        tenant_map_offset: u32_at(d, 84),
        tenant_stats_offset: u32_at(d, 88),
        tenant_docfreq_offset: u32_at(d, 92),
        flags: u32_at(d, 96),
    }
}

/// The dictionary entry whose bytes start at `data[at]`.
pub open spec fn parse_dict_entry(d: Seq<u8>, at: int) -> TpDictEntry {
    TpDictEntry {
        skip_index_offset: u32_at(d, at),
        block_count: u16_at(d, at + 4),
        reserved: u16_at(d, at + 6),
        doc_freq: u32_at(d, at + 8),
    }
}

/// The skip entry whose bytes start at `data[at]`.
pub open spec fn parse_skip_entry(d: Seq<u8>, at: int) -> TpSkipEntry {
    TpSkipEntry {
        last_doc_id: u32_at(d, at),
        doc_count: d[at + 4],
        block_max_tf: u16_at(d, at + 5),
        block_max_norm: d[at + 7],
        posting_offset: u32_at(d, at + 8),
        flags: d[at + 12],
        reserved: [d[at + 13], d[at + 14], d[at + 15]],
    }
}

/// The uncompressed block posting whose bytes start at `data[at]`.
pub open spec fn parse_block_posting(d: Seq<u8>, at: int) -> TpBlockPosting {
    TpBlockPosting {
        doc_id: u32_at(d, at),
        frequency: u16_at(d, at + 4),
        fieldnorm: d[at + 6],
        reserved: d[at + 7],
    }
}

/// Word `k` of a run of words is read back from its bytes.
pub proof fn lemma_words_read(ws: Seq<u32>, rest: Seq<u8>, k: int)
    requires
        0 <= k < ws.len(),
    ensures
        u32_at(words_le_bytes(ws) + rest, 4 * k) == ws[k],
{
    let s = words_le_bytes(ws) + rest;
    let b = u32_le_bytes(ws[k]);
    assert(s[4 * k] == b[0]);
    assert(s[4 * k + 1] == b[1]);
    assert(s[4 * k + 2] == b[2]);
    assert(s[4 * k + 3] == b[3]);
    lemma_u32_roundtrip(ws[k], Seq::empty(), Seq::empty());
    assert(Seq::<u8>::empty() + b + Seq::<u8>::empty() =~= b);
}

/// Appending one word appends its four bytes.
pub proof fn lemma_words_push(ws: Seq<u32>, w: u32)
    ensures
        words_le_bytes(ws.push(w)) == words_le_bytes(ws) + u32_le_bytes(w),
{
    assert(words_le_bytes(ws.push(w)) =~= words_le_bytes(ws) + u32_le_bytes(w));
}

/// A header is read back from its bytes, whatever follows them.
pub proof fn lemma_header_roundtrip(h: TpSegmentHeader, rest: Seq<u8>)
    ensures
        header_bytes(h).len() == TP_SEGMENT_HEADER_SIZE,
        parse_header(header_bytes(h) + rest) == h,
{
    let ws = header_words(h);
    let d = header_bytes(h) + rest;
    assert forall|k: int| 0 <= k < 26 implies #[trigger] u32_at(d, 4 * k) == ws[k] by {
        lemma_words_read(ws, rest, k);
    }
    assert(u32_at(d, 4 * 0int) == ws[0]);
    assert(u32_at(d, 4 * 1int) == ws[1]);
    assert(u32_at(d, 4 * 2int) == ws[2]);
    assert(u32_at(d, 4 * 3int) == ws[3]);
    let c = h.created_at as u64;
    assert(u64_at(d, 8) == c) by {
        assert(u32_at(d, 4 * 2int) == ws[2]);
        assert(u32_at(d, 4 * 3int) == ws[3]);
        assert((c % 0x1_0000_0000) + 0x1_0000_0000 * (c / 0x1_0000_0000) == c) by (nonlinear_arith);
    }
    let ca = h.created_at;
    assert((c as i64) == ca) by (bit_vector)
        requires c == ca as u64;
    let t = h.total_tokens;
    assert(u64_at(d, 72) == t) by {
        assert(u32_at(d, 4 * 18int) == ws[18]);
        assert(u32_at(d, 4 * 19int) == ws[19]);
        assert((t % 0x1_0000_0000) + 0x1_0000_0000 * (t / 0x1_0000_0000) == t) by (nonlinear_arith);
    }
    assert(u32_at(d, 4 * 4int) == ws[4]);
    assert(u32_at(d, 4 * 5int) == ws[5]);
    assert(u32_at(d, 4 * 6int) == ws[6]);
    assert(u32_at(d, 4 * 7int) == ws[7]);
    assert(u32_at(d, 4 * 8int) == ws[8]);
    assert(u32_at(d, 4 * 9int) == ws[9]);
    assert(u32_at(d, 4 * 10int) == ws[10]);
    assert(u32_at(d, 4 * 11int) == ws[11]);
    assert(u32_at(d, 4 * 12int) == ws[12]);
    assert(u32_at(d, 4 * 13int) == ws[13]);
    assert(u32_at(d, 4 * 14int) == ws[14]);
    assert(u32_at(d, 4 * 15int) == ws[15]);
    assert(u32_at(d, 4 * 16int) == ws[16]);
    assert(u32_at(d, 4 * 17int) == ws[17]);
    assert(u32_at(d, 4 * 20int) == ws[20]);
    assert(u32_at(d, 4 * 21int) == ws[21]);
    assert(u32_at(d, 4 * 22int) == ws[22]);
    assert(u32_at(d, 4 * 23int) == ws[23]);
    assert(u32_at(d, 4 * 24int) == ws[24]);
}

/// A dictionary entry is read back from its bytes, wherever they stand.
pub proof fn lemma_dict_entry_roundtrip(e: TpDictEntry, pre: Seq<u8>, post: Seq<u8>)
    ensures
        dict_entry_bytes(e).len() == TP_DICT_ENTRY_SIZE,
        parse_dict_entry(pre + dict_entry_bytes(e) + post, pre.len() as int) == e,
{
    let a = u32_le_bytes(e.skip_index_offset);
    let b = u16_le_bytes(e.block_count);
    let c = u16_le_bytes(e.reserved);
    let f = u32_le_bytes(e.doc_freq);
    let s = pre + dict_entry_bytes(e) + post;
    assert(s =~= pre + a + (b + c + f + post));
    lemma_u32_roundtrip(e.skip_index_offset, pre, b + c + f + post);
    assert(s =~= (pre + a) + b + (c + f + post));
    lemma_u16_roundtrip(e.block_count, pre + a, c + f + post);
    assert(s =~= (pre + a + b) + c + (f + post));
    lemma_u16_roundtrip(e.reserved, pre + a + b, f + post);
    assert(s =~= (pre + a + b + c) + f + post);
    lemma_u32_roundtrip(e.doc_freq, pre + a + b + c, post);
}

/// A skip entry is read back from its bytes, wherever they stand.
pub proof fn lemma_skip_entry_roundtrip(e: TpSkipEntry, pre: Seq<u8>, post: Seq<u8>)
    ensures
        skip_entry_bytes(e).len() == TP_SKIP_ENTRY_SIZE,
        parse_skip_entry(pre + skip_entry_bytes(e) + post, pre.len() as int) == e,
{
    let a = u32_le_bytes(e.last_doc_id);
    let b = u16_le_bytes(e.block_max_tf);
    let c = u32_le_bytes(e.posting_offset);
    let s = pre + skip_entry_bytes(e) + post;
    let k = pre.len() as int;
    let r1 = seq![e.doc_count] + b + seq![e.block_max_norm] + c + seq![e.flags] + e.reserved@ + post;
    assert(s =~= pre + a + r1);
    lemma_u32_roundtrip(e.last_doc_id, pre, r1);
    let p2 = pre + a + seq![e.doc_count];
    let r2 = seq![e.block_max_norm] + c + seq![e.flags] + e.reserved@ + post;
    assert(s =~= p2 + b + r2);
    lemma_u16_roundtrip(e.block_max_tf, p2, r2);
    let p3 = p2 + b + seq![e.block_max_norm];
    let r3 = seq![e.flags] + e.reserved@ + post;
    assert(s =~= p3 + c + r3);
    lemma_u32_roundtrip(e.posting_offset, p3, r3);
    assert(s[k + 4] == e.doc_count);
    assert(s[k + 7] == e.block_max_norm);
    assert(s[k + 12] == e.flags);
    assert(s[k + 13] == e.reserved[0]);
    assert(s[k + 14] == e.reserved[1]);
    assert(s[k + 15] == e.reserved[2]);
    let r = parse_skip_entry(s, k).reserved;
    assert(r =~= e.reserved);
}

/// An uncompressed block posting is read back from its bytes, wherever they stand.
pub proof fn lemma_block_posting_roundtrip(p: TpBlockPosting, pre: Seq<u8>, post: Seq<u8>)
    ensures
        block_posting_bytes(p).len() == TP_BLOCK_POSTING_SIZE,
        parse_block_posting(pre + block_posting_bytes(p) + post, pre.len() as int) == p,
{
    let a = u32_le_bytes(p.doc_id);
    let b = u16_le_bytes(p.frequency);
    let s = pre + block_posting_bytes(p) + post;
    let k = pre.len() as int;
    assert(s =~= pre + a + (b + seq![p.fieldnorm, p.reserved] + post));
    lemma_u32_roundtrip(p.doc_id, pre, b + seq![p.fieldnorm, p.reserved] + post);
    assert(s =~= (pre + a) + b + (seq![p.fieldnorm, p.reserved] + post));
    lemma_u16_roundtrip(p.frequency, pre + a, seq![p.fieldnorm, p.reserved] + post);
    assert(s[k + 6] == p.fieldnorm);
    assert(s[k + 7] == p.reserved);
}

} // verus!
