use vstd::prelude::*;

verus! {

/// Block posting entry: 8 bytes on disk. `doc_id` is segment-local; the
/// fieldnorm is stored inline so that scoring needs no per-posting lookup.
#[derive(Clone, Copy, Debug, Default, PartialEq, Eq, Structural)]
pub struct TpBlockPosting {
    pub doc_id: u32,
    pub frequency: u16,
    pub fieldnorm: u8,
    pub reserved: u8,
}

/// Compressed block header: 2 bytes, the bit widths of the two packed streams.
#[derive(Clone, Copy, Debug)]
pub struct TpCompressedBlockHeader {
    pub doc_id_bits: u8,
    pub freq_bits: u8,
}

/// Maximum documents per block.
pub const TP_BLOCK_SIZE: u32 = 128;

/// Maximum compressed block size: header (2) + doc id deltas at 32 bits (512)
/// + frequencies at 16 bits (256) + fieldnorms (128) = 898 bytes.
pub const TP_MAX_COMPRESSED_BLOCK_SIZE: usize = 898;

/// Size of the compressed block header in bytes.
pub const TP_COMPRESSED_HEADER_SIZE: usize = 2;

} // verus!
