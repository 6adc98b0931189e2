# pg_textsearch core, verified

The storage and query core of the pg_textsearch BM25 index, written in Verus:
every function under `src/` carries a contract that Verus proves.

- `compression` — delta + bit-packing of 128-posting blocks; decoding undoes encoding.
- `segment::format`, `segment::reader` — the on-disk records and how they are read.
- `segment::dictionary` — the sorted term dictionary and its binary search.
- `segment::writer` — the segment builder; what it writes reads back through the reader.
- `segment::merge`, `segment::docmap` — N-way segment merge and doc id remapping.
- `heap`, `topk`, `bmw` — bounded min-heaps that keep the top-k results, the
  per-term cursor state of block-max WAND, and the decisions of its scoring loop:
  which blocks are skipped and which postings are offered to the heap.
- `sorting`, `lex`, `bytes`, `arith` — the stable sort, byte order, little-endian
  words and arithmetic facts the rest is proved with.

`app/` holds the C entry points, the floating-point BM25 formulas and the loop that
loads blocks and scores postings between those decisions. Scores cross
into the library as `u32` keys that order as the scores do.
