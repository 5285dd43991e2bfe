# surp_core

A compact binary serialization format (Surp) with block framing, XXH64
checksums and LEB128 varints, and the segment-tree document format (CBF),
written in Verus with contracts on every public function.

Layout of `src/`:

- `varint`, `wire`, `checksum`, `limits`, `error`, `render`: building blocks.
- `value`, `encoder`, `decode_spec`, `decoder`, `stream_spec`, `dict`,
  `block`, `codec`, `compression`: the Surp stream, its encoder and decoder,
  string dictionaries and block compression (zstd, Snappy, LZ4).
- `roundtrip`: what the encoder writes, the decoder reads back.
- `text`: the text notation (parser and pretty printer).
- `ctn`: the indentation-oriented document notation: its value model
  (floats held as the text of their literals) and its formatter.
- `ctn_lex`, `ctn_inline`, `ctn_expr`, `ctn_lines`, `ctn_parse`,
  `ctn_reader`: its reader. The grammar is stated as spec functions (one-line
  expressions in `ctn_expr`, comments and indentation in `ctn_lines`, blocks
  and documents in `ctn_parse`), and `parse_document` and `parse_value` are
  proved to return exactly what it says.
- `ast`, `cbf`, `segment`, `document`, `cbf_laws`, `access`, `cql`: the CBF
  document model, its binary encoding and decoding, the laws that tie them
  together, accessors, and path queries.
- `bench`: deterministic data generation and timing statistics.

The tests under `tests/` exercise the library on concrete values.
