//! Surp: a compact binary serialization format with block framing,
//! checksums and LEB128 varints.

pub mod error;
pub mod varint;
pub mod limits;
pub mod wire;
pub mod checksum;
pub mod render;
pub mod block;
pub mod value;
pub mod encoder;
pub mod decode_spec;
pub mod codec;
pub mod dict;
pub mod decoder;
pub mod stream_spec;
pub mod roundtrip;
pub mod compression;
pub mod cbf;
pub mod bench;
pub mod text;
pub mod ast;
pub mod segment;
pub mod document;
pub mod cbf_laws;
pub mod access;
pub mod cql;
pub mod ctn;
pub mod ctn_inline;
pub mod ctn_lex;
pub mod ctn_expr;
pub mod ctn_lines;
pub mod ctn_parse;
pub mod ctn_reader;
