//! Error type shared by every encoding and decoding operation.

use crate::render::{decimal, hex_padded, push_decimal, push_hex, push_text};
use vstd::prelude::*;

verus! {

/// All errors that can occur during Surp operations.
#[derive(Debug, Clone, PartialEq, Eq)]
pub enum SurpError {
    InvalidMagic,
    UnsupportedVersion(u8),
    InvalidWireType(u8),
    VarintOverflow,
    UnexpectedEof(usize),
    ChecksumMismatch { expected: u64, actual: u64 },
    InvalidUtf8(usize),
    NestingTooDeep(usize, usize),
    BlockTooLarge(usize, usize),
    TooManyItems(usize, usize),
    UnknownCompression(u8),
    DecompressionError(String),
    InvalidBlockType(u8),
    ParseError { line: usize, col: usize, message: String },
    SchemaMismatch(String),
    MemoryLimitExceeded(usize, usize),
    InvalidBase64(String),
    InvalidData(String),
    LengthOverflow(u64),
    InvalidReference(usize, usize),
    DecompressionRatioExceeded { max_ratio: usize, compressed: usize, uncompressed: usize },
    StringTooLong(usize, usize),
}


/// An error as a mathematical value: the same variants as `SurpError`,
/// with each message held as a sequence of characters.
pub enum ErrorModel {
    InvalidMagic,
    UnsupportedVersion(u8),
    InvalidWireType(u8),
    VarintOverflow,
    UnexpectedEof(usize),
    ChecksumMismatch { expected: u64, actual: u64 },
    InvalidUtf8(usize),
    NestingTooDeep(usize, usize),
    BlockTooLarge(usize, usize),
    TooManyItems(usize, usize),
    UnknownCompression(u8),
    DecompressionError(Seq<char>),
    InvalidBlockType(u8),
    ParseError { line: usize, col: usize, message: Seq<char> },
    SchemaMismatch(Seq<char>),
    MemoryLimitExceeded(usize, usize),
    InvalidBase64(Seq<char>),
    InvalidData(Seq<char>),
    LengthOverflow(u64),
    InvalidReference(usize, usize),
    DecompressionRatioExceeded { max_ratio: usize, compressed: usize, uncompressed: usize },
    StringTooLong(usize, usize),
}

impl View for SurpError {
    type V = ErrorModel;

    open spec fn view(&self) -> ErrorModel {
        match *self {
            SurpError::InvalidMagic => ErrorModel::InvalidMagic,
            SurpError::UnsupportedVersion(v) => ErrorModel::UnsupportedVersion(v),
            SurpError::InvalidWireType(t) => ErrorModel::InvalidWireType(t),
            SurpError::VarintOverflow => ErrorModel::VarintOverflow,
            SurpError::UnexpectedEof(o) => ErrorModel::UnexpectedEof(o),
            SurpError::ChecksumMismatch { expected, actual } => ErrorModel::ChecksumMismatch { expected, actual },
            SurpError::InvalidUtf8(o) => ErrorModel::InvalidUtf8(o),
            SurpError::NestingTooDeep(a, b) => ErrorModel::NestingTooDeep(a, b),
            SurpError::BlockTooLarge(a, b) => ErrorModel::BlockTooLarge(a, b),
            SurpError::TooManyItems(a, b) => ErrorModel::TooManyItems(a, b),
            SurpError::UnknownCompression(c) => ErrorModel::UnknownCompression(c),
            SurpError::DecompressionError(m) => ErrorModel::DecompressionError(m@),
            SurpError::InvalidBlockType(b) => ErrorModel::InvalidBlockType(b),
            SurpError::ParseError { line, col, message } => ErrorModel::ParseError { line, col, message: message@ },
            SurpError::SchemaMismatch(m) => ErrorModel::SchemaMismatch(m@),
            SurpError::MemoryLimitExceeded(a, b) => ErrorModel::MemoryLimitExceeded(a, b),
            SurpError::InvalidBase64(m) => ErrorModel::InvalidBase64(m@),
            SurpError::InvalidData(m) => ErrorModel::InvalidData(m@),
            SurpError::LengthOverflow(n) => ErrorModel::LengthOverflow(n),
            SurpError::InvalidReference(i, n) => ErrorModel::InvalidReference(i, n),
            SurpError::DecompressionRatioExceeded { max_ratio, compressed, uncompressed } => {
                ErrorModel::DecompressionRatioExceeded { max_ratio, compressed, uncompressed }
            },
            SurpError::StringTooLong(a, b) => ErrorModel::StringTooLong(a, b),
        }
    }
}

/// The human-readable message of each error.
pub open spec fn spec_message(e: SurpError) -> Seq<char> {
    match e {
        SurpError::InvalidMagic => "Invalid magic bytes in file header: expected SURPv1"@,
        SurpError::UnsupportedVersion(v) => "Unsupported format version: "@ + decimal(v as nat),
        SurpError::InvalidWireType(t) => "Invalid wire type tag: 0x"@ + hex_padded(t as nat, 2),
        SurpError::VarintOverflow => "Varint overflow: encoded integer exceeds 64 bits"@,
        SurpError::UnexpectedEof(o) => "Unexpected end of input at offset "@ + decimal(o as nat),
        SurpError::ChecksumMismatch { expected, actual } => "Checksum mismatch: expected 0x"@ + hex_padded(expected as nat, 16) + ", got 0x"@ + hex_padded(actual as nat, 16),
        SurpError::InvalidUtf8(o) => "Invalid UTF-8 in string field at offset "@ + decimal(o as nat),
        SurpError::NestingTooDeep(a, b) => "Nesting depth "@ + decimal(a as nat) + " exceeds maximum "@ + decimal(b as nat),
        SurpError::BlockTooLarge(a, b) => "Block size "@ + decimal(a as nat) + " exceeds maximum "@ + decimal(b as nat),
        SurpError::TooManyItems(a, b) => "Item count "@ + decimal(a as nat) + " exceeds maximum "@ + decimal(b as nat),
        SurpError::UnknownCompression(c) => "Unknown compression type: "@ + decimal(c as nat),
        SurpError::DecompressionError(m) => "Decompression error: "@ + m@,
        SurpError::InvalidBlockType(b) => "Invalid block type: "@ + decimal(b as nat),
        SurpError::ParseError { line, col, message } => "Text parse error at line "@ + decimal(line as nat) + ", col "@ + decimal(col as nat) + ": "@ + message@,
        SurpError::SchemaMismatch(m) => "Schema mismatch: "@ + m@,
        SurpError::MemoryLimitExceeded(a, b) => "Memory limit exceeded: requested "@ + decimal(a as nat) + " bytes, limit "@ + decimal(b as nat),
        SurpError::InvalidBase64(m) => "Invalid base64 data: "@ + m@,
        SurpError::InvalidData(m) => "Invalid data: "@ + m@,
        SurpError::LengthOverflow(n) => "Length overflow: "@ + decimal(n as nat) + " exceeds platform maximum"@,
        SurpError::InvalidReference(i, n) => "Invalid reference: index "@ + decimal(i as nat) + " out of bounds (dictionary has "@ + decimal(n as nat) + " entries)"@,
        SurpError::DecompressionRatioExceeded { max_ratio, compressed, uncompressed } => "Decompression ratio exceeds maximum "@ + decimal(max_ratio as nat) + ":1 (compressed: "@ + decimal(compressed as nat) + ", uncompressed: "@ + decimal(uncompressed as nat) + ")"@,
        SurpError::StringTooLong(a, b) => "String length "@ + decimal(a as nat) + " exceeds maximum "@ + decimal(b as nat),
    }
}

impl SurpError {
    /// The human-readable message of this error.
    pub fn message(&self) -> (r: String)
        ensures
            r@ == spec_message(*self),
    {
        let mut s = String::new();
        match self {
            SurpError::InvalidMagic => {
                push_text(&mut s, "Invalid magic bytes in file header: expected SURPv1");
            },
            SurpError::UnsupportedVersion(v) => {
                push_text(&mut s, "Unsupported format version: ");
                push_decimal(&mut s, *v as u64);
            },
            SurpError::InvalidWireType(t) => {
                push_text(&mut s, "Invalid wire type tag: 0x");
                push_hex(&mut s, *t as u64, 2);
            },
            SurpError::VarintOverflow => {
                push_text(&mut s, "Varint overflow: encoded integer exceeds 64 bits");
            },
            SurpError::UnexpectedEof(o) => {
                push_text(&mut s, "Unexpected end of input at offset ");
                push_decimal(&mut s, *o as u64);
            },
            SurpError::ChecksumMismatch { expected, actual } => {
                push_text(&mut s, "Checksum mismatch: expected 0x");
                push_hex(&mut s, *expected, 16);
                push_text(&mut s, ", got 0x");
                push_hex(&mut s, *actual, 16);
            },
            SurpError::InvalidUtf8(o) => {
                push_text(&mut s, "Invalid UTF-8 in string field at offset ");
                push_decimal(&mut s, *o as u64);
            },
            SurpError::NestingTooDeep(a, b) => {
                push_text(&mut s, "Nesting depth ");
                push_decimal(&mut s, *a as u64);
                push_text(&mut s, " exceeds maximum ");
                push_decimal(&mut s, *b as u64);
            },
            SurpError::BlockTooLarge(a, b) => {
                push_text(&mut s, "Block size ");
                push_decimal(&mut s, *a as u64);
                push_text(&mut s, " exceeds maximum ");
                push_decimal(&mut s, *b as u64);
            },
            SurpError::TooManyItems(a, b) => {
                push_text(&mut s, "Item count ");
                push_decimal(&mut s, *a as u64);
                push_text(&mut s, " exceeds maximum ");
                push_decimal(&mut s, *b as u64);
            },
            SurpError::UnknownCompression(c) => {
                push_text(&mut s, "Unknown compression type: ");
                push_decimal(&mut s, *c as u64);
            },
            SurpError::DecompressionError(m) => {
                push_text(&mut s, "Decompression error: ");
                push_text(&mut s, m.as_str());
            },
            SurpError::InvalidBlockType(b) => {
                push_text(&mut s, "Invalid block type: ");
                push_decimal(&mut s, *b as u64);
            },
            SurpError::ParseError { line, col, message } => {
                push_text(&mut s, "Text parse error at line ");
                push_decimal(&mut s, *line as u64);
                push_text(&mut s, ", col ");
                push_decimal(&mut s, *col as u64);
                push_text(&mut s, ": ");
                push_text(&mut s, message.as_str());
            },
            SurpError::SchemaMismatch(m) => {
                push_text(&mut s, "Schema mismatch: ");
                push_text(&mut s, m.as_str());
            },
            SurpError::MemoryLimitExceeded(a, b) => {
                push_text(&mut s, "Memory limit exceeded: requested ");
                push_decimal(&mut s, *a as u64);
                push_text(&mut s, " bytes, limit ");
                push_decimal(&mut s, *b as u64);
            },
            SurpError::InvalidBase64(m) => {
                push_text(&mut s, "Invalid base64 data: ");
                push_text(&mut s, m.as_str());
            },
            SurpError::InvalidData(m) => {
                push_text(&mut s, "Invalid data: ");
                push_text(&mut s, m.as_str());
            },
            SurpError::LengthOverflow(n) => {
                push_text(&mut s, "Length overflow: ");
                push_decimal(&mut s, *n as u64);
                push_text(&mut s, " exceeds platform maximum");
            },
            SurpError::InvalidReference(i, n) => {
                push_text(&mut s, "Invalid reference: index ");
                push_decimal(&mut s, *i as u64);
                push_text(&mut s, " out of bounds (dictionary has ");
                push_decimal(&mut s, *n as u64);
                push_text(&mut s, " entries)");
            },
            SurpError::DecompressionRatioExceeded { max_ratio, compressed, uncompressed } => {
                push_text(&mut s, "Decompression ratio exceeds maximum ");
                push_decimal(&mut s, *max_ratio as u64);
                push_text(&mut s, ":1 (compressed: ");
                push_decimal(&mut s, *compressed as u64);
                push_text(&mut s, ", uncompressed: ");
                push_decimal(&mut s, *uncompressed as u64);
                push_text(&mut s, ")");
            },
            SurpError::StringTooLong(a, b) => {
                push_text(&mut s, "String length ");
                push_decimal(&mut s, *a as u64);
                push_text(&mut s, " exceeds maximum ");
                push_decimal(&mut s, *b as u64);
            },
        }
        s
    }
}

} // verus!
