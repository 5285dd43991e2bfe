//! Wire types for the Surp binary format.
//!
//! Each value in a Surp block is prefixed with a tag byte: the low four bits
//! give the wire type (how the payload is laid out), the high four bits
//! carry flags. A decoder that does not know a field's schema can still
//! tell from the wire type how many bytes to skip.

use vstd::prelude::*;

pub mod flags;

verus! {

/// Wire type identifiers (low 4 bits of a tag byte).
#[derive(Debug, Clone, Copy, PartialEq, Eq, Structural)]
pub enum WireType {
    /// Null value: no payload.
    Null,
    /// Boolean: 1-byte payload (0x00 = false, 0x01 = true).
    Bool,
    /// Unsigned integer: LEB128 varint payload.
    VarUInt,
    /// Signed integer: ZigZag + LEB128 varint payload.
    VarInt,
    /// 64-bit fixed-width: 8-byte little-endian payload.
    Fixed64,
    /// Length-delimited: sub-type byte, varint length, raw bytes.
    LenDelimited,
    /// Start of an object: entry count, then key/value entries.
    StartObject,
    /// End of an object: no payload.
    EndObject,
    /// Start of an array: item count, then items.
    StartArray,
    /// End of an array: no payload.
    EndArray,
    /// Reference to a string seen earlier in the block: varint index.
    Reference,
}

/// The tag code of each wire type.
pub open spec fn wire_code(w: WireType) -> u8 {
    match w {
        WireType::Null => 0x00,
        WireType::Bool => 0x01,
        WireType::VarUInt => 0x02,
        WireType::VarInt => 0x03,
        WireType::Fixed64 => 0x04,
        WireType::LenDelimited => 0x05,
        WireType::StartObject => 0x06,
        WireType::EndObject => 0x07,
        WireType::StartArray => 0x08,
        WireType::EndArray => 0x09,
        WireType::Reference => 0x0A,
    }
}

/// The wire type whose code is `code`, if any.
pub open spec fn wire_type_of_code(code: u8) -> Option<WireType> {
    if code == 0x00 {
        Some(WireType::Null)
    } else if code == 0x01 {
        Some(WireType::Bool)
    } else if code == 0x02 {
        Some(WireType::VarUInt)
    } else if code == 0x03 {
        Some(WireType::VarInt)
    } else if code == 0x04 {
        Some(WireType::Fixed64)
    } else if code == 0x05 {
        Some(WireType::LenDelimited)
    } else if code == 0x06 {
        Some(WireType::StartObject)
    } else if code == 0x07 {
        Some(WireType::EndObject)
    } else if code == 0x08 {
        Some(WireType::StartArray)
    } else if code == 0x09 {
        Some(WireType::EndArray)
    } else if code == 0x0A {
        Some(WireType::Reference)
    } else {
        None
    }
}

/// The wire type named by the low nibble of a tag byte.
pub open spec fn spec_from_tag(tag: u8) -> Option<WireType> {
    wire_type_of_code(tag & 0x0F)
}

impl WireType {
    /// Parse a wire type from the low 4 bits of a tag byte.
    pub fn from_tag(tag: u8) -> (r: Option<WireType>)
        ensures
            r == spec_from_tag(tag),
    {
        let code = tag & 0x0F;
        if code == 0x00 {
            Some(WireType::Null)
        } else if code == 0x01 {
            Some(WireType::Bool)
        } else if code == 0x02 {
            Some(WireType::VarUInt)
        } else if code == 0x03 {
            Some(WireType::VarInt)
        } else if code == 0x04 {
            Some(WireType::Fixed64)
        } else if code == 0x05 {
            Some(WireType::LenDelimited)
        } else if code == 0x06 {
            Some(WireType::StartObject)
        } else if code == 0x07 {
            Some(WireType::EndObject)
        } else if code == 0x08 {
            Some(WireType::StartArray)
        } else if code == 0x09 {
            Some(WireType::EndArray)
        } else if code == 0x0A {
            Some(WireType::Reference)
        } else {
            None
        }
    }

    /// Encode this wire type as a tag byte (flags in high nibble are zero).
    pub fn to_tag(self) -> (r: u8)
        ensures
            r == wire_code(self),
    {
        match self {
            WireType::Null => 0x00,
            WireType::Bool => 0x01,
            WireType::VarUInt => 0x02,
            WireType::VarInt => 0x03,
            WireType::Fixed64 => 0x04,
            WireType::LenDelimited => 0x05,
            WireType::StartObject => 0x06,
            WireType::EndObject => 0x07,
            WireType::StartArray => 0x08,
            WireType::EndArray => 0x09,
            WireType::Reference => 0x0A,
        }
    }

    /// Encode this wire type with `flags` in the high nibble (flag bits
    /// above the nibble are shifted out).
    pub fn to_tag_with_flags(self, flags: u8) -> (r: u8)
        ensures
            r == ((flags << 4u8) | wire_code(self)),
    {
        (flags << 4) | self.to_tag()
    }
}

/// A tag byte names the wire type it was made from, whatever flags it carries.
pub proof fn lemma_tag_roundtrip(w: WireType, flags: u8)
    ensures
        spec_from_tag(wire_code(w)) == Some(w),
        spec_from_tag(((flags << 4u8) | wire_code(w)) as u8) == Some(w),
        (((flags << 4u8) | wire_code(w)) as u8) >> 4u8 == flags & 0x0F,
{
    let c = wire_code(w);
    assert(c <= 0x0A);
    assert(c <= 0x0A ==> c & 0x0F == c) by (bit_vector);
    assert(c <= 0x0A ==> ((flags << 4u8) | c) & 0x0F == c && ((flags << 4u8) | c) >> 4u8 == flags & 0x0F)
        by (bit_vector);
}

/// Compression type identifiers for block headers.
#[derive(Debug, Clone, Copy, PartialEq, Eq, Structural)]
pub enum CompressionType {
    /// Payload stored as is.
    Uncompressed,
    Zstd,
    Snappy,
    Lz4,
}

/// The byte that stands for each compression type in a block header.
pub open spec fn compression_code(c: CompressionType) -> u8 {
    match c {
        CompressionType::Uncompressed => 0x00,
        CompressionType::Zstd => 0x01,
        CompressionType::Snappy => 0x02,
        CompressionType::Lz4 => 0x03,
    }
}

/// The compression type a header byte stands for, if any.
pub open spec fn spec_compression_from_byte(b: u8) -> Option<CompressionType> {
    if b == 0x00 {
        Some(CompressionType::Uncompressed)
    } else if b == 0x01 {
        Some(CompressionType::Zstd)
    } else if b == 0x02 {
        Some(CompressionType::Snappy)
    } else if b == 0x03 {
        Some(CompressionType::Lz4)
    } else {
        None
    }
}

impl CompressionType {
    /// Parse a compression type from its header byte.
    pub fn from_byte(b: u8) -> (r: Option<Self>)
        ensures
            r == spec_compression_from_byte(b),
    {
        if b == 0x00 {
            Some(CompressionType::Uncompressed)
        } else if b == 0x01 {
            Some(CompressionType::Zstd)
        } else if b == 0x02 {
            Some(CompressionType::Snappy)
        } else if b == 0x03 {
            Some(CompressionType::Lz4)
        } else {
            None
        }
    }

    /// The header byte of this compression type.
    pub fn to_byte(self) -> (r: u8)
        ensures
            r == compression_code(self),
    {
        match self {
            CompressionType::Uncompressed => 0x00,
            CompressionType::Zstd => 0x01,
            CompressionType::Snappy => 0x02,
            CompressionType::Lz4 => 0x03,
        }
    }
}

/// Block type identifiers.
#[derive(Debug, Clone, Copy, PartialEq, Eq, Structural)]
pub enum BlockType {
    /// Data block containing encoded values.
    Data,
    /// Index block for random access.
    Index,
    /// Schema block embedding type information.
    Schema,
    /// String dictionary block for deduplication.
    StringDict,
    /// File trailer/footer.
    Trailer,
}

/// The byte that stands for each block type in a block header.
pub open spec fn block_code(b: BlockType) -> u8 {
    match b {
        BlockType::Data => 0x01,
        BlockType::Index => 0x02,
        BlockType::Schema => 0x03,
        BlockType::StringDict => 0x04,
        BlockType::Trailer => 0xFF,
    }
}

/// The block type a header byte stands for, if any.
pub open spec fn spec_block_from_byte(b: u8) -> Option<BlockType> {
    if b == 0x01 {
        Some(BlockType::Data)
    } else if b == 0x02 {
        Some(BlockType::Index)
    } else if b == 0x03 {
        Some(BlockType::Schema)
    } else if b == 0x04 {
        Some(BlockType::StringDict)
    } else if b == 0xFF {
        Some(BlockType::Trailer)
    } else {
        None
    }
}

impl BlockType {
    /// Parse a block type from its header byte.
    pub fn from_byte(b: u8) -> (r: Option<Self>)
        ensures
            r == spec_block_from_byte(b),
    {
        if b == 0x01 {
            Some(BlockType::Data)
        } else if b == 0x02 {
            Some(BlockType::Index)
        } else if b == 0x03 {
            Some(BlockType::Schema)
        } else if b == 0x04 {
            Some(BlockType::StringDict)
        } else if b == 0xFF {
            Some(BlockType::Trailer)
        } else {
            None
        }
    }

    /// The header byte of this block type.
    pub fn to_byte(self) -> (r: u8)
        ensures
            r == block_code(self),
    {
        match self {
            BlockType::Data => 0x01,
            BlockType::Index => 0x02,
            BlockType::Schema => 0x03,
            BlockType::StringDict => 0x04,
            BlockType::Trailer => 0xFF,
        }
    }
}

/// Each compression and block type is read back from the byte it is written as.
pub proof fn lemma_byte_codes_roundtrip(c: CompressionType, b: BlockType)
    ensures
        spec_compression_from_byte(compression_code(c)) == Some(c),
        spec_block_from_byte(block_code(b)) == Some(b),
{
}

} // verus!
