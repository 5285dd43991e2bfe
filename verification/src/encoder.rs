//! Encoder for the Surp binary format.
//!
//! Values are encoded into a block buffer as tag-prefixed wire items:
//! varints for integers, eight little-endian bytes for floats,
//! length-delimited UTF-8 strings and byte strings, and counted arrays and
//! objects closed by an end tag. `flush_block` frames the buffer as a data
//! block (optionally preceded by a string dictionary block and optionally
//! compressed); `finish` appends the file trailer.

use crate::block::block_bytes;
use crate::checksum::{compute_xxh64, spec_xxh64};
use crate::codec::{
    lz4_compress_prepend_size, lz4_compress_prepend_size_of, snappy_compress, snappy_compress_of, zstd_encode_all,
    zstd_encode_all_of,
};
use crate::decode_spec::sat;
use crate::dict::{dict_payload, encode_string_dict_payload};
use crate::error::SurpError;
use crate::limits::{default_limits, Limits};
use crate::value::{Value, ValueModel};
use crate::varint::{encode_signed_varint_vec, encode_varint_vec, spec_zigzag_encode, varint_bytes};
use crate::wire::{block_code, compression_code, wire_code, BlockType, CompressionType, WireType};
use vstd::bytes::{spec_u64_to_le_bytes, u64_to_le_bytes};
use vstd::prelude::*;
use vstd::utf8::encode_utf8;

verus! {

/// The tag byte of a wire type, as a one-byte sequence.
pub open spec fn tag(w: WireType) -> Seq<u8> {
    seq![wire_code(w)]
}

/// The first position of `s` in the string dictionary `dict`, if any.
pub open spec fn dict_index(dict: Seq<Seq<char>>, s: Seq<char>) -> Option<int>
    decreases dict.len(),
{
    if dict.len() == 0 {
        None
    } else if dict.last() == s {
        match dict_index(dict.drop_last(), s) {
            Some(i) => Some(i),
            None => Some(dict.len() - 1),
        }
    } else {
        dict_index(dict.drop_last(), s)
    }
}

/// The outcome of encoding: bytes appended to the block buffer, the string
/// dictionary afterwards, the nesting depth afterwards, and the error that
/// stopped encoding, if any (the bytes and state are then those reached
/// when it stopped).
pub type EncOutcome = (Seq<u8>, Seq<Seq<char>>, int, Option<SurpError>);

/// `out` preceded by the bytes `w`.
pub open spec fn prepend(w: Seq<u8>, out: EncOutcome) -> EncOutcome {
    (w + out.0, out.1, out.2, out.3)
}

/// The length-delimited encoding of a UTF-8 string.
pub open spec fn str_item(s: Seq<char>) -> Seq<u8> {
    tag(WireType::LenDelimited) + seq![0x00u8] + varint_bytes(encode_utf8(s).len() as u64) + encode_utf8(s)
}

/// The length-delimited encoding of a byte string.
pub open spec fn bytes_item(b: Seq<u8>) -> Seq<u8> {
    tag(WireType::LenDelimited) + seq![0x01u8] + varint_bytes(b.len() as u64) + b
}

/// Encoding of one value at nesting depth `depth`, with string
/// deduplication on or off and the block's string dictionary `dict`.
pub open spec fn enc_value(
    v: ValueModel,
    depth: int,
    lim: Limits,
    dedup: bool,
    dict: Seq<Seq<char>>,
) -> EncOutcome
    decreases v,
{
    match v {
        ValueModel::Null => (tag(WireType::Null), dict, depth, None),
        ValueModel::Bool(b) => (tag(WireType::Bool) + seq![if b { 1u8 } else { 0u8 }], dict, depth, None),
        ValueModel::UInt(n) => (tag(WireType::VarUInt) + varint_bytes(n), dict, depth, None),
        ValueModel::Int(n) => (tag(WireType::VarInt) + varint_bytes(spec_zigzag_encode(n)), dict, depth, None),
        ValueModel::Float(bits) => (tag(WireType::Fixed64) + spec_u64_to_le_bytes(bits), dict, depth, None),
        ValueModel::Str(s) => {
            if dedup && dict_index(dict, s) is Some {
                (
                    tag(WireType::Reference) + varint_bytes(((dict_index(dict, s)->0) as u32) as u64),
                    dict,
                    depth,
                    None,
                )
            } else {
                (str_item(s), if dedup { dict.push(s) } else { dict }, depth, None)
            }
        },
        ValueModel::Bytes(b) => (bytes_item(b), dict, depth, None),
        ValueModel::Array(items) => {
            if depth >= lim.max_nesting_depth {
                (Seq::empty(), dict, depth, Some(SurpError::NestingTooDeep(depth as usize, lim.max_nesting_depth)))
            } else if items.len() > lim.max_items {
                (Seq::empty(), dict, depth, Some(SurpError::TooManyItems(items.len() as usize, lim.max_items)))
            } else {
                let hdr = tag(WireType::StartArray) + varint_bytes(items.len() as u64);
                let inner = enc_items(items, depth + 1, lim, dedup, dict);
                if inner.3 is Some {
                    prepend(hdr, inner)
                } else {
                    (hdr + inner.0 + tag(WireType::EndArray), inner.1, inner.2 - 1, None)
                }
            }
        },
        ValueModel::Object(entries) => {
            if depth >= lim.max_nesting_depth {
                (Seq::empty(), dict, depth, Some(SurpError::NestingTooDeep(depth as usize, lim.max_nesting_depth)))
            } else if entries.len() > lim.max_items {
                (Seq::empty(), dict, depth, Some(SurpError::TooManyItems(entries.len() as usize, lim.max_items)))
            } else {
                let hdr = tag(WireType::StartObject) + varint_bytes(entries.len() as u64);
                let inner = enc_entries(entries, depth + 1, lim, dedup, dict);
                if inner.3 is Some {
                    prepend(hdr, inner)
                } else {
                    (hdr + inner.0 + tag(WireType::EndObject), inner.1, inner.2 - 1, None)
                }
            }
        },
    }
}

/// Encoding of the items of an array, in order, stopping at the first error.
pub open spec fn enc_items(
    items: Seq<ValueModel>,
    depth: int,
    lim: Limits,
    dedup: bool,
    dict: Seq<Seq<char>>,
) -> EncOutcome
    decreases items,
{
    if items.len() == 0 {
        (Seq::empty(), dict, depth, None)
    } else {
        let first = enc_value(items[0], depth, lim, dedup, dict);
        if first.3 is Some {
            first
        } else {
            prepend(first.0, enc_items(items.subrange(1, items.len() as int), first.2, lim, dedup, first.1))
        }
    }
}

/// The encoding of an object key: varint byte length, then UTF-8 bytes.
pub open spec fn key_item(k: Seq<char>) -> Seq<u8> {
    varint_bytes(encode_utf8(k).len() as u64) + encode_utf8(k)
}

/// Encoding of the entries of an object, in order, stopping at the first error.
pub open spec fn enc_entries(
    entries: Seq<(Seq<char>, ValueModel)>,
    depth: int,
    lim: Limits,
    dedup: bool,
    dict: Seq<Seq<char>>,
) -> EncOutcome
    decreases entries,
{
    if entries.len() == 0 {
        (Seq::empty(), dict, depth, None)
    } else {
        let first = enc_value(entries[0].1, depth, lim, dedup, dict);
        let kb = key_item(entries[0].0);
        if first.3 is Some {
            prepend(kb, first)
        } else {
            prepend(
                kb + first.0,
                enc_entries(entries.subrange(1, entries.len() as int), first.2, lim, dedup, first.1),
            )
        }
    }
}

/// What an `Encoder` holds.
pub struct EncoderView {
    /// Framed blocks produced so far.
    pub output: Seq<u8>,
    /// Encoded values not yet framed into a block.
    pub block_buf: Seq<u8>,
    pub depth: int,
    pub limits: Limits,
    pub compression: CompressionType,
    /// The current block's string dictionary, in insertion order.
    pub dict: Seq<Seq<char>>,
    pub dedup: bool,
}

/// Encoder that serializes `Value`s into Surp binary format.
pub struct Encoder {
    output: Vec<u8>,
    block_buf: Vec<u8>,
    depth: usize,
    limits: Limits,
    compression: CompressionType,
    string_dict: Vec<String>,
    dedup_strings: bool,
}

impl View for Encoder {
    type V = EncoderView;

    closed spec fn view(&self) -> EncoderView {
        EncoderView {
            output: self.output@,
            block_buf: self.block_buf@,
            depth: self.depth as int,
            limits: self.limits,
            compression: self.compression,
            dict: self.string_dict@.map_values(|s: String| s@),
            dedup: self.dedup_strings,
        }
    }
}

/// The state of a fresh encoder with the given limits.
pub open spec fn fresh_encoder(e: EncoderView, limits: Limits) -> bool {
    &&& e.output == Seq::<u8>::empty()
    &&& e.block_buf == Seq::<u8>::empty()
    &&& e.depth == 0
    &&& e.limits == limits
    &&& e.compression == CompressionType::Uncompressed
    &&& e.dict == Seq::<Seq<char>>::empty()
    &&& !e.dedup
}

impl Encoder {
    /// Create a new encoder with default settings.
    pub fn new() -> (e: Self)
        ensures
            fresh_encoder(e@, e@.limits),
            default_limits(e@.limits),
    {
        let e = Encoder {
            output: Vec::with_capacity(4096),
            block_buf: Vec::with_capacity(4096),
            depth: 0,
            limits: Limits::default(),
            compression: CompressionType::Uncompressed,
            string_dict: Vec::new(),
            dedup_strings: false,
        };
        proof {
            assert(e@.dict =~= Seq::<Seq<char>>::empty());
        }
        e
    }

    /// Create an encoder with custom limits.
    pub fn with_limits(limits: Limits) -> (e: Self)
        ensures
            fresh_encoder(e@, limits),
    {
        let e = Encoder {
            output: Vec::with_capacity(4096),
            block_buf: Vec::with_capacity(4096),
            depth: 0,
            limits,
            compression: CompressionType::Uncompressed,
            string_dict: Vec::new(),
            dedup_strings: false,
        };
        proof {
            assert(e@.dict =~= Seq::<Seq<char>>::empty());
        }
        e
    }

    /// Create an encoder with default limits and buffers pre-allocated for
    /// about `estimated_size` bytes of output.
    pub fn with_size_hint(estimated_size: usize) -> (e: Self)
        ensures
            fresh_encoder(e@, e@.limits),
            default_limits(e@.limits),
    {
        let capacity = estimated_size.saturating_add(128);
        let e = Encoder {
            output: Vec::with_capacity(capacity),
            block_buf: Vec::with_capacity(estimated_size),
            depth: 0,
            limits: Limits::default(),
            compression: CompressionType::Uncompressed,
            string_dict: Vec::new(),
            dedup_strings: false,
        };
        proof {
            assert(e@.dict =~= Seq::<Seq<char>>::empty());
        }
        e
    }

    /// Enable string deduplication: a string repeated within a block is
    /// encoded as a reference to its first occurrence.
    pub fn enable_dedup(&mut self)
        ensures
            final(self)@ == (EncoderView { dedup: true, ..old(self)@ }),
    {
        self.dedup_strings = true;
    }

    /// Set the compression type for subsequent blocks.
    pub fn set_compression(&mut self, comp: CompressionType)
        ensures
            final(self)@ == (EncoderView { compression: comp, ..old(self)@ }),
    {
        self.compression = comp;
    }

    fn find_in_dict(&self, s: &String) -> (r: Option<usize>)
        ensures
            match dict_index(self@.dict, s@) {
                Some(i) => r == Some(i as usize),
                None => r is None,
            },
            r matches Some(k) ==> dict_index(self@.dict, s@) == Some(k as int),
    {
        let ghost dict = self@.dict;
        let mut i: usize = 0;
        while i < self.string_dict.len()
            invariant
                i <= self.string_dict@.len(),
                dict == self.string_dict@.map_values(|x: String| x@),
                forall|j: int| 0 <= j < i ==> dict[j] != s@,
            decreases self.string_dict@.len() - i,
        {
            if self.string_dict[i] == *s {
                proof {
                    lemma_dict_index_first(dict, s@, i as int);
                }
                return Some(i);
            }
            i = i + 1;
        }
        proof {
            lemma_dict_index_absent(dict, s@);
        }
        None
    }

    /// Encode a single `Value` into the current block buffer.
    pub fn encode_value(&mut self, value: &Value) -> (r: Result<(), SurpError>)
        ensures
            ({
                let out = enc_value(value@, old(self)@.depth, old(self)@.limits, old(self)@.dedup, old(self)@.dict);
                &&& final(self)@.block_buf == old(self)@.block_buf + out.0
                &&& final(self)@.dict == out.1
                &&& final(self)@.depth == out.2
                &&& r == match out.3 {
                    None => Ok::<(), SurpError>(()),
                    Some(e) => Err(e),
                }
                &&& final(self)@.output == old(self)@.output
                &&& final(self)@.limits == old(self)@.limits
                &&& final(self)@.compression == old(self)@.compression
                &&& final(self)@.dedup == old(self)@.dedup
            }),
    {
        self.encode_value_inner(value)
    }

    fn encode_value_inner(&mut self, value: &Value) -> (r: Result<(), SurpError>)
        ensures
            ({
                let out = enc_value(value@, old(self)@.depth, old(self)@.limits, old(self)@.dedup, old(self)@.dict);
                &&& final(self)@.block_buf == old(self)@.block_buf + out.0
                &&& final(self)@.dict == out.1
                &&& final(self)@.depth == out.2
                &&& r == match out.3 {
                    None => Ok::<(), SurpError>(()),
                    Some(e) => Err(e),
                }
                &&& final(self)@.output == old(self)@.output
                &&& final(self)@.limits == old(self)@.limits
                &&& final(self)@.compression == old(self)@.compression
                &&& final(self)@.dedup == old(self)@.dedup
            }),
        decreases value, 2int,
    {
        proof {
            reveal_with_fuel(<Value as View>::view, 2);
        }
        let ghost old_buf = self.block_buf@;
        match value {
            Value::Null => {
                self.block_buf.push(WireType::Null.to_tag());
                proof {
                    assert(self.block_buf@ =~= old_buf + tag(WireType::Null));
                }
            },
            Value::Bool(b) => {
                self.block_buf.push(WireType::Bool.to_tag());
                self.block_buf.push(if *b { 0x01 } else { 0x00 });
                proof {
                    assert(self.block_buf@ =~= old_buf + tag(WireType::Bool) + seq![if *b { 1u8 } else { 0u8 }]);
                }
            },
            Value::UInt(n) => {
                self.block_buf.push(WireType::VarUInt.to_tag());
                encode_varint_vec(*n, &mut self.block_buf);
                proof {
                    assert(self.block_buf@ =~= old_buf + (tag(WireType::VarUInt) + varint_bytes(*n)));
                }
            },
            Value::Int(n) => {
                self.block_buf.push(WireType::VarInt.to_tag());
                encode_signed_varint_vec(*n, &mut self.block_buf);
                proof {
                    assert(self.block_buf@ =~= old_buf + (tag(WireType::VarInt) + varint_bytes(
                        spec_zigzag_encode(*n),
                    )));
                }
            },
            Value::Float(bits) => {
                self.block_buf.push(WireType::Fixed64.to_tag());
                let le = u64_to_le_bytes(*bits);
                self.block_buf.extend_from_slice(le.as_slice());
                proof {
                    assert(self.block_buf@ =~= old_buf + (tag(WireType::Fixed64) + spec_u64_to_le_bytes(*bits)));
                }
            },
            Value::Str(s) => {
                if self.dedup_strings {
                    match self.find_in_dict(s) {
                        Some(idx) => {
                            self.block_buf.push(WireType::Reference.to_tag());
                            encode_varint_vec((idx as u32) as u64, &mut self.block_buf);
                            proof {
                                assert(self.block_buf@ =~= old_buf + (tag(WireType::Reference) + varint_bytes(
                                    (idx as u32) as u64,
                                )));
                            }
                            return Ok(());
                        },
                        None => {
                            let ghost d0 = self@.dict;
                            self.string_dict.push(s.clone());
                            proof {
                                assert(self@.dict =~= d0.push(s@));
                            }
                        },
                    }
                }
                let bytes = s.as_str().as_bytes();
                self.block_buf.push(WireType::LenDelimited.to_tag());
                self.block_buf.push(0x00);
                encode_varint_vec(bytes.len() as u64, &mut self.block_buf);
                self.block_buf.extend_from_slice(bytes);
                proof {
                    assert(self.block_buf@ =~= old_buf + str_item(s@));
                }
            },
            Value::Bytes(b) => {
                self.block_buf.push(WireType::LenDelimited.to_tag());
                self.block_buf.push(0x01);
                encode_varint_vec(b.len() as u64, &mut self.block_buf);
                self.block_buf.extend_from_slice(b.as_slice());
                proof {
                    assert(self.block_buf@ =~= old_buf + bytes_item(b@));
                }
            },
            Value::Array(items) => {
                return self.encode_array(value, items);
            },
            Value::Object(entries) => {
                return self.encode_object(value, entries);
            },
        }
        Ok(())
    }

    #[verifier::rlimit(40)]
    fn encode_array(&mut self, value: &Value, items: &Vec<Value>) -> (r: Result<(), SurpError>)
        requires
            *value == Value::Array(*items),
        ensures
            ({
                let out = enc_value(value@, old(self)@.depth, old(self)@.limits, old(self)@.dedup, old(self)@.dict);
                &&& final(self)@.block_buf == old(self)@.block_buf + out.0
                &&& final(self)@.dict == out.1
                &&& final(self)@.depth == out.2
                &&& r == match out.3 {
                    None => Ok::<(), SurpError>(()),
                    Some(e) => Err(e),
                }
                &&& final(self)@.output == old(self)@.output
                &&& final(self)@.limits == old(self)@.limits
                &&& final(self)@.compression == old(self)@.compression
                &&& final(self)@.dedup == old(self)@.dedup
            }),
        decreases value, 1int,

    {
        proof {
            reveal_with_fuel(<Value as View>::view, 2);
        }
        let ghost old_buf = self.block_buf@;
        if self.depth >= self.limits.max_nesting_depth {
            proof {
                assert(self.block_buf@ =~= old_buf + Seq::<u8>::empty());
            }
            return Err(SurpError::NestingTooDeep(self.depth, self.limits.max_nesting_depth));
        }
        if items.len() > self.limits.max_items {
            proof {
                assert(self.block_buf@ =~= old_buf + Seq::<u8>::empty());
            }
            return Err(SurpError::TooManyItems(items.len(), self.limits.max_items));
        }
        let ghost all = value@->Array_0;
        let ghost d0 = self@.dict;
        let ghost depth0 = self@.depth;
        self.block_buf.push(WireType::StartArray.to_tag());
        encode_varint_vec(items.len() as u64, &mut self.block_buf);
        let ghost hdr = tag(WireType::StartArray) + varint_bytes(items.len() as u64);
        let ghost base: int = (old_buf.len() + hdr.len()) as int;
        proof {
            assert(self.block_buf@ =~= old_buf + hdr);
            assert(all.subrange(0, all.len() as int) =~= all);
        }
        self.depth = self.depth + 1;
        let mut i: usize = 0;
        while i < items.len()
            invariant
                *value == Value::Array(*items),
                old_buf == old(self)@.block_buf,
                hdr == tag(WireType::StartArray) + varint_bytes(items@.len() as u64),
                base == old_buf.len() + hdr.len(),
                depth0 == old(self)@.depth,
                d0 == old(self)@.dict,
                depth0 < self@.limits.max_nesting_depth,
                all.len() <= self@.limits.max_items,
                value@ == ValueModel::Array(all),
                all == value@->Array_0,
                all.len() == items@.len(),
                forall|j: int| 0 <= j < all.len() ==> #[trigger] all[j] == items@[j]@,
                i <= items@.len(),
                self@.output == old(self)@.output,
                self@.limits == old(self)@.limits,
                self@.compression == old(self)@.compression,
                self@.dedup == old(self)@.dedup,
                ({
                    let whole = enc_items(all, depth0 + 1, self@.limits, self@.dedup, d0);
                    let rest = enc_items(all.subrange(i as int, all.len() as int), self@.depth, self@.limits, self@.dedup, self@.dict);
                    &&& self@.block_buf.len() >= base
                    &&& self@.block_buf.subrange(0, base) == old_buf + hdr
                    &&& whole == prepend(self@.block_buf.subrange(base, self@.block_buf.len() as int), rest)
                }),
            decreases items@.len() - i,
        {
            proof {
                assert(decreases_to!(*value => value->Array_0));
                assert(decreases_to!(*items => items@));
                assert(decreases_to!(items@ => items@[i as int]));
            }
            let ghost before = self@;
            let ghost rest_seq = all.subrange(i as int, all.len() as int);
            proof {
                assert(rest_seq[0] == items@[i as int]@);
                assert(rest_seq.subrange(1, rest_seq.len() as int) =~= all.subrange(i + 1, all.len() as int));
            }
            let res = self.encode_value_inner(&items[i]);
            proof {
                let written = before.block_buf.subrange(base, before.block_buf.len() as int);
                let step = enc_value(items@[i as int]@, before.depth, before.limits, before.dedup, before.dict);
                assert(self@.block_buf =~= before.block_buf + step.0);
                assert(self@.block_buf.subrange(0, base) =~= before.block_buf.subrange(0, base));
                assert(self@.block_buf.subrange(base, self@.block_buf.len() as int) =~= written + step.0);
            }
            match res {
                Ok(()) => {},
                Err(e) => {
                    proof {
                        let whole = enc_items(all, depth0 + 1, self@.limits, self@.dedup, d0);
                        let written = before.block_buf.subrange(base, before.block_buf.len() as int);
                        let step = enc_value(items@[i as int]@, before.depth, before.limits, before.dedup, before.dict);
                        let rest = enc_items(rest_seq, before.depth, before.limits, before.dedup, before.dict);
                        assert(rest == step);
                        assert(whole.0 =~= written + step.0);
                        assert(whole.1 == self@.dict && whole.2 == self@.depth && whole.3 == Some(e));
                        assert(self@.block_buf =~= self@.block_buf.subrange(0, base) + self@.block_buf.subrange(base, self@.block_buf.len() as int));
                        assert(self@.block_buf =~= old_buf + (hdr + whole.0));
                    }
                    return Err(e);
                },
            }
            i = i + 1;
        }
        proof {
            let whole = enc_items(all, depth0 + 1, self@.limits, self@.dedup, d0);
            assert(all.subrange(i as int, all.len() as int) =~= Seq::<ValueModel>::empty());
            assert(whole.2 == self@.depth);
            lemma_enc_items_depth(all, depth0 + 1, self@.limits, self@.dedup, d0);
        }
        let ghost pre = self@.block_buf;
        proof {
            let whole = enc_items(all, depth0 + 1, self@.limits, self@.dedup, d0);
            assert(whole.0 =~= pre.subrange(base, pre.len() as int));
            assert(pre =~= pre.subrange(0, base) + pre.subrange(base, pre.len() as int));
        }
        self.depth = self.depth - 1;
        self.block_buf.push(WireType::EndArray.to_tag());
        proof {
            let whole = enc_items(all, depth0 + 1, self@.limits, self@.dedup, d0);
            assert(self@.block_buf =~= old_buf + (hdr + whole.0 + tag(WireType::EndArray)));
        }
    
        Ok(())
    }

    #[verifier::rlimit(40)]
    fn encode_object(&mut self, value: &Value, entries: &Vec<(String, Value)>) -> (r: Result<(), SurpError>)
        requires
            *value == Value::Object(*entries),
        ensures
            ({
                let out = enc_value(value@, old(self)@.depth, old(self)@.limits, old(self)@.dedup, old(self)@.dict);
                &&& final(self)@.block_buf == old(self)@.block_buf + out.0
                &&& final(self)@.dict == out.1
                &&& final(self)@.depth == out.2
                &&& r == match out.3 {
                    None => Ok::<(), SurpError>(()),
                    Some(e) => Err(e),
                }
                &&& final(self)@.output == old(self)@.output
                &&& final(self)@.limits == old(self)@.limits
                &&& final(self)@.compression == old(self)@.compression
                &&& final(self)@.dedup == old(self)@.dedup
            }),
        decreases value, 1int,

    {
        proof {
            reveal_with_fuel(<Value as View>::view, 2);
        }
        let ghost old_buf = self.block_buf@;
        if self.depth >= self.limits.max_nesting_depth {
            proof {
                assert(self.block_buf@ =~= old_buf + Seq::<u8>::empty());
            }
            return Err(SurpError::NestingTooDeep(self.depth, self.limits.max_nesting_depth));
        }
        if entries.len() > self.limits.max_items {
            proof {
                assert(self.block_buf@ =~= old_buf + Seq::<u8>::empty());
            }
            return Err(SurpError::TooManyItems(entries.len(), self.limits.max_items));
        }
        let ghost all = value@->Object_0;
        let ghost d0 = self@.dict;
        let ghost depth0 = self@.depth;
        self.block_buf.push(WireType::StartObject.to_tag());
        encode_varint_vec(entries.len() as u64, &mut self.block_buf);
        let ghost hdr = tag(WireType::StartObject) + varint_bytes(entries.len() as u64);
        let ghost base: int = (old_buf.len() + hdr.len()) as int;
        proof {
            assert(self.block_buf@ =~= old_buf + hdr);
            assert(all.subrange(0, all.len() as int) =~= all);
        }
        self.depth = self.depth + 1;
        let mut i: usize = 0;
        while i < entries.len()
            invariant
                *value == Value::Object(*entries),
                old_buf == old(self)@.block_buf,
                hdr == tag(WireType::StartObject) + varint_bytes(entries@.len() as u64),
                base == old_buf.len() + hdr.len(),
                depth0 == old(self)@.depth,
                d0 == old(self)@.dict,
                depth0 < self@.limits.max_nesting_depth,
                all.len() <= self@.limits.max_items,
                value@ == ValueModel::Object(all),
                all == value@->Object_0,
                all.len() == entries@.len(),
                forall|j: int| 0 <= j < all.len() ==> #[trigger] all[j] == (entries@[j].0@, entries@[j].1@),
                i <= entries@.len(),
                self@.output == old(self)@.output,
                self@.limits == old(self)@.limits,
                self@.compression == old(self)@.compression,
                self@.dedup == old(self)@.dedup,
                ({
                    let whole = enc_entries(all, depth0 + 1, self@.limits, self@.dedup, d0);
                    let rest = enc_entries(all.subrange(i as int, all.len() as int), self@.depth, self@.limits, self@.dedup, self@.dict);
                    &&& self@.block_buf.len() >= base
                    &&& self@.block_buf.subrange(0, base) == old_buf + hdr
                    &&& whole == prepend(self@.block_buf.subrange(base, self@.block_buf.len() as int), rest)
                }),
            decreases entries@.len() - i,
        {
            proof {
                assert(decreases_to!(*value => value->Object_0));
                assert(decreases_to!(*entries => entries@));
                assert(decreases_to!(entries@ => entries@[i as int]));
                assert(decreases_to!(entries@[i as int] => entries@[i as int].1));
            }
            let ghost before = self@;
            let ghost rest_seq = all.subrange(i as int, all.len() as int);
            proof {
                assert(rest_seq[0] == (entries@[i as int].0@, entries@[i as int].1@));
                assert(rest_seq.subrange(1, rest_seq.len() as int) =~= all.subrange(i + 1, all.len() as int));
            }
            let key_bytes = entries[i].0.as_str().as_bytes();
            encode_varint_vec(key_bytes.len() as u64, &mut self.block_buf);
            self.block_buf.extend_from_slice(key_bytes);
            let ghost mid = self@;
            proof {
                assert(mid.block_buf =~= before.block_buf + key_item(entries@[i as int].0@));
            }
            let res = self.encode_value_inner(&entries[i].1);
            proof {
                let written = before.block_buf.subrange(base, before.block_buf.len() as int);
                let step = enc_value(entries@[i as int].1@, before.depth, before.limits, before.dedup, before.dict);
                let kb = key_item(entries@[i as int].0@);
                assert(self@.block_buf =~= before.block_buf + (kb + step.0));
                assert(self@.block_buf.subrange(0, base) =~= before.block_buf.subrange(0, base));
                assert(self@.block_buf.subrange(base, self@.block_buf.len() as int) =~= written + (kb + step.0));
            }
            match res {
                Ok(()) => {},
                Err(e) => {
                    proof {
                        let whole = enc_entries(all, depth0 + 1, self@.limits, self@.dedup, d0);
                        let written = before.block_buf.subrange(base, before.block_buf.len() as int);
                        let step = enc_value(entries@[i as int].1@, before.depth, before.limits, before.dedup, before.dict);
                        let rest = enc_entries(rest_seq, before.depth, before.limits, before.dedup, before.dict);
                        assert(rest == prepend(key_item(entries@[i as int].0@), step));
                        assert(whole.0 =~= written + (key_item(entries@[i as int].0@) + step.0));
                        assert(whole.1 == self@.dict && whole.2 == self@.depth && whole.3 == Some(e));
                        assert(self@.block_buf =~= self@.block_buf.subrange(0, base) + self@.block_buf.subrange(base, self@.block_buf.len() as int));
                        assert(self@.block_buf =~= old_buf + (hdr + whole.0));
                    }
                    return Err(e);
                },
            }
            i = i + 1;
        }
        proof {
            let whole = enc_entries(all, depth0 + 1, self@.limits, self@.dedup, d0);
            assert(all.subrange(i as int, all.len() as int) =~= Seq::<(Seq<char>, ValueModel)>::empty());
            lemma_enc_entries_depth(all, depth0 + 1, self@.limits, self@.dedup, d0);
        }
        let ghost pre = self@.block_buf;
        proof {
            let whole = enc_entries(all, depth0 + 1, self@.limits, self@.dedup, d0);
            assert(whole.0 =~= pre.subrange(base, pre.len() as int));
            assert(pre =~= pre.subrange(0, base) + pre.subrange(base, pre.len() as int));
        }
        self.depth = self.depth - 1;
        self.block_buf.push(WireType::EndObject.to_tag());
        proof {
            let whole = enc_entries(all, depth0 + 1, self@.limits, self@.dedup, d0);
            assert(self@.block_buf =~= old_buf + (hdr + whole.0 + tag(WireType::EndObject)));
        }
    
        Ok(())
    }
}

proof fn lemma_dict_index_first(dict: Seq<Seq<char>>, s: Seq<char>, i: int)
    requires
        0 <= i < dict.len(),
        dict[i] == s,
        forall|j: int| 0 <= j < i ==> dict[j] != s,
    ensures
        dict_index(dict, s) == Some(i),
    decreases dict.len(),
{
    if i < dict.len() - 1 {
        lemma_dict_index_first(dict.drop_last(), s, i);
    } else {
        lemma_dict_index_absent(dict.drop_last(), s);
    }
}

proof fn lemma_dict_index_absent(dict: Seq<Seq<char>>, s: Seq<char>)
    requires
        forall|j: int| 0 <= j < dict.len() ==> dict[j] != s,
    ensures
        dict_index(dict, s) is None,
    decreases dict.len(),
{
    if dict.len() > 0 {
        lemma_dict_index_absent(dict.drop_last(), s);
    }
}

/// A successful encoding leaves the nesting depth where it found it.
pub proof fn lemma_enc_value_depth(v: ValueModel, depth: int, lim: Limits, dedup: bool, dict: Seq<Seq<char>>)
    ensures
        enc_value(v, depth, lim, dedup, dict).3 is None ==> enc_value(v, depth, lim, dedup, dict).2 == depth,
    decreases v,
{
    match v {
        ValueModel::Array(items) => {
            lemma_enc_items_depth(items, depth + 1, lim, dedup, dict);
        },
        ValueModel::Object(entries) => {
            lemma_enc_entries_depth(entries, depth + 1, lim, dedup, dict);
        },
        _ => {},
    }
}

proof fn lemma_enc_items_depth(items: Seq<ValueModel>, depth: int, lim: Limits, dedup: bool, dict: Seq<Seq<char>>)
    ensures
        enc_items(items, depth, lim, dedup, dict).3 is None ==> enc_items(items, depth, lim, dedup, dict).2 == depth,
    decreases items,
{
    if items.len() > 0 {
        let first = enc_value(items[0], depth, lim, dedup, dict);
        lemma_enc_value_depth(items[0], depth, lim, dedup, dict);
        if first.3 is None {
            lemma_enc_items_depth(items.subrange(1, items.len() as int), first.2, lim, dedup, first.1);
        }
    }
}

proof fn lemma_enc_entries_depth(
    entries: Seq<(Seq<char>, ValueModel)>,
    depth: int,
    lim: Limits,
    dedup: bool,
    dict: Seq<Seq<char>>,
)
    ensures
        enc_entries(entries, depth, lim, dedup, dict).3 is None ==> enc_entries(entries, depth, lim, dedup, dict).2
            == depth,
    decreases entries,
{
    if entries.len() > 0 {
        let first = enc_value(entries[0].1, depth, lim, dedup, dict);
        lemma_enc_value_depth(entries[0].1, depth, lim, dedup, dict);
        if first.3 is None {
            lemma_enc_entries_depth(entries.subrange(1, entries.len() as int), first.2, lim, dedup, first.1);
        }
    }
}


/// What the block compressor produces for `data` under `ct`, if anything:
/// zstd at level 3, Snappy or LZ4 (size-prefixed).
pub open spec fn compressed_of(ct: CompressionType, data: Seq<u8>) -> Option<Seq<u8>> {
    match ct {
        CompressionType::Uncompressed => None,
        CompressionType::Zstd => match zstd_encode_all_of(data, 3) {
            Ok(c) => Some(c),
            Err(_) => None,
        },
        CompressionType::Snappy => match snappy_compress_of(data) {
            Ok(c) => Some(c),
            Err(_) => None,
        },
        CompressionType::Lz4 => Some(lz4_compress_prepend_size_of(data)),
    }
}

/// Whether a compressed form `c` of `buf` is worth storing: it is shorter,
/// not empty, and within the decompression ratio the decoder accepts.
pub open spec fn worth_compressing(c: Seq<u8>, buf: Seq<u8>, lim: Limits) -> bool {
    &&& c.len() < buf.len()
    &&& c.len() > 0
    &&& buf.len() / c.len() <= lim.max_decompression_ratio
}

/// The wire payload of a data block holding `buf`, and its compression
/// type: `uncompressed_len(varint) | compressed bytes` when compression
/// is asked for and pays off, `buf` itself otherwise.
pub open spec fn wire_form(ct: CompressionType, buf: Seq<u8>, lim: Limits) -> (Seq<u8>, CompressionType) {
    if ct != CompressionType::Uncompressed {
        match compressed_of(ct, buf) {
            Some(c) => {
                if worth_compressing(c, buf, lim) {
                    (varint_bytes(buf.len() as u64) + c, ct)
                } else {
                    (buf, CompressionType::Uncompressed)
                }
            },
            None => (buf, CompressionType::Uncompressed),
        }
    } else {
        (buf, CompressionType::Uncompressed)
    }
}

/// Whether flushing `e` emits a string dictionary block.
pub open spec fn emits_dict(e: EncoderView) -> bool {
    e.dedup && e.dict.len() > 0
}

/// The bytes flushing appends to the output: the string dictionary block,
/// if any, then the data block; nothing when no value is buffered.
pub open spec fn flushed_bytes(e: EncoderView) -> Seq<u8> {
    if e.block_buf.len() == 0 {
        Seq::empty()
    } else {
        let dict = if emits_dict(e) {
            let p = dict_payload(e.dict);
            block_bytes(BlockType::StringDict, CompressionType::Uncompressed, spec_xxh64(p), p)
        } else {
            Seq::empty()
        };
        let (w, wc) = wire_form(e.compression, e.block_buf, e.limits);
        dict + block_bytes(BlockType::Data, wc, spec_xxh64(e.block_buf), w)
    }
}

/// The size `flush_block` reports: for each block written, its payload
/// length plus the header bytes counted as one byte each for the type,
/// the length and the compression, and eight for the checksum (the data
/// block's compression byte is not counted); saturating.
pub open spec fn flush_size(e: EncoderView) -> int {
    if e.block_buf.len() == 0 {
        0
    } else {
        let d = if emits_dict(e) {
            sat(11 + dict_payload(e.dict).len() as int)
        } else {
            0
        };
        sat(sat(d + 10) + wire_form(e.compression, e.block_buf, e.limits).0.len())
    }
}

/// The encoder after flushing `e`.
pub open spec fn after_flush(e: EncoderView) -> EncoderView {
    if e.block_buf.len() == 0 {
        e
    } else {
        EncoderView { output: e.output + flushed_bytes(e), block_buf: Seq::empty(), dict: Seq::empty(), ..e }
    }
}

/// The complete output of `finish` from state `e`: everything flushed,
/// then the trailer block, whose payload is the XXH64 of all that comes
/// before it.
pub open spec fn finished_bytes(e: EncoderView) -> Seq<u8> {
    let out = after_flush(e).output;
    let overall = spec_u64_to_le_bytes(spec_xxh64(out));
    out + block_bytes(BlockType::Trailer, CompressionType::Uncompressed, spec_xxh64(overall), overall)
}

impl Encoder {
    /// Compress `data` with the configured algorithm; `None` when no
    /// compression is configured or the library fails.
    fn compress_payload(&self, data: &[u8]) -> (r: Option<Vec<u8>>)
        ensures
            match compressed_of(self@.compression, data@) {
                Some(c) => r matches Some(v) && v@ == c,
                None => r is None,
            },
    {
        match self.compression {
            CompressionType::Uncompressed => None,
            CompressionType::Zstd => match zstd_encode_all(data, 3) {
                Ok(c) => Some(c),
                Err(_) => None,
            },
            CompressionType::Snappy => match snappy_compress(data) {
                Ok(c) => Some(c),
                Err(_) => None,
            },
            CompressionType::Lz4 => Some(lz4_compress_prepend_size(data)),
        }
    }

    /// Append the string dictionary block for the current dictionary.
    fn emit_dict_block(&mut self) -> (size: usize)
        ensures
            final(self)@ == (EncoderView {
                output: old(self)@.output + block_bytes(
                    BlockType::StringDict,
                    CompressionType::Uncompressed,
                    spec_xxh64(dict_payload(old(self)@.dict)),
                    dict_payload(old(self)@.dict),
                ),
                ..old(self)@
            }),
            size == sat(11 + dict_payload(old(self)@.dict).len() as int),
    {
        let ghost e0 = self@;
        let dict_payload = encode_string_dict_payload(&self.string_dict);
        let dict_checksum = compute_xxh64(dict_payload.as_slice());
        self.output.push(BlockType::StringDict.to_byte());
        encode_varint_vec(dict_payload.len() as u64, &mut self.output);
        self.output.push(CompressionType::Uncompressed.to_byte());
        let ck = u64_to_le_bytes(dict_checksum);
        self.output.extend_from_slice(ck.as_slice());
        self.output.extend_from_slice(dict_payload.as_slice());
        proof {
            let p = dict_payload@;
            assert(self@.output =~= e0.output + block_bytes(
                BlockType::StringDict,
                CompressionType::Uncompressed,
                spec_xxh64(p),
                p,
            ));
        }
        11usize.saturating_add(dict_payload.len())
    }

    /// Take the buffered values out as the wire payload of a data block,
    /// compressed when compression is configured and pays off.
    fn take_wire_payload(&mut self) -> (r: (Vec<u8>, CompressionType))
        ensures
            (r.0@, r.1) == wire_form(old(self)@.compression, old(self)@.block_buf, old(self)@.limits),
            final(self)@ == (EncoderView { block_buf: Seq::empty(), ..old(self)@ }),
    {
        let mut wire_comp = CompressionType::Uncompressed;
        let mut wire_payload: Vec<u8> = Vec::new();
        let mut use_buffer = true;
        if self.compression != CompressionType::Uncompressed {
            match self.compress_payload(self.block_buf.as_slice()) {
                Some(compressed) => {
                    if compressed.len() < self.block_buf.len() && compressed.len() > 0 && self.block_buf.len()
                        / compressed.len() <= self.limits.max_decompression_ratio {
                        encode_varint_vec(self.block_buf.len() as u64, &mut wire_payload);
                        wire_payload.extend_from_slice(compressed.as_slice());
                        wire_comp = self.compression;
                        use_buffer = false;
                    }
                },
                None => {},
            }
        }
        let mut buf: Vec<u8> = Vec::new();
        std::mem::swap(&mut buf, &mut self.block_buf);
        if use_buffer {
            wire_payload = buf;
        }
        (wire_payload, wire_comp)
    }

    /// Frame the buffered values as a data block (preceded by a string
    /// dictionary block when deduplication is on and the dictionary is not
    /// empty) and append it to the output. The data block's checksum is
    /// that of the uncompressed payload. Returns the size of what was
    /// written, as `flush_size` counts it.
    #[verifier::spinoff_prover]
    #[verifier::rlimit(40)]
    pub fn flush_block(&mut self) -> (r: Result<usize, SurpError>)
        ensures
            final(self)@ == after_flush(old(self)@),
            r == Ok::<usize, SurpError>(flush_size(old(self)@) as usize),
    {
        if self.block_buf.len() == 0 {
            return Ok(0);
        }
        let ghost e0 = self@;
        let mut total_size: usize = 0;
        if self.dedup_strings && self.string_dict.len() > 0 {
            total_size = self.emit_dict_block();
        }
        let ghost out1 = self@.output;
        let checksum = compute_xxh64(self.block_buf.as_slice());
        let (wire_payload, wire_comp) = self.take_wire_payload();
        self.output.push(BlockType::Data.to_byte());
        encode_varint_vec(wire_payload.len() as u64, &mut self.output);
        self.output.push(wire_comp.to_byte());
        let ck = u64_to_le_bytes(checksum);
        self.output.extend_from_slice(ck.as_slice());
        self.output.extend_from_slice(wire_payload.as_slice());
        total_size = total_size.saturating_add(10).saturating_add(wire_payload.len());
        self.string_dict.clear();
        proof {
            assert(self@.output =~= out1 + block_bytes(BlockType::Data, wire_comp, spec_xxh64(e0.block_buf), wire_payload@));
            assert(self@.output =~= e0.output + flushed_bytes(e0));
            assert(self@.dict =~= Seq::<Seq<char>>::empty());
        }
        Ok(total_size)
    }

    /// Flush the remaining values and append the trailer block, returning
    /// the complete output.
    pub fn finish(self) -> (r: Result<Vec<u8>, SurpError>)
        ensures
            r matches Ok(bytes) && bytes@ == finished_bytes(self@),
    {
        let mut this = self;
        let _ = this.flush_block();
        let overall_checksum = compute_xxh64(this.output.as_slice());
        let overall = u64_to_le_bytes(overall_checksum);
        let trailer_checksum = compute_xxh64(overall.as_slice());
        let ghost out = this@.output;
        this.output.push(BlockType::Trailer.to_byte());
        encode_varint_vec(8, &mut this.output);
        this.output.push(CompressionType::Uncompressed.to_byte());
        let tk = u64_to_le_bytes(trailer_checksum);
        this.output.extend_from_slice(tk.as_slice());
        this.output.extend_from_slice(overall.as_slice());
        proof {
            assert(overall@.len() == 8);
            assert(this.output@ =~= out + block_bytes(
                BlockType::Trailer,
                CompressionType::Uncompressed,
                spec_xxh64(overall@),
                overall@,
            ));
        }
        Ok(this.output)
    }

    /// The size of the output so far plus the values not yet flushed.
    pub fn current_size(&self) -> (r: usize)
        requires
            self@.output.len() + self@.block_buf.len() <= usize::MAX,
        ensures
            r == self@.output.len() + self@.block_buf.len(),
    {
        self.output.len() + self.block_buf.len()
    }

    /// The encoded values not yet flushed into a block.
    pub fn block_buffer(&self) -> (r: &[u8])
        ensures
            r@ == self@.block_buf,
    {
        self.block_buf.as_slice()
    }
}

impl Default for Encoder {
    fn default() -> (e: Self)
        ensures
            fresh_encoder(e@, e@.limits),
            e@.limits.max_nesting_depth == 128,
            e@.limits.max_items == 1_000_000,
            e@.limits.max_decompression_ratio == 100,
    {
        Self::new()
    }
}

} // verus!
