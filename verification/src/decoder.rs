//! Decoder for the Surp binary format.
//!
//! `decode_next` returns zero-copy `SurpValue`s that borrow from the input;
//! `decode_next_owned` returns owned `Value`s and also reads compressed
//! blocks. The decoder checks every block checksum, enforces its `Limits`,
//! and can skip values it does not need.

use crate::decode_spec::{
    array_charge, array_tail, at, charge, dec_array, dec_entries, dec_items, dec_key, dec_len_delimited, dec_object,
    dec_value, object_charge, object_tail, sat, container_tail, skip_container, skip_items, skip_key, skip_value,
    wrap_usize, DecState,
};
use crate::dict::{decode_string_dict, safe_usize, utf8_str};
use crate::error::{ErrorModel, SurpError};
use crate::limits::Limits;
use crate::value::{SurpValue, Value, ValueModel};
use crate::varint::{decode_signed_varint, decode_varint};
use crate::checksum::compute_xxh64;
use crate::codec::{lz4_decompress_size_prepended, snappy_decompress, zstd_decode_all};
use crate::render::push_text;
use crate::stream_spec::{
    all_owned, all_zc, decoder_wf, decompress_payload, frame_header, next_owned, next_zc, progress, read_block,
    zero_copy_compressed_message,
};
use crate::wire::{BlockType, CompressionType, WireType};
use vstd::bytes::u64_from_le_bytes;
use vstd::prelude::*;
use vstd::string::{StringExecFns, StringSliceAdditionalSpecFns};
use vstd::utf8::{decode_utf8, encode_utf8, valid_utf8};

verus! {

/// What a `Decoder` holds.
pub struct DecoderView {
    pub data: Seq<u8>,
    /// Read position of the next block header.
    pub pos: int,
    pub limits: Limits,
    pub depth: int,
    /// Payload bounds of the block being read, if any.
    pub current_block: Option<(usize, usize)>,
    /// Read position within the current block.
    pub block_pos: int,
    /// Memory charged so far.
    pub mem: int,
    /// Strings seen in the current block by the zero-copy decoder.
    pub str_table: Seq<Seq<char>>,
    /// Strings of the current block for the owned decoder.
    pub owned_table: Seq<Seq<char>>,
    /// Whether `owned_table` was filled from a string dictionary block.
    pub dict_preloaded: bool,
    /// The decompressed payload of the current block, if it was compressed.
    pub decompressed: Option<Seq<u8>>,
}

/// The bytes the current block is read from.
pub open spec fn block_data(v: DecoderView) -> Seq<u8> {
    match v.decompressed {
        Some(b) => b,
        None => v.data,
    }
}

/// The value-decoding state of the owned decoder.
pub open spec fn owned_state(v: DecoderView) -> DecState {
    DecState { pos: v.block_pos, depth: v.depth, mem: v.mem, table: v.owned_table }
}

/// The value-decoding state of the zero-copy decoder.
pub open spec fn zc_state(v: DecoderView) -> DecState {
    DecState { pos: v.block_pos, depth: v.depth, mem: v.mem, table: v.str_table }
}

/// `v` with the owned decoding state replaced by `st`.
pub open spec fn with_owned_state(v: DecoderView, st: DecState) -> DecoderView {
    DecoderView { block_pos: st.pos, depth: st.depth, mem: st.mem, owned_table: st.table, ..v }
}

/// `v` with the zero-copy decoding state replaced by `st`.
pub open spec fn with_zc_state(v: DecoderView, st: DecState) -> DecoderView {
    DecoderView { block_pos: st.pos, depth: st.depth, mem: st.mem, str_table: st.table, ..v }
}

/// `r` is the value outcome `m`.
pub open spec fn value_result_matches(r: Result<Value, SurpError>, m: Result<ValueModel, SurpError>) -> bool {
    match r {
        Ok(v) => m == Ok::<ValueModel, SurpError>(v@),
        Err(e) => m == Err::<ValueModel, SurpError>(e),
    }
}

/// `r` is the zero-copy value outcome `m`.
pub open spec fn surp_result_matches(r: Result<SurpValue, SurpError>, m: Result<ValueModel, SurpError>) -> bool {
    match r {
        Ok(v) => m == Ok::<ValueModel, SurpError>(v@),
        Err(e) => m == Err::<ValueModel, SurpError>(e),
    }
}

/// Decoder that reads Surp binary data and produces values.
pub struct Decoder<'a> {
    data: &'a [u8],
    pos: usize,
    limits: Limits,
    depth: usize,
    current_block: Option<(usize, usize)>,
    block_pos: usize,
    memory_used: usize,
    str_slices: Vec<&'a str>,
    owned_strings: Vec<String>,
    dict_preloaded: bool,
    decompressed_buf: Option<Vec<u8>>,
}

impl<'a> View for Decoder<'a> {
    type V = DecoderView;

    closed spec fn view(&self) -> DecoderView {
        DecoderView {
            data: self.data@,
            pos: self.pos as int,
            limits: self.limits,
            depth: self.depth as int,
            current_block: self.current_block,
            block_pos: self.block_pos as int,
            mem: self.memory_used as int,
            str_table: self.str_slices@.map_values(|s: &str| s@),
            owned_table: self.owned_strings@.map_values(|s: String| s@),
            dict_preloaded: self.dict_preloaded,
            decompressed: match self.decompressed_buf {
                Some(b) => Some(b@),
                None => None,
            },
        }
    }
}

/// The state of a decoder that has read nothing yet.
pub open spec fn fresh_decoder(v: DecoderView, data: Seq<u8>, limits: Limits) -> bool {
    &&& v.data == data
    &&& v.pos == 0
    &&& v.limits == limits
    &&& v.depth == 0
    &&& v.current_block is None
    &&& v.block_pos == 0
    &&& v.mem == 0
    &&& v.str_table == Seq::<Seq<char>>::empty()
    &&& v.owned_table == Seq::<Seq<char>>::empty()
    &&& !v.dict_preloaded
    &&& v.decompressed is None
}

impl<'a> Decoder<'a> {
    /// Create a new decoder over the given data, with default limits.
    pub fn new(data: &'a [u8]) -> (d: Self)
        ensures
            fresh_decoder(d@, data@, d@.limits),
            d@.limits.max_nesting_depth == 128,
            d@.limits.max_block_size == 64 * 1024 * 1024,
            d@.limits.max_items == 1_000_000,
            d@.limits.max_memory == 256 * 1024 * 1024,
            d@.limits.max_string_length == 16 * 1024 * 1024,
            d@.limits.max_decompression_ratio == 100,
    {
        Self::with_limits(data, Limits::default())
    }

    /// Create a decoder with custom limits.
    pub fn with_limits(data: &'a [u8], limits: Limits) -> (d: Self)
        ensures
            fresh_decoder(d@, data@, limits),
    {
        let d = Decoder {
            data,
            pos: 0,
            limits,
            depth: 0,
            current_block: None,
            block_pos: 0,
            memory_used: 0,
            str_slices: Vec::new(),
            owned_strings: Vec::new(),
            dict_preloaded: false,
            decompressed_buf: None,
        };
        proof {
            assert(d@.str_table =~= Seq::<Seq<char>>::empty());
            assert(d@.owned_table =~= Seq::<Seq<char>>::empty());
        }
        d
    }

    /// Current position in the input.
    pub fn position(&self) -> (r: usize)
        ensures
            r == self@.pos,
    {
        self.pos
    }

    /// Cumulative bytes charged against the memory limit in this session.
    pub fn memory_used(&self) -> (r: usize)
        ensures
            r == self@.mem,
    {
        self.memory_used
    }

    /// Charge `bytes` against the memory limit.
    fn track_alloc(&mut self, bytes: usize) -> (r: Result<(), SurpError>)
        ensures
            ({
                let (st, e) = charge(owned_state(old(self)@), bytes as int, old(self)@.limits);
                &&& final(self)@ == (DecoderView { mem: st.mem, ..old(self)@ })
                &&& r == match e {
                    None => Ok::<(), SurpError>(()),
                    Some(err) => Err(err),
                }
            }),
    {
        self.memory_used = self.memory_used.saturating_add(bytes);
        if self.memory_used > self.limits.max_memory {
            return Err(SurpError::MemoryLimitExceeded(self.memory_used, self.limits.max_memory));
        }
        Ok(())
    }

    /// The bytes the current block is read from.
    fn block_data(&self) -> (r: &[u8])
        ensures
            r@ == block_data(self@),
            block_data(self@).len() <= usize::MAX,
    {
        let r: &[u8] = match &self.decompressed_buf {
            Some(b) => b.as_slice(),
            None => self.data,
        };
        let n = r.len();
        assert(r@.len() == n);
        r
    }
}

/// `a * b`, capped at `usize::MAX`.
fn saturating_mul(a: usize, b: usize) -> (r: usize)
    ensures
        r == sat(a * b),
{
    match a.checked_mul(b) {
        Some(x) => x,
        None => usize::MAX,
    }
}

/// `a + b` with wrapping on overflow.
fn add_wrapping(a: usize, b: usize) -> (r: usize)
    ensures
        r == wrap_usize(a + b),
{
    if a <= usize::MAX - b {
        a + b
    } else {
        b - (usize::MAX - a) - 1
    }
}

/// The outcome of decoding `count` values, preceded by the values
/// `prefix` already decoded.
pub open spec fn glue_items(prefix: Seq<ValueModel>, r: (Result<Seq<ValueModel>, SurpError>, DecState)) -> (
    Result<Seq<ValueModel>, SurpError>,
    DecState,
) {
    (
        match r.0 {
            Ok(vs) => Ok(prefix + vs),
            Err(e) => Err(e),
        },
        r.1,
    )
}

/// The outcome of decoding `count` entries, preceded by the entries
/// `prefix` already decoded.
pub open spec fn glue_entries(
    prefix: Seq<(Seq<char>, ValueModel)>,
    r: (Result<Seq<(Seq<char>, ValueModel)>, SurpError>, DecState),
) -> (Result<Seq<(Seq<char>, ValueModel)>, SurpError>, DecState) {
    (
        match r.0 {
            Ok(es) => Ok(prefix + es),
            Err(e) => Err(e),
        },
        r.1,
    )
}

impl<'a> Decoder<'a> {
    /// Decode the value at the current block position into an owned `Value`.
    fn decode_value_owned_at(&mut self, block_end: usize) -> (r: Result<Value, SurpError>)
        requires
            block_end <= block_data(old(self)@).len(),
            old(self)@.block_pos <= block_data(old(self)@).len(),
        ensures
            ({
                let out = dec_value(block_data(old(self)@), block_end as int, old(self)@.limits, false, owned_state(old(self)@));
                &&& value_result_matches(r, out.0)
                &&& final(self)@ == with_owned_state(old(self)@, out.1)
            }),
            final(self)@.block_pos <= block_data(old(self)@).len(),
            r is Ok ==> final(self)@.block_pos > old(self)@.block_pos,
            r is Ok ==> final(self)@.depth == old(self)@.depth,
        decreases block_data(old(self)@).len() - old(self)@.block_pos, 0int,
    {
        let _dlen = self.block_data().len();
        if self.block_pos >= block_end {
            return Err(SurpError::UnexpectedEof(self.block_pos));
        }
        let tag = self.block_data()[self.block_pos];
        self.block_pos = self.block_pos + 1;
        let wire_type = match WireType::from_tag(tag) {
            Some(w) => w,
            None => {
                return Err(SurpError::InvalidWireType(tag));
            },
        };
        match wire_type {
            WireType::Null => Ok(Value::Null),
            WireType::Bool => {
                if self.block_pos >= block_end {
                    return Err(SurpError::UnexpectedEof(self.block_pos));
                }
                let b = self.block_data()[self.block_pos] != 0;
                self.block_pos = self.block_pos + 1;
                Ok(Value::Bool(b))
            },
            WireType::VarUInt => {
                match decode_varint(self.block_data(), self.block_pos) {
                    Ok((val, consumed)) => {
                        self.block_pos = self.block_pos + consumed;
                        Ok(Value::UInt(val))
                    },
                    Err(e) => Err(e),
                }
            },
            WireType::VarInt => {
                match decode_signed_varint(self.block_data(), self.block_pos) {
                    Ok((val, consumed)) => {
                        self.block_pos = self.block_pos + consumed;
                        Ok(Value::Int(val))
                    },
                    Err(e) => Err(e),
                }
            },
            WireType::Fixed64 => {
                if block_end - self.block_pos < 8 {
                    return Err(SurpError::UnexpectedEof(self.block_pos));
                }
                let bits = u64_from_le_bytes(
                    vstd::slice::slice_subrange(self.block_data(), self.block_pos, self.block_pos + 8),
                );
                self.block_pos = self.block_pos + 8;
                Ok(Value::Float(bits))
            },
            WireType::LenDelimited => self.decode_len_delimited_owned(block_end),
            WireType::StartArray => self.decode_array_owned(block_end),
            WireType::StartObject => self.decode_object_owned(block_end),
            WireType::EndObject => Err(SurpError::InvalidWireType(tag)),
            WireType::EndArray => Err(SurpError::InvalidWireType(tag)),
            WireType::Reference => {
                let (ref_id, consumed) = match decode_varint(self.block_data(), self.block_pos) {
                    Ok(x) => x,
                    Err(e) => {
                        return Err(e);
                    },
                };
                self.block_pos = self.block_pos + consumed;
                let ref_id = match safe_usize(ref_id) {
                    Ok(x) => x,
                    Err(e) => {
                        return Err(e);
                    },
                };
                if ref_id < self.owned_strings.len() {
                    Ok(Value::Str(self.owned_strings[ref_id].clone()))
                } else {
                    Err(SurpError::InvalidReference(ref_id, self.owned_strings.len()))
                }
            },
        }
    }

    /// Decode the payload of a length-delimited item into an owned value.
    fn decode_len_delimited_owned(&mut self, block_end: usize) -> (r: Result<Value, SurpError>)
        requires
            block_end <= block_data(old(self)@).len(),
            0 < old(self)@.block_pos <= block_data(old(self)@).len(),
        ensures
            ({
                let out = dec_len_delimited(block_data(old(self)@), block_end as int, old(self)@.limits, false, owned_state(old(self)@));
                &&& value_result_matches(r, out.0)
                &&& final(self)@ == with_owned_state(old(self)@, out.1)
            }),
            final(self)@.block_pos <= block_data(old(self)@).len(),
            r is Ok ==> final(self)@.block_pos > old(self)@.block_pos,
            r is Ok ==> final(self)@.depth == old(self)@.depth,
    {
        let _dlen = self.block_data().len();
        if self.block_pos >= block_end {
            return Err(SurpError::UnexpectedEof(self.block_pos));
        }
        let sub_type = self.block_data()[self.block_pos];
        self.block_pos = self.block_pos + 1;
        let (len, consumed) = match decode_varint(self.block_data(), self.block_pos) {
            Ok(x) => x,
            Err(e) => {
                return Err(e);
            },
        };
        self.block_pos = self.block_pos + consumed;
        let len = match safe_usize(len) {
            Ok(x) => x,
            Err(e) => {
                return Err(e);
            },
        };
        if len > self.limits.max_string_length {
            return Err(SurpError::StringTooLong(len, self.limits.max_string_length));
        }
        match self.track_alloc(len) {
            Ok(()) => {},
            Err(e) => {
                return Err(e);
            },
        }
        if self.block_pos > block_end || len > block_end - self.block_pos {
            return Err(SurpError::UnexpectedEof(add_wrapping(self.block_pos, len)));
        }
        let start = self.block_pos;
        let payload = vstd::slice::slice_to_vec(
            vstd::slice::slice_subrange(self.block_data(), start, start + len),
        );
        self.block_pos = self.block_pos + len;
        if sub_type == 0x00 {
            match utf8_str(payload.as_slice()) {
                Some(s) => {
                    let st: String = s.to_owned();
                    let ghost t0 = self@.owned_table;
                    self.owned_strings.push(st.clone());
                    proof {
                        assert(self@.owned_table =~= t0.push(st@));
                    }
                    Ok(Value::Str(st))
                },
                None => Err(SurpError::InvalidUtf8(start)),
            }
        } else {
            Ok(Value::Bytes(payload))
        }
    }

    /// Decode an array whose tag has been read into an owned value.
    #[verifier::rlimit(40)]
    fn decode_array_owned(&mut self, block_end: usize) -> (r: Result<Value, SurpError>)
        requires
            block_end <= block_data(old(self)@).len(),
            old(self)@.block_pos <= block_data(old(self)@).len(),
        ensures
            ({
                let out = dec_array(block_data(old(self)@), block_end as int, old(self)@.limits, false, owned_state(old(self)@));
                &&& value_result_matches(r, out.0)
                &&& final(self)@ == with_owned_state(old(self)@, out.1)
            }),
            final(self)@.block_pos <= block_data(old(self)@).len(),
            r is Ok ==> final(self)@.block_pos > old(self)@.block_pos,
            r is Ok ==> final(self)@.depth == old(self)@.depth,
        decreases block_data(old(self)@).len() - old(self)@.block_pos, 2int,
    {
        let ghost d = block_data(self@);
        let ghost lim = self@.limits;
        let _dlen = self.block_data().len();
        if self.depth >= self.limits.max_nesting_depth {
            return Err(SurpError::NestingTooDeep(self.depth, self.limits.max_nesting_depth));
        }
        let (count, consumed) = match decode_varint(self.block_data(), self.block_pos) {
            Ok(x) => x,
            Err(e) => {
                return Err(e);
            },
        };
        self.block_pos = self.block_pos + consumed;
        let count = match safe_usize(count) {
            Ok(x) => x,
            Err(e) => {
                return Err(e);
            },
        };
        if count > self.limits.max_items {
            return Err(SurpError::TooManyItems(count, self.limits.max_items));
        }
        self.depth = self.depth + 1;
        let ghost start = owned_state(self@);
        let ghost base = self@;
        let mut items: Vec<Value> = Vec::new();
        let ghost mut models: Seq<ValueModel> = Seq::empty();
        let mut i: usize = 0;
        while i < count
            invariant
                i <= count,
                d == block_data(self@),
                lim == self@.limits,
                block_end <= d.len(),
                self@.block_pos <= d.len(),
                self@.block_pos >= start.pos,
                start.pos > old(self)@.block_pos,
                d == block_data(old(self)@),
                d.len() <= usize::MAX,
                self@.depth == start.depth,
                start.depth == old(self)@.depth + 1,
                models.len() == items@.len(),
                forall|j: int| 0 <= j < models.len() ==> #[trigger] models[j] == items@[j]@,
                self@ == with_owned_state(base, owned_state(self@)),
                base == with_owned_state(old(self)@, owned_state(base)),
                dec_array(d, block_end as int, lim, false, owned_state(old(self)@)) == array_tail(d, block_end as int, dec_items(d, block_end as int, lim, false, start, count as nat)),
                dec_items(d, block_end as int, lim, false, start, count as nat) == glue_items(
                    models,
                    dec_items(d, block_end as int, lim, false, owned_state(self@), (count - i) as nat),
                ),
            decreases count - i,
        {
            let ghost before = owned_state(self@);
            let v = match self.decode_value_owned_at(block_end) {
                Ok(v) => v,
                Err(e) => {
                    proof {
                        let n = (count - i) as nat;
                        assert(dec_items(d, block_end as int, lim, false, before, n).0 == Err::<Seq<ValueModel>, SurpError>(e));
                        assert(dec_items(d, block_end as int, lim, false, before, n).1 == owned_state(self@));
                        assert(self@ == with_owned_state(old(self)@, owned_state(self@)));
                    }
                    return Err(e);
                },
            };
            proof {
                let rest = dec_items(d, block_end as int, lim, false, owned_state(self@), (count - i - 1) as nat);
                assert(models.push(v@) + rest.0->Ok_0 =~= models + (seq![v@] + rest.0->Ok_0));
                models = models.push(v@);
            }
            items.push(v);
            i = i + 1;
        }
        self.depth = self.depth - 1;
        if self.block_pos < block_end && self.block_data()[self.block_pos] == WireType::EndArray.to_tag() {
            self.block_pos = self.block_pos + 1;
        }
        let r = Value::Array(items);
        proof {
            reveal_with_fuel(<Value as View>::view, 2);
            assert(models + Seq::<ValueModel>::empty() =~= models);
            assert(r@->Array_0 =~= models);
        }
        Ok(r)
    }

    /// Decode an object whose tag has been read into an owned value.
    #[verifier::rlimit(40)]
    fn decode_object_owned(&mut self, block_end: usize) -> (r: Result<Value, SurpError>)
        requires
            block_end <= block_data(old(self)@).len(),
            old(self)@.block_pos <= block_data(old(self)@).len(),
        ensures
            ({
                let out = dec_object(block_data(old(self)@), block_end as int, old(self)@.limits, false, owned_state(old(self)@));
                &&& value_result_matches(r, out.0)
                &&& final(self)@ == with_owned_state(old(self)@, out.1)
            }),
            final(self)@.block_pos <= block_data(old(self)@).len(),
            r is Ok ==> final(self)@.block_pos > old(self)@.block_pos,
            r is Ok ==> final(self)@.depth == old(self)@.depth,
        decreases block_data(old(self)@).len() - old(self)@.block_pos, 2int,
    {
        let ghost d = block_data(self@);
        let ghost lim = self@.limits;
        let _dlen = self.block_data().len();
        if self.depth >= self.limits.max_nesting_depth {
            return Err(SurpError::NestingTooDeep(self.depth, self.limits.max_nesting_depth));
        }
        let (count, consumed) = match decode_varint(self.block_data(), self.block_pos) {
            Ok(x) => x,
            Err(e) => {
                return Err(e);
            },
        };
        self.block_pos = self.block_pos + consumed;
        let count = match safe_usize(count) {
            Ok(x) => x,
            Err(e) => {
                return Err(e);
            },
        };
        if count > self.limits.max_items {
            return Err(SurpError::TooManyItems(count, self.limits.max_items));
        }
        self.depth = self.depth + 1;
        let ghost start = owned_state(self@);
        let ghost base = self@;
        let mut entries: Vec<(String, Value)> = Vec::new();
        let ghost mut models: Seq<(Seq<char>, ValueModel)> = Seq::empty();
        let mut i: usize = 0;
        while i < count
            invariant
                i <= count,
                d == block_data(self@),
                lim == self@.limits,
                block_end <= d.len(),
                self@.block_pos <= d.len(),
                self@.block_pos >= start.pos,
                start.pos > old(self)@.block_pos,
                d == block_data(old(self)@),
                d.len() <= usize::MAX,
                self@.depth == start.depth,
                start.depth == old(self)@.depth + 1,
                models.len() == entries@.len(),
                forall|j: int| 0 <= j < models.len() ==> #[trigger] models[j] == (entries@[j].0@, entries@[j].1@),
                self@ == with_owned_state(base, owned_state(self@)),
                base == with_owned_state(old(self)@, owned_state(base)),
                dec_object(d, block_end as int, lim, false, owned_state(old(self)@)) == object_tail(d, block_end as int, dec_entries(d, block_end as int, lim, false, start, count as nat)),
                dec_entries(d, block_end as int, lim, false, start, count as nat) == glue_entries(
                    models,
                    dec_entries(d, block_end as int, lim, false, owned_state(self@), (count - i) as nat),
                ),
            decreases count - i,
        {
            let ghost before = owned_state(self@);
            let key = match self.decode_key_owned(block_end) {
                Ok(k) => k,
                Err(e) => {
                    proof {
                        let n = (count - i) as nat;
                        assert(dec_entries(d, block_end as int, lim, false, before, n).0 == Err::<Seq<(Seq<char>, ValueModel)>, SurpError>(e));
                        assert(dec_entries(d, block_end as int, lim, false, before, n).1 == owned_state(self@));
                        assert(self@ == with_owned_state(old(self)@, owned_state(self@)));
                    }
                    return Err(e);
                },
            };
            let ghost after_key = owned_state(self@);
            let v = match self.decode_value_owned_at(block_end) {
                Ok(v) => v,
                Err(e) => {
                    proof {
                        let n = (count - i) as nat;
                        assert(dec_key(d, block_end as int, before).1 == after_key);
                        assert(dec_entries(d, block_end as int, lim, false, before, n).0 == Err::<Seq<(Seq<char>, ValueModel)>, SurpError>(e));
                        assert(dec_entries(d, block_end as int, lim, false, before, n).1 == owned_state(self@));
                        assert(self@ == with_owned_state(old(self)@, owned_state(self@)));
                    }
                    return Err(e);
                },
            };
            proof {
                let rest = dec_entries(d, block_end as int, lim, false, owned_state(self@), (count - i - 1) as nat);
                assert(models.push((key@, v@)) + rest.0->Ok_0 =~= models + (seq![(key@, v@)] + rest.0->Ok_0));
                models = models.push((key@, v@));
            }
            entries.push((key, v));
            i = i + 1;
        }
        self.depth = self.depth - 1;
        if self.block_pos < block_end && self.block_data()[self.block_pos] == WireType::EndObject.to_tag() {
            self.block_pos = self.block_pos + 1;
        }
        let r = Value::Object(entries);
        proof {
            reveal_with_fuel(<Value as View>::view, 2);
            assert(models + Seq::<(Seq<char>, ValueModel)>::empty() =~= models);
            assert(r@->Object_0 =~= models);
        }
        Ok(r)
    }

    /// Decode the key of an object entry as an owned string.
    fn decode_key_owned(&mut self, block_end: usize) -> (r: Result<String, SurpError>)
        requires
            block_end <= block_data(old(self)@).len(),
            old(self)@.block_pos <= block_data(old(self)@).len(),
        ensures
            ({
                let out = dec_key(block_data(old(self)@), block_end as int, owned_state(old(self)@));
                &&& match r {
                    Ok(k) => out.0 == Ok::<Seq<char>, SurpError>(k@),
                    Err(e) => out.0 == Err::<Seq<char>, SurpError>(e),
                }
                &&& final(self)@ == with_owned_state(old(self)@, out.1)
            }),
            final(self)@.block_pos <= block_data(old(self)@).len(),
            final(self)@.block_pos >= old(self)@.block_pos,
            final(self)@.depth == old(self)@.depth,
    {
        let _dlen = self.block_data().len();
        let (key_len, kc) = match decode_varint(self.block_data(), self.block_pos) {
            Ok(x) => x,
            Err(e) => {
                return Err(e);
            },
        };
        self.block_pos = self.block_pos + kc;
        let key_len = match safe_usize(key_len) {
            Ok(x) => x,
            Err(e) => {
                return Err(e);
            },
        };
        if self.block_pos > block_end || key_len > block_end - self.block_pos {
            return Err(SurpError::UnexpectedEof(add_wrapping(self.block_pos, key_len)));
        }
        let start = self.block_pos;
        let key = match utf8_str(vstd::slice::slice_subrange(self.block_data(), start, start + key_len)) {
            Some(s) => s.to_owned(),
            None => {
                return Err(SurpError::InvalidUtf8(start));
            },
        };
        self.block_pos = self.block_pos + key_len;
        Ok(key)
    }
}


impl<'a> Decoder<'a> {
    /// Decode the value at the current block position, borrowing strings and
    /// bytes from the input.
    fn decode_value_at(&mut self, block_end: usize) -> (r: Result<SurpValue<'a>, SurpError>)
        requires
            block_end <= old(self)@.data.len(),
            old(self)@.block_pos <= old(self)@.data.len(),
        ensures
            ({
                let out = dec_value(old(self)@.data, block_end as int, old(self)@.limits, true, zc_state(old(self)@));
                &&& surp_result_matches(r, out.0)
                &&& final(self)@ == with_zc_state(old(self)@, out.1)
            }),
            final(self)@.block_pos <= old(self)@.data.len(),
            r is Ok ==> final(self)@.block_pos > old(self)@.block_pos,
            r is Ok ==> final(self)@.depth == old(self)@.depth,
        decreases old(self)@.data.len() - old(self)@.block_pos, 0int,
    {
        let _dlen = self.data.len();
        assert(self@.data.len() == _dlen);
        if self.block_pos >= block_end {
            return Err(SurpError::UnexpectedEof(self.block_pos));
        }
        let tag = self.data[self.block_pos];
        self.block_pos = self.block_pos + 1;
        let wire_type = match WireType::from_tag(tag) {
            Some(w) => w,
            None => {
                return Err(SurpError::InvalidWireType(tag));
            },
        };
        match wire_type {
            WireType::Null => Ok(SurpValue::Null),
            WireType::Bool => {
                if self.block_pos >= block_end {
                    return Err(SurpError::UnexpectedEof(self.block_pos));
                }
                let b = self.data[self.block_pos] != 0;
                self.block_pos = self.block_pos + 1;
                Ok(SurpValue::Bool(b))
            },
            WireType::VarUInt => {
                match decode_varint(self.data, self.block_pos) {
                    Ok((val, consumed)) => {
                        self.block_pos = self.block_pos + consumed;
                        Ok(SurpValue::UInt(val))
                    },
                    Err(e) => Err(e),
                }
            },
            WireType::VarInt => {
                match decode_signed_varint(self.data, self.block_pos) {
                    Ok((val, consumed)) => {
                        self.block_pos = self.block_pos + consumed;
                        Ok(SurpValue::Int(val))
                    },
                    Err(e) => Err(e),
                }
            },
            WireType::Fixed64 => {
                if block_end - self.block_pos < 8 {
                    return Err(SurpError::UnexpectedEof(self.block_pos));
                }
                let bits = u64_from_le_bytes(
                    vstd::slice::slice_subrange(self.data, self.block_pos, self.block_pos + 8),
                );
                self.block_pos = self.block_pos + 8;
                Ok(SurpValue::Float(bits))
            },
            WireType::LenDelimited => self.decode_len_delimited_zc(block_end),
            WireType::StartArray => self.decode_array_zc(block_end),
            WireType::StartObject => self.decode_object_zc(block_end),
            WireType::EndObject => Err(SurpError::InvalidWireType(tag)),
            WireType::EndArray => Err(SurpError::InvalidWireType(tag)),
            WireType::Reference => {
                let (ref_id, consumed) = match decode_varint(self.data, self.block_pos) {
                    Ok(x) => x,
                    Err(e) => {
                        return Err(e);
                    },
                };
                self.block_pos = self.block_pos + consumed;
                let ref_id = match safe_usize(ref_id) {
                    Ok(x) => x,
                    Err(e) => {
                        return Err(e);
                    },
                };
                if ref_id < self.str_slices.len() {
                    Ok(SurpValue::Str(self.str_slices[ref_id]))
                } else {
                    Err(SurpError::InvalidReference(ref_id, self.str_slices.len()))
                }
            },
        }
    }

    /// Decode the payload of a length-delimited item, borrowing from the input.
    fn decode_len_delimited_zc(&mut self, block_end: usize) -> (r: Result<SurpValue<'a>, SurpError>)
        requires
            block_end <= old(self)@.data.len(),
            0 < old(self)@.block_pos <= old(self)@.data.len(),
        ensures
            ({
                let out = dec_len_delimited(old(self)@.data, block_end as int, old(self)@.limits, true, zc_state(old(self)@));
                &&& surp_result_matches(r, out.0)
                &&& final(self)@ == with_zc_state(old(self)@, out.1)
            }),
            final(self)@.block_pos <= old(self)@.data.len(),
            r is Ok ==> final(self)@.block_pos > old(self)@.block_pos,
            r is Ok ==> final(self)@.depth == old(self)@.depth,
    {
        let _dlen = self.data.len();
        assert(self@.data.len() == _dlen);
        if self.block_pos >= block_end {
            return Err(SurpError::UnexpectedEof(self.block_pos));
        }
        let sub_type = self.data[self.block_pos];
        self.block_pos = self.block_pos + 1;
        let (len, consumed) = match decode_varint(self.data, self.block_pos) {
            Ok(x) => x,
            Err(e) => {
                return Err(e);
            },
        };
        self.block_pos = self.block_pos + consumed;
        let len = match safe_usize(len) {
            Ok(x) => x,
            Err(e) => {
                return Err(e);
            },
        };
        if len > self.limits.max_string_length {
            return Err(SurpError::StringTooLong(len, self.limits.max_string_length));
        }
        match self.track_alloc(len) {
            Ok(()) => {},
            Err(e) => {
                return Err(e);
            },
        }
        if self.block_pos > block_end || len > block_end - self.block_pos {
            return Err(SurpError::UnexpectedEof(add_wrapping(self.block_pos, len)));
        }
        let start = self.block_pos;
        let data: &'a [u8] = self.data;
        let payload: &'a [u8] = vstd::slice::slice_subrange(data, start, start + len);
        self.block_pos = self.block_pos + len;
        if sub_type == 0x00 {
            match utf8_str(payload) {
                Some(s) => {
                    let ghost t0 = self@.str_table;
                    self.str_slices.push(s);
                    proof {
                        assert(self@.str_table =~= t0.push(s@));
                    }
                    Ok(SurpValue::Str(s))
                },
                None => Err(SurpError::InvalidUtf8(start)),
            }
        } else {
            Ok(SurpValue::Bytes(payload))
        }
    }

    /// Decode an array whose tag has been read, borrowing from the input.
    #[verifier::rlimit(40)]
    fn decode_array_zc(&mut self, block_end: usize) -> (r: Result<SurpValue<'a>, SurpError>)
        requires
            block_end <= old(self)@.data.len(),
            old(self)@.block_pos <= old(self)@.data.len(),
        ensures
            ({
                let out = dec_array(old(self)@.data, block_end as int, old(self)@.limits, true, zc_state(old(self)@));
                &&& surp_result_matches(r, out.0)
                &&& final(self)@ == with_zc_state(old(self)@, out.1)
            }),
            final(self)@.block_pos <= old(self)@.data.len(),
            r is Ok ==> final(self)@.block_pos > old(self)@.block_pos,
            r is Ok ==> final(self)@.depth == old(self)@.depth,
        decreases old(self)@.data.len() - old(self)@.block_pos, 2int,
    {
        let ghost d = self@.data;
        let ghost lim = self@.limits;
        let _dlen = self.data.len();
        assert(self@.data.len() == _dlen);
        if self.depth >= self.limits.max_nesting_depth {
            return Err(SurpError::NestingTooDeep(self.depth, self.limits.max_nesting_depth));
        }
        let (count, consumed) = match decode_varint(self.data, self.block_pos) {
            Ok(x) => x,
            Err(e) => {
                return Err(e);
            },
        };
        self.block_pos = self.block_pos + consumed;
        let count = match safe_usize(count) {
            Ok(x) => x,
            Err(e) => {
                return Err(e);
            },
        };
        if count > self.limits.max_items {
            return Err(SurpError::TooManyItems(count, self.limits.max_items));
        }
        let capped = if count < 1024 { count } else { 1024 };
        let alloc = saturating_mul(capped, core::mem::size_of::<SurpValue>());
        match self.track_alloc(alloc) {
            Ok(()) => {},
            Err(e) => {
                return Err(e);
            },
        }
        self.depth = self.depth + 1;
        let ghost start = zc_state(self@);
        let ghost base = self@;
        let mut items: Vec<SurpValue<'a>> = Vec::new();
        let ghost mut models: Seq<ValueModel> = Seq::empty();
        let mut i: usize = 0;
        while i < count
            invariant
                i <= count,
                d == self@.data,
                lim == self@.limits,
                block_end <= d.len(),
                self@.block_pos <= d.len(),
                self@.block_pos >= start.pos,
                start.pos > old(self)@.block_pos,
                d == old(self)@.data,
                d.len() <= usize::MAX,
                self@.depth == start.depth,
                start.depth == old(self)@.depth + 1,
                models.len() == items@.len(),
                forall|j: int| 0 <= j < models.len() ==> #[trigger] models[j] == items@[j]@,
                self@ == with_zc_state(base, zc_state(self@)),
                base == with_zc_state(old(self)@, zc_state(base)),
                dec_array(d, block_end as int, lim, true, zc_state(old(self)@)) == array_tail(d, block_end as int, dec_items(d, block_end as int, lim, true, start, count as nat)),
                dec_items(d, block_end as int, lim, true, start, count as nat) == glue_items(
                    models,
                    dec_items(d, block_end as int, lim, true, zc_state(self@), (count - i) as nat),
                ),
            decreases count - i,
        {
            let ghost before = zc_state(self@);
            let v = match self.decode_value_at(block_end) {
                Ok(v) => v,
                Err(e) => {
                    proof {
                        let n = (count - i) as nat;
                        assert(dec_items(d, block_end as int, lim, true, before, n).0 == Err::<Seq<ValueModel>, SurpError>(e));
                        assert(dec_items(d, block_end as int, lim, true, before, n).1 == zc_state(self@));
                        assert(self@ == with_zc_state(old(self)@, zc_state(self@)));
                    }
                    return Err(e);
                },
            };
            proof {
                let rest = dec_items(d, block_end as int, lim, true, zc_state(self@), (count - i - 1) as nat);
                assert(models.push(v@) + rest.0->Ok_0 =~= models + (seq![v@] + rest.0->Ok_0));
                models = models.push(v@);
            }
            items.push(v);
            i = i + 1;
        }
        self.depth = self.depth - 1;
        if self.block_pos < block_end && self.data[self.block_pos] == WireType::EndArray.to_tag() {
            self.block_pos = self.block_pos + 1;
        }
        let r = SurpValue::Array(items);
        proof {
            reveal_with_fuel(<SurpValue as View>::view, 2);
            assert(models + Seq::<ValueModel>::empty() =~= models);
            assert(r@->Array_0 =~= models);
        }
        Ok(r)
    }

    /// Decode an object whose tag has been read, borrowing from the input.
    #[verifier::rlimit(40)]
    fn decode_object_zc(&mut self, block_end: usize) -> (r: Result<SurpValue<'a>, SurpError>)
        requires
            block_end <= old(self)@.data.len(),
            old(self)@.block_pos <= old(self)@.data.len(),
        ensures
            ({
                let out = dec_object(old(self)@.data, block_end as int, old(self)@.limits, true, zc_state(old(self)@));
                &&& surp_result_matches(r, out.0)
                &&& final(self)@ == with_zc_state(old(self)@, out.1)
            }),
            final(self)@.block_pos <= old(self)@.data.len(),
            r is Ok ==> final(self)@.block_pos > old(self)@.block_pos,
            r is Ok ==> final(self)@.depth == old(self)@.depth,
        decreases old(self)@.data.len() - old(self)@.block_pos, 2int,
    {
        let ghost d = self@.data;
        let ghost lim = self@.limits;
        let _dlen = self.data.len();
        assert(self@.data.len() == _dlen);
        if self.depth >= self.limits.max_nesting_depth {
            return Err(SurpError::NestingTooDeep(self.depth, self.limits.max_nesting_depth));
        }
        let (count, consumed) = match decode_varint(self.data, self.block_pos) {
            Ok(x) => x,
            Err(e) => {
                return Err(e);
            },
        };
        self.block_pos = self.block_pos + consumed;
        let count = match safe_usize(count) {
            Ok(x) => x,
            Err(e) => {
                return Err(e);
            },
        };
        if count > self.limits.max_items {
            return Err(SurpError::TooManyItems(count, self.limits.max_items));
        }
        let capped = if count < 1024 { count } else { 1024 };
        let per_entry = core::mem::size_of::<&str>().saturating_add(core::mem::size_of::<SurpValue>());
        let alloc = saturating_mul(capped, per_entry);
        match self.track_alloc(alloc) {
            Ok(()) => {},
            Err(e) => {
                return Err(e);
            },
        }
        self.depth = self.depth + 1;
        let ghost start = zc_state(self@);
        let ghost base = self@;
        let mut entries: Vec<(&'a str, SurpValue<'a>)> = Vec::new();
        let ghost mut models: Seq<(Seq<char>, ValueModel)> = Seq::empty();
        let mut i: usize = 0;
        while i < count
            invariant
                i <= count,
                d == self@.data,
                lim == self@.limits,
                block_end <= d.len(),
                self@.block_pos <= d.len(),
                self@.block_pos >= start.pos,
                start.pos > old(self)@.block_pos,
                d == old(self)@.data,
                d.len() <= usize::MAX,
                self@.depth == start.depth,
                start.depth == old(self)@.depth + 1,
                models.len() == entries@.len(),
                forall|j: int| 0 <= j < models.len() ==> #[trigger] models[j] == (entries@[j].0@, entries@[j].1@),
                self@ == with_zc_state(base, zc_state(self@)),
                base == with_zc_state(old(self)@, zc_state(base)),
                dec_object(d, block_end as int, lim, true, zc_state(old(self)@)) == object_tail(d, block_end as int, dec_entries(d, block_end as int, lim, true, start, count as nat)),
                dec_entries(d, block_end as int, lim, true, start, count as nat) == glue_entries(
                    models,
                    dec_entries(d, block_end as int, lim, true, zc_state(self@), (count - i) as nat),
                ),
            decreases count - i,
        {
            let ghost before = zc_state(self@);
            let key = match self.decode_key_zc(block_end) {
                Ok(k) => k,
                Err(e) => {
                    proof {
                        let n = (count - i) as nat;
                        assert(dec_entries(d, block_end as int, lim, true, before, n).0 == Err::<Seq<(Seq<char>, ValueModel)>, SurpError>(e));
                        assert(dec_entries(d, block_end as int, lim, true, before, n).1 == zc_state(self@));
                        assert(self@ == with_zc_state(old(self)@, zc_state(self@)));
                    }
                    return Err(e);
                },
            };
            let ghost after_key = zc_state(self@);
            let v = match self.decode_value_at(block_end) {
                Ok(v) => v,
                Err(e) => {
                    proof {
                        let n = (count - i) as nat;
                        assert(dec_key(d, block_end as int, before).1 == after_key);
                        assert(dec_entries(d, block_end as int, lim, true, before, n).0 == Err::<Seq<(Seq<char>, ValueModel)>, SurpError>(e));
                        assert(dec_entries(d, block_end as int, lim, true, before, n).1 == zc_state(self@));
                        assert(self@ == with_zc_state(old(self)@, zc_state(self@)));
                    }
                    return Err(e);
                },
            };
            proof {
                let rest = dec_entries(d, block_end as int, lim, true, zc_state(self@), (count - i - 1) as nat);
                assert(models.push((key@, v@)) + rest.0->Ok_0 =~= models + (seq![(key@, v@)] + rest.0->Ok_0));
                models = models.push((key@, v@));
            }
            entries.push((key, v));
            i = i + 1;
        }
        self.depth = self.depth - 1;
        if self.block_pos < block_end && self.data[self.block_pos] == WireType::EndObject.to_tag() {
            self.block_pos = self.block_pos + 1;
        }
        let r = SurpValue::Object(entries);
        proof {
            reveal_with_fuel(<SurpValue as View>::view, 2);
            assert(models + Seq::<(Seq<char>, ValueModel)>::empty() =~= models);
            assert(r@->Object_0 =~= models);
        }
        Ok(r)
    }

    /// Decode the key of an object entry, borrowing it from the input.
    fn decode_key_zc(&mut self, block_end: usize) -> (r: Result<&'a str, SurpError>)
        requires
            block_end <= old(self)@.data.len(),
            old(self)@.block_pos <= old(self)@.data.len(),
        ensures
            ({
                let out = dec_key(old(self)@.data, block_end as int, zc_state(old(self)@));
                &&& match r {
                    Ok(k) => out.0 == Ok::<Seq<char>, SurpError>(k@),
                    Err(e) => out.0 == Err::<Seq<char>, SurpError>(e),
                }
                &&& final(self)@ == with_zc_state(old(self)@, out.1)
            }),
            final(self)@.block_pos <= old(self)@.data.len(),
            final(self)@.block_pos >= old(self)@.block_pos,
            final(self)@.depth == old(self)@.depth,
    {
        let _dlen = self.data.len();
        assert(self@.data.len() == _dlen);
        let (key_len, kc) = match decode_varint(self.data, self.block_pos) {
            Ok(x) => x,
            Err(e) => {
                return Err(e);
            },
        };
        self.block_pos = self.block_pos + kc;
        let key_len = match safe_usize(key_len) {
            Ok(x) => x,
            Err(e) => {
                return Err(e);
            },
        };
        if self.block_pos > block_end || key_len > block_end - self.block_pos {
            return Err(SurpError::UnexpectedEof(add_wrapping(self.block_pos, key_len)));
        }
        let start = self.block_pos;
        let data: &'a [u8] = self.data;
        let key = match utf8_str(vstd::slice::slice_subrange(data, start, start + key_len)) {
            Some(s) => s,
            None => {
                return Err(SurpError::InvalidUtf8(start));
            },
        };
        self.block_pos = self.block_pos + key_len;
        Ok(key)
    }
}

/// `v` with the block position and depth set to `pos` and `depth`.
pub open spec fn with_skip_state(v: DecoderView, pos: int, depth: int) -> DecoderView {
    DecoderView { block_pos: pos, depth: depth, ..v }
}

impl<'a> Decoder<'a> {
    /// Skip the value at the current block position without building it.
    /// Every length is checked against `block_end`, and item counts and
    /// nesting depth against the decoder's limits.
    pub fn skip_value_at(&mut self, block_end: usize) -> (r: Result<(), SurpError>)
        requires
            block_end <= old(self)@.data.len(),
        ensures
            ({
                let out = skip_value(old(self)@.data, block_end as int, old(self)@.limits, old(self)@.block_pos, old(self)@.depth);
                &&& r == out.0
                &&& final(self)@ == with_skip_state(old(self)@, out.1, out.2)
            }),
            r is Ok ==> old(self)@.block_pos < final(self)@.block_pos <= block_end,
            r is Ok ==> final(self)@.depth == old(self)@.depth,
        decreases old(self)@.data.len() - old(self)@.block_pos, 0int,
    {
        let _dlen = self.data.len();
        assert(self@.data.len() == _dlen);
        if self.block_pos >= block_end {
            return Err(SurpError::UnexpectedEof(self.block_pos));
        }
        let tag = self.data[self.block_pos];
        self.block_pos = self.block_pos + 1;
        let wire_type = match WireType::from_tag(tag) {
            Some(w) => w,
            None => {
                return Err(SurpError::InvalidWireType(tag));
            },
        };
        match wire_type {
            WireType::Null => {},
            WireType::EndObject => {},
            WireType::EndArray => {},
            WireType::Bool => {
                if self.block_pos >= block_end {
                    return Err(SurpError::UnexpectedEof(self.block_pos));
                }
                self.block_pos = self.block_pos + 1;
            },
            WireType::VarUInt | WireType::VarInt | WireType::Reference => {
                if self.block_pos >= block_end {
                    return Err(SurpError::UnexpectedEof(self.block_pos));
                }
                let (_val, consumed) = match decode_varint(self.data, self.block_pos) {
                    Ok(x) => x,
                    Err(e) => {
                        return Err(e);
                    },
                };
                if self.block_pos + consumed > block_end {
                    return Err(SurpError::UnexpectedEof(self.block_pos + consumed));
                }
                self.block_pos = self.block_pos + consumed;
            },
            WireType::Fixed64 => {
                if block_end - self.block_pos < 8 {
                    return Err(SurpError::UnexpectedEof(self.block_pos));
                }
                self.block_pos = self.block_pos + 8;
            },
            WireType::LenDelimited => {
                if self.block_pos >= block_end {
                    return Err(SurpError::UnexpectedEof(self.block_pos));
                }
                self.block_pos = self.block_pos + 1;
                let (len, consumed) = match decode_varint(self.data, self.block_pos) {
                    Ok(x) => x,
                    Err(e) => {
                        return Err(e);
                    },
                };
                self.block_pos = self.block_pos + consumed;
                let len = match safe_usize(len) {
                    Ok(x) => x,
                    Err(e) => {
                        return Err(e);
                    },
                };
                if self.block_pos > block_end || len > block_end - self.block_pos {
                    return Err(SurpError::UnexpectedEof(add_wrapping(self.block_pos, len)));
                }
                self.block_pos = self.block_pos + len;
            },
            WireType::StartArray => {
                return self.skip_container(block_end, false);
            },
            WireType::StartObject => {
                return self.skip_container(block_end, true);
            },
        }
        Ok(())
    }

    /// Skip an array (or, when `object`, an object) whose tag has been read.
    #[verifier::rlimit(40)]
    fn skip_container(&mut self, block_end: usize, object: bool) -> (r: Result<(), SurpError>)
        requires
            block_end <= old(self)@.data.len(),
            old(self)@.block_pos <= old(self)@.data.len(),
        ensures
            ({
                let out = skip_container(old(self)@.data, block_end as int, old(self)@.limits, old(self)@.block_pos, old(self)@.depth, object);
                &&& r == out.0
                &&& final(self)@ == with_skip_state(old(self)@, out.1, out.2)
            }),
            r is Ok ==> old(self)@.block_pos < final(self)@.block_pos <= block_end,
            r is Ok ==> final(self)@.depth == old(self)@.depth,
        decreases old(self)@.data.len() - old(self)@.block_pos, 2int,
    {
        let _dlen = self.data.len();
        assert(self@.data.len() == _dlen);
        let ghost d = self@.data;
        let ghost lim = self@.limits;
        if self.block_pos >= block_end {
            return Err(SurpError::UnexpectedEof(self.block_pos));
        }
        let (count, consumed) = match decode_varint(self.data, self.block_pos) {
            Ok(x) => x,
            Err(e) => {
                return Err(e);
            },
        };
        if consumed > block_end - self.block_pos {
            return Err(SurpError::UnexpectedEof(self.block_pos + consumed));
        }
        self.block_pos = self.block_pos + consumed;
        let count = match safe_usize(count) {
            Ok(x) => x,
            Err(e) => {
                return Err(e);
            },
        };
        if count > self.limits.max_items {
            return Err(SurpError::TooManyItems(count, self.limits.max_items));
        }
        if self.depth >= self.limits.max_nesting_depth {
            return Err(SurpError::NestingTooDeep(self.depth, self.limits.max_nesting_depth));
        }
        self.depth = self.depth + 1;
        let ghost start_pos = self@.block_pos;
        let ghost start_depth = self@.depth;
        let ghost base = self@;
        let mut i: usize = 0;
        while i < count
            invariant
                i <= count,
                d == self@.data,
                d == old(self)@.data,
                lim == self@.limits,
                block_end <= d.len(),
                d.len() <= usize::MAX,
                self@.block_pos <= block_end,
                self@.block_pos >= start_pos,
                start_pos > old(self)@.block_pos,
                self@.depth == start_depth,
                start_depth == old(self)@.depth + 1,
                self@ == with_skip_state(base, self@.block_pos, self@.depth),
                base == with_skip_state(old(self)@, base.block_pos, base.depth),
                skip_container(d, block_end as int, lim, old(self)@.block_pos, old(self)@.depth, object)
                    == container_tail(d, block_end as int, object, skip_items(d, block_end as int, lim, start_pos, start_depth, count as nat, object)),
                skip_items(d, block_end as int, lim, start_pos, start_depth, count as nat, object)
                    == skip_items(d, block_end as int, lim, self@.block_pos, self@.depth, (count - i) as nat, object),
            decreases count - i,
        {
            let ghost before_pos = self@.block_pos;
            if object {
                let (key_len, kc) = match decode_varint(self.data, self.block_pos) {
                    Ok(x) => x,
                    Err(e) => {
                        return Err(e);
                    },
                };
                self.block_pos = self.block_pos + kc;
                let key_len = match safe_usize(key_len) {
                    Ok(x) => x,
                    Err(e) => {
                        return Err(e);
                    },
                };
                if self.block_pos > block_end || key_len > block_end - self.block_pos {
                    return Err(SurpError::UnexpectedEof(add_wrapping(self.block_pos, key_len)));
                }
                self.block_pos = self.block_pos + key_len;
            }
            proof {
                assert(skip_key(d, block_end as int, before_pos, self@.depth).1 == self@.block_pos || !object);
            }
            match self.skip_value_at(block_end) {
                Ok(()) => {},
                Err(e) => {
                    return Err(e);
                },
            }
            i = i + 1;
        }
        self.depth = self.depth - 1;
        let close: u8 = if object { WireType::EndObject.to_tag() } else { WireType::EndArray.to_tag() };
        if self.block_pos < block_end && self.data[self.block_pos] == close {
            self.block_pos = self.block_pos + 1;
        }
        Ok(())
    }
}

} // verus!

verus! {

/// The parts of the decoder state that reading a block leaves alone.
pub open spec fn unchanged_by_block_read(v: DecoderView, v2: DecoderView) -> bool {
    &&& v2.data == v.data
    &&& v2.limits == v.limits
    &&& v2.depth == v.depth
    &&& v2.current_block == v.current_block
    &&& v2.block_pos == v.block_pos
    &&& v2.mem == v.mem
    &&& v2.str_table == v.str_table
}

/// A failed library call as a decompression error, its text behind `prefix`.
fn library_error(prefix: &str, m: String) -> (e: SurpError)
    ensures
        e@ == ErrorModel::DecompressionError(prefix@ + m@),
{
    let mut s = String::new();
    push_text(&mut s, prefix);
    push_text(&mut s, m.as_str());
    proof {
        assert(s@ =~= prefix@ + m@);
    }
    SurpError::DecompressionError(s)
}

/// Decompress the wire payload of a compressed block:
/// `uncompressed_len(varint) | compressed bytes`.
fn decompress_block(ct: CompressionType, wire: &[u8], limits: &Limits) -> (r: Result<Vec<u8>, SurpError>)
    ensures
        match decompress_payload(ct, wire@, *limits) {
            Ok(b) => r matches Ok(v) && v@ == b,
            Err(e) => r matches Err(e2) && e2@ == e,
        },
{
    let (uncomp_len64, prefix_consumed) = match decode_varint(wire, 0) {
        Ok(x) => x,
        Err(e) => {
            return Err(e);
        },
    };
    let uncomp_len = match safe_usize(uncomp_len64) {
        Ok(x) => x,
        Err(e) => {
            return Err(e);
        },
    };
    if uncomp_len > limits.max_block_size {
        return Err(SurpError::BlockTooLarge(uncomp_len, limits.max_block_size));
    }
    let compressed = vstd::slice::slice_subrange(wire, prefix_consumed, wire.len());
    if compressed.len() > 0 {
        let ratio = uncomp_len / compressed.len();
        if ratio > limits.max_decompression_ratio {
            return Err(
                SurpError::DecompressionRatioExceeded {
                    max_ratio: limits.max_decompression_ratio,
                    compressed: compressed.len(),
                    uncompressed: uncomp_len,
                },
            );
        }
    }
    match ct {
        CompressionType::Uncompressed => Ok(vstd::slice::slice_to_vec(compressed)),
        CompressionType::Zstd => match zstd_decode_all(compressed) {
            Ok(b) => Ok(b),
            Err(m) => Err(library_error("zstd: ", m)),
        },
        CompressionType::Snappy => match snappy_decompress(compressed) {
            Ok(b) => Ok(b),
            Err(m) => Err(library_error("snappy: ", m)),
        },
        CompressionType::Lz4 => match lz4_decompress_size_prepended(compressed) {
            Ok(b) => Ok(b),
            Err(m) => Err(library_error("lz4: ", m)),
        },
    }
}

impl<'a> Decoder<'a> {
    /// Read the header of the block at the read position and move past its
    /// payload; `None` at the end of the input or at the trailer.
    fn read_frame_header(&mut self) -> (r: Result<Option<(BlockType, CompressionType, u64, usize, usize)>, SurpError>)
        requires
            0 <= old(self)@.pos <= old(self)@.data.len(),
        ensures
            ({
                let (h, p) = frame_header(old(self)@.data, old(self)@.pos, old(self)@.limits);
                &&& final(self)@ == (DecoderView { pos: p, ..old(self)@ })
                &&& match h {
                    Err(e) => r matches Err(e2) && e2@ == e,
                    Ok(None) => r matches Ok(None),
                    Ok(Some((bt, ct, ck, s, e))) => r matches Ok(Some((bt2, ct2, ck2, s2, e2))) && bt2 == bt
                        && ct2 == ct && ck2 == ck && s2 == s && e2 == e,
                }
            }),
            final(self)@.pos <= old(self)@.data.len(),
            r matches Ok(Some((_, _, _, s, e))) ==> old(self)@.pos < s <= e == final(self)@.pos,
    {
        let data = self.data;
        if self.pos >= data.len() {
            return Ok(None);
        }
        let block_type_byte = data[self.pos];
        self.pos = self.pos + 1;
        let block_type = match BlockType::from_byte(block_type_byte) {
            Some(b) => b,
            None => {
                return Err(SurpError::InvalidBlockType(block_type_byte));
            },
        };
        if block_type == BlockType::Trailer {
            self.pos = data.len();
            return Ok(None);
        }
        let (block_len64, varint_bytes) = match decode_varint(data, self.pos) {
            Ok(x) => x,
            Err(e) => {
                return Err(e);
            },
        };
        self.pos = self.pos + varint_bytes;
        let block_len = match safe_usize(block_len64) {
            Ok(x) => x,
            Err(e) => {
                return Err(e);
            },
        };
        if block_len > self.limits.max_block_size {
            return Err(SurpError::BlockTooLarge(block_len, self.limits.max_block_size));
        }
        if self.pos >= data.len() {
            return Err(SurpError::UnexpectedEof(self.pos));
        }
        let comp_byte = data[self.pos];
        self.pos = self.pos + 1;
        let comp_type = match CompressionType::from_byte(comp_byte) {
            Some(c) => c,
            None => {
                return Err(SurpError::UnknownCompression(comp_byte));
            },
        };
        if data.len() - self.pos < 8 {
            return Err(SurpError::UnexpectedEof(self.pos));
        }
        let expected_checksum = u64_from_le_bytes(vstd::slice::slice_subrange(data, self.pos, self.pos + 8));
        self.pos = self.pos + 8;
        let payload_start = self.pos;
        if block_len > data.len() - payload_start {
            return Err(SurpError::UnexpectedEof(add_wrapping(payload_start, block_len)));
        }
        let payload_end = payload_start + block_len;
        self.pos = payload_end;
        Ok(Some((block_type, comp_type, expected_checksum, payload_start, payload_end)))
    }

    /// Read the next data, index or schema block, loading the string
    /// dictionary blocks met on the way. Returns the block's type and the
    /// bounds of its payload in `block_data()`; `None` at the end of the
    /// input or at the trailer.
    fn read_next_block(&mut self) -> (r: Result<Option<(BlockType, usize, usize)>, SurpError>)
        requires
            0 <= old(self)@.pos <= old(self)@.data.len(),
        ensures
            ({
                let (m, v1) = read_block(old(self)@);
                &&& final(self)@ == v1
                &&& match m {
                    Err(e) => r matches Err(e2) && e2@ == e,
                    Ok(None) => r matches Ok(None),
                    Ok(Some((bt, s, e))) => r matches Ok(Some((bt2, s2, e2))) && bt2 == bt && s2 == s && e2 == e,
                }
            }),
            final(self)@.pos <= old(self)@.data.len(),
            r matches Ok(Some(_)) ==> old(self)@.pos < final(self)@.pos,
            r matches Ok(Some((_, s, e))) ==> s <= e <= block_data(final(self)@).len(),
            unchanged_by_block_read(old(self)@, final(self)@),
    {
        let ghost v0 = self@;
        loop
            invariant
                v0 == old(self)@,
                read_block(self@) == read_block(v0),
                unchanged_by_block_read(v0, self@),
                v0.pos <= self@.pos <= self@.data.len(),
            decreases self@.data.len() - self@.pos,
        {
            let ghost vs = self@;
            let header = self.read_frame_header();
            let (block_type, comp_type, expected, start, end) = match header {
                Err(e) => {
                    return Err(e);
                },
                Ok(None) => {
                    return Ok(None);
                },
                Ok(Some(h)) => h,
            };
            let data = self.data;
            let payload = vstd::slice::slice_subrange(data, start, end);
            if block_type == BlockType::StringDict {
                let actual = compute_xxh64(payload);
                if actual != expected {
                    return Err(SurpError::ChecksumMismatch { expected, actual });
                }
                let table = match decode_string_dict(payload, &self.limits) {
                    Ok(t) => t,
                    Err(e) => {
                        return Err(e);
                    },
                };
                self.owned_strings = table;
                self.dict_preloaded = true;
                proof {
                    assert(self@ == (DecoderView {
                        owned_table: self@.owned_table,
                        dict_preloaded: true,
                        pos: self@.pos,
                        ..vs
                    }));
                }
            } else if comp_type != CompressionType::Uncompressed {
                let decompressed = match decompress_block(comp_type, payload, &self.limits) {
                    Ok(b) => b,
                    Err(e) => {
                        return Err(e);
                    },
                };
                let actual = compute_xxh64(decompressed.as_slice());
                if actual != expected {
                    return Err(SurpError::ChecksumMismatch { expected, actual });
                }
                let len = decompressed.len();
                self.decompressed_buf = Some(decompressed);
                return Ok(Some((block_type, 0, len)));
            } else {
                let actual = compute_xxh64(payload);
                if actual != expected {
                    return Err(SurpError::ChecksumMismatch { expected, actual });
                }
                self.decompressed_buf = None;
                return Ok(Some((block_type, start, end)));
            }
        }
    }
}

} // verus!

verus! {

/// `r` is the outcome `m` of a zero-copy read.
pub open spec fn zc_outcome_matches(r: Result<SurpValue, SurpError>, m: Result<ValueModel, ErrorModel>) -> bool {
    match r {
        Ok(x) => m == Ok::<ValueModel, ErrorModel>(x@),
        Err(e) => m == Err::<ValueModel, ErrorModel>(e@),
    }
}

/// `r` is the outcome `m` of an owned read.
pub open spec fn owned_outcome_matches(r: Result<Value, SurpError>, m: Result<ValueModel, ErrorModel>) -> bool {
    match r {
        Ok(x) => m == Ok::<ValueModel, ErrorModel>(x@),
        Err(e) => m == Err::<ValueModel, ErrorModel>(e@),
    }
}

/// The values `pre` followed by those of the outcome `r`.
pub open spec fn prefix_outcome(pre: Seq<ValueModel>, r: Result<Seq<ValueModel>, ErrorModel>) -> Result<
    Seq<ValueModel>,
    ErrorModel,
> {
    match r {
        Ok(xs) => Ok(pre + xs),
        Err(e) => Err(e),
    }
}

impl<'a> Decoder<'a> {
    /// Decode the next value from the input, reading blocks as needed.
    /// The value borrows its strings and bytes from the input, so a
    /// compressed data block cannot be read this way (use
    /// `decode_next_owned`).
    pub fn decode_next(&mut self) -> (r: Result<SurpValue<'a>, SurpError>)
        requires
            decoder_wf(old(self)@),
        ensures
            decoder_wf(final(self)@),
            ({
                let (m, v1) = next_zc(old(self)@);
                &&& final(self)@ == v1
                &&& zc_outcome_matches(r, m)
            }),
            r is Ok ==> progress(old(self)@, final(self)@),
        decreases old(self)@.data.len() - old(self)@.pos, if old(self)@.current_block is Some { 1int } else { 0int },
    {
        if self.current_block.is_none() {
            match self.read_next_block() {
                Err(e) => {
                    return Err(e);
                },
                Ok(None) => {
                    return Err(SurpError::UnexpectedEof(self.pos));
                },
                Ok(Some((block_type, start, end))) => {
                    if block_type == BlockType::Data {
                        if self.decompressed_buf.is_some() {
                            return Err(SurpError::DecompressionError(zero_copy_compressed_error()));
                        }
                        let ghost v1 = self@;
                        self.current_block = Some((start, end));
                        self.block_pos = start;
                        self.str_slices.clear();
                        self.dict_preloaded = false;
                        proof {
                            assert(self@.str_table =~= Seq::<Seq<char>>::empty());
                            assert(self@ == (DecoderView {
                                current_block: Some((start, end)),
                                block_pos: start as int,
                                str_table: Seq::empty(),
                                dict_preloaded: false,
                                ..v1
                            }));
                            assert(next_zc(old(self)@) == next_zc(self@));
                        }
                    } else {
                        return self.decode_next();
                    }
                },
            }
        }
        let block_end = match self.current_block {
            Some((_, e)) => e,
            None => {
                return Err(SurpError::UnexpectedEof(self.pos));
            },
        };
        if self.decompressed_buf.is_some() {
            return Err(SurpError::DecompressionError(zero_copy_compressed_error()));
        }
        if self.block_pos >= block_end {
            let ghost vb = self@;
            self.current_block = None;
            proof {
                assert(next_zc(vb) == next_zc(self@));
            }
            return self.decode_next();
        }
        self.decode_value_at(block_end)
    }

    /// Decode the next value as an owned `Value`, reading blocks as needed.
    /// Compressed blocks are read too.
    pub fn decode_next_owned(&mut self) -> (r: Result<Value, SurpError>)
        requires
            decoder_wf(old(self)@),
        ensures
            decoder_wf(final(self)@),
            ({
                let (m, v1) = next_owned(old(self)@);
                &&& final(self)@ == v1
                &&& owned_outcome_matches(r, m)
            }),
            r is Ok ==> progress(old(self)@, final(self)@),
        decreases old(self)@.data.len() - old(self)@.pos, if old(self)@.current_block is Some { 1int } else { 0int },
    {
        if self.current_block.is_none() {
            match self.read_next_block() {
                Err(e) => {
                    return Err(e);
                },
                Ok(None) => {
                    return Err(SurpError::UnexpectedEof(self.pos));
                },
                Ok(Some((block_type, start, end))) => {
                    if block_type == BlockType::Data {
                        let ghost v1 = self@;
                        self.current_block = Some((start, end));
                        self.block_pos = start;
                        self.str_slices.clear();
                        if !self.dict_preloaded {
                            self.owned_strings.clear();
                        }
                        self.dict_preloaded = false;
                        proof {
                            assert(self@.str_table =~= Seq::<Seq<char>>::empty());
                            assert(self@.owned_table =~= (if v1.dict_preloaded {
                                v1.owned_table
                            } else {
                                Seq::<Seq<char>>::empty()
                            }));
                            assert(self@ == (DecoderView {
                                current_block: Some((start, end)),
                                block_pos: start as int,
                                str_table: Seq::empty(),
                                owned_table: if v1.dict_preloaded { v1.owned_table } else { Seq::empty() },
                                dict_preloaded: false,
                                ..v1
                            }));
                            assert(next_owned(old(self)@) == next_owned(self@));
                        }
                    } else {
                        return self.decode_next_owned();
                    }
                },
            }
        }
        let block_end = match self.current_block {
            Some((_, e)) => e,
            None => {
                return Err(SurpError::UnexpectedEof(self.pos));
            },
        };
        if self.block_pos >= block_end {
            let ghost vb = self@;
            self.current_block = None;
            proof {
                assert(next_owned(vb) == next_owned(self@));
            }
            return self.decode_next_owned();
        }
        self.decode_value_owned_at(block_end)
    }

    /// Decode all remaining values, borrowing from the input. Reading
    /// stops without error at the first `UnexpectedEof`.
    pub fn decode_all(&mut self) -> (r: Result<Vec<SurpValue<'a>>, SurpError>)
        requires
            decoder_wf(old(self)@),
        ensures
            decoder_wf(final(self)@),
            ({
                let (m, v1) = all_zc(old(self)@);
                &&& final(self)@ == v1
                &&& match r {
                    Ok(vs) => m == Ok::<Seq<ValueModel>, ErrorModel>(vs@.map_values(|x: SurpValue| x@)),
                    Err(e) => m == Err::<Seq<ValueModel>, ErrorModel>(e@),
                }
            }),
    {
        let ghost whole = all_zc(self@);
        let mut values: Vec<SurpValue<'a>> = Vec::new();
        proof {
            assert(values@.map_values(|x: SurpValue| x@) + Seq::<ValueModel>::empty() =~= Seq::<ValueModel>::empty());
            match all_zc(self@).0 {
                Ok(xs) => {
                    assert(values@.map_values(|x: SurpValue| x@) + xs =~= xs);
                },
                Err(_) => {},
            }
        }
        loop
            invariant
                decoder_wf(self@),
                whole == all_zc(old(self)@),
                whole.1 == all_zc(self@).1,
                whole.0 == prefix_outcome(values@.map_values(|x: SurpValue| x@), all_zc(self@).0),
            decreases self@.data.len() - self@.pos, if self@.current_block is Some { 1int } else { 0int },
                block_data(self@).len() - self@.block_pos,
        {
            let ghost before = self@;
            let ghost pre = values@.map_values(|x: SurpValue| x@);
            match self.decode_next() {
                Ok(v) => {
                    values.push(v);
                    proof {
                        assert(values@.map_values(|x: SurpValue| x@) =~= pre.push(v@));
                        match all_zc(self@).0 {
                            Ok(xs) => {
                                assert(pre + (seq![v@] + xs) =~= pre.push(v@) + xs);
                            },
                            Err(_) => {},
                        }
                    }
                },
                Err(e) => {
                    proof {
                        assert(pre + Seq::<ValueModel>::empty() =~= pre);
                    }
                    if let SurpError::UnexpectedEof(_) = e {
                        return Ok(values);
                    }
                    return Err(e);
                },
            }
        }
    }

    /// Decode all remaining values as owned values, compressed blocks
    /// included. Reading stops without error at the first `UnexpectedEof`.
    pub fn decode_all_owned(&mut self) -> (r: Result<Vec<Value>, SurpError>)
        requires
            decoder_wf(old(self)@),
        ensures
            decoder_wf(final(self)@),
            ({
                let (m, v1) = all_owned(old(self)@);
                &&& final(self)@ == v1
                &&& match r {
                    Ok(vs) => m == Ok::<Seq<ValueModel>, ErrorModel>(vs@.map_values(|x: Value| x@)),
                    Err(e) => m == Err::<Seq<ValueModel>, ErrorModel>(e@),
                }
            }),
    {
        let ghost whole = all_owned(self@);
        let mut values: Vec<Value> = Vec::new();
        proof {
            match all_owned(self@).0 {
                Ok(xs) => {
                    assert(values@.map_values(|x: Value| x@) + xs =~= xs);
                },
                Err(_) => {},
            }
        }
        loop
            invariant
                decoder_wf(self@),
                whole == all_owned(old(self)@),
                whole.1 == all_owned(self@).1,
                whole.0 == prefix_outcome(values@.map_values(|x: Value| x@), all_owned(self@).0),
            decreases self@.data.len() - self@.pos, if self@.current_block is Some { 1int } else { 0int },
                block_data(self@).len() - self@.block_pos,
        {
            let ghost pre = values@.map_values(|x: Value| x@);
            match self.decode_next_owned() {
                Ok(v) => {
                    let ghost vm = v@;
                    values.push(v);
                    proof {
                        assert(values@.map_values(|x: Value| x@) =~= pre.push(vm));
                        match all_owned(self@).0 {
                            Ok(xs) => {
                                assert(pre + (seq![vm] + xs) =~= pre.push(vm) + xs);
                            },
                            Err(_) => {},
                        }
                    }
                },
                Err(e) => {
                    proof {
                        assert(pre + Seq::<ValueModel>::empty() =~= pre);
                    }
                    if let SurpError::UnexpectedEof(_) = e {
                        return Ok(values);
                    }
                    return Err(e);
                },
            }
        }
    }
}

/// The error text of a zero-copy read of a compressed block.
fn zero_copy_compressed_error() -> (s: String)
    ensures
        s@ == zero_copy_compressed_message(),
{
    String::from_str(
        "zero-copy decode_next() cannot borrow from decompressed block; use decode_all_owned() or decode_next_owned() instead",
    )
}

} // verus!
