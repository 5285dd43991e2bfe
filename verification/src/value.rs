//! Value types for schema-less Surp data.
//!
//! `Value` owns its data. `SurpValue<'a>` borrows strings and byte strings
//! from the buffer it was decoded from. A 64-bit float is carried as its
//! IEEE 754 bit pattern (`f64::to_bits`), which is exactly what the wire
//! format stores.

use vstd::prelude::*;

verus! {

/// The mathematical content of a value: what the wire format encodes.
pub enum ValueModel {
    Null,
    Bool(bool),
    UInt(u64),
    Int(i64),
    /// IEEE 754 bit pattern.
    Float(u64),
    Str(Seq<char>),
    Bytes(Seq<u8>),
    Array(Seq<ValueModel>),
    Object(Seq<(Seq<char>, ValueModel)>),
}

/// Owned, schema-less Surp value.
#[derive(Debug, PartialEq)]
pub enum Value {
    /// Null / absent value.
    Null,
    /// Boolean.
    Bool(bool),
    /// Unsigned integer (up to u64).
    UInt(u64),
    /// Signed integer (i64).
    Int(i64),
    /// 64-bit IEEE 754 float, held as its bit pattern.
    Float(u64),
    /// UTF-8 string.
    Str(String),
    /// Raw binary blob.
    Bytes(Vec<u8>),
    /// Ordered array of values.
    Array(Vec<Value>),
    /// Ordered list of key-value pairs (keys are strings), in insertion order.
    Object(Vec<(String, Value)>),
}

impl View for Value {
    type V = ValueModel;

    open spec fn view(&self) -> ValueModel
        decreases self,
    {
        match self {
            Value::Null => ValueModel::Null,
            Value::Bool(b) => ValueModel::Bool(*b),
            Value::UInt(n) => ValueModel::UInt(*n),
            Value::Int(n) => ValueModel::Int(*n),
            Value::Float(f) => ValueModel::Float(*f),
            Value::Str(s) => ValueModel::Str(s@),
            Value::Bytes(b) => ValueModel::Bytes(b@),
            Value::Array(items) => ValueModel::Array(
                Seq::new(
                    items@.len(),
                    |i: int|
                        if 0 <= i < items@.len() {
                            items@[i].view()
                        } else {
                            ValueModel::Null
                        },
                ),
            ),
            Value::Object(entries) => ValueModel::Object(
                Seq::new(
                    entries@.len(),
                    |i: int|
                        if 0 <= i < entries@.len() {
                            (entries@[i].0@, entries@[i].1.view())
                        } else {
                            (Seq::empty(), ValueModel::Null)
                        },
                ),
            ),
        }
    }
}

/// The type name of each kind of value.
pub open spec fn spec_type_label(v: ValueModel) -> Seq<char> {
    match v {
        ValueModel::Null => "null"@,
        ValueModel::Bool(_) => "bool"@,
        ValueModel::UInt(_) => "uint"@,
        ValueModel::Int(_) => "int"@,
        ValueModel::Float(_) => "float"@,
        ValueModel::Str(_) => "str"@,
        ValueModel::Bytes(_) => "bytes"@,
        ValueModel::Array(_) => "array"@,
        ValueModel::Object(_) => "object"@,
    }
}

impl Value {
    /// Returns the type name as a human-readable string.
    pub fn type_label(&self) -> (r: &'static str)
        ensures
            r@ == spec_type_label(self@),
    {
        match self {
            Value::Null => "null",
            Value::Bool(_) => "bool",
            Value::UInt(_) => "uint",
            Value::Int(_) => "int",
            Value::Float(_) => "float",
            Value::Str(_) => "str",
            Value::Bytes(_) => "bytes",
            Value::Array(_) => "array",
            Value::Object(_) => "object",
        }
    }

    /// Returns true if this value is null.
    pub fn is_null(&self) -> (r: bool)
        ensures
            r == (self@ is Null),
    {
        match self {
            Value::Null => true,
            _ => false,
        }
    }

    /// Try to get as a string slice.
    pub fn as_str(&self) -> (r: Option<&str>)
        ensures
            match self@ {
                ValueModel::Str(s) => r is Some && r->0@ == s,
                _ => r is None,
            },
    {
        match self {
            Value::Str(s) => Some(s.as_str()),
            _ => None,
        }
    }

    /// Try to get as u64.
    pub fn as_uint(&self) -> (r: Option<u64>)
        ensures
            match self@ {
                ValueModel::UInt(n) => r == Some(n),
                _ => r is None,
            },
    {
        match self {
            Value::UInt(n) => Some(*n),
            _ => None,
        }
    }

    /// Try to get as i64.
    pub fn as_int(&self) -> (r: Option<i64>)
        ensures
            match self@ {
                ValueModel::Int(n) => r == Some(n),
                _ => r is None,
            },
    {
        match self {
            Value::Int(n) => Some(*n),
            _ => None,
        }
    }

    /// Try to get the bit pattern of a float.
    pub fn as_float(&self) -> (r: Option<u64>)
        ensures
            match self@ {
                ValueModel::Float(f) => r == Some(f),
                _ => r is None,
            },
    {
        match self {
            Value::Float(f) => Some(*f),
            _ => None,
        }
    }

    /// Try to get as a boolean.
    pub fn as_bool(&self) -> (r: Option<bool>)
        ensures
            match self@ {
                ValueModel::Bool(b) => r == Some(b),
                _ => r is None,
            },
    {
        match self {
            Value::Bool(b) => Some(*b),
            _ => None,
        }
    }

    /// Try to get as an array.
    pub fn as_array(&self) -> (r: Option<&[Value]>)
        ensures
            match self {
                Value::Array(items) => r is Some && r->0@ == items@,
                _ => r is None,
            },
    {
        match self {
            Value::Array(items) => Some(items.as_slice()),
            _ => None,
        }
    }

    /// Try to get as an object (ordered key-value pairs).
    pub fn as_object(&self) -> (r: Option<&[(String, Value)]>)
        ensures
            match self {
                Value::Object(entries) => r is Some && r->0@ == entries@,
                _ => r is None,
            },
    {
        match self {
            Value::Object(entries) => Some(entries.as_slice()),
            _ => None,
        }
    }
}

/// Zero-copy, borrow-backed Surp value returned by the decoder.
#[derive(Debug, PartialEq)]
pub enum SurpValue<'a> {
    Null,
    Bool(bool),
    UInt(u64),
    Int(i64),
    /// IEEE 754 bit pattern.
    Float(u64),
    /// Borrowed UTF-8 string slice from the input buffer.
    Str(&'a str),
    /// Borrowed byte slice from the input buffer.
    Bytes(&'a [u8]),
    /// Array of zero-copy values.
    Array(Vec<SurpValue<'a>>),
    /// Object with borrowed keys.
    Object(Vec<(&'a str, SurpValue<'a>)>),
}

impl<'a> View for SurpValue<'a> {
    type V = ValueModel;

    open spec fn view(&self) -> ValueModel
        decreases self,
    {
        match self {
            SurpValue::Null => ValueModel::Null,
            SurpValue::Bool(b) => ValueModel::Bool(*b),
            SurpValue::UInt(n) => ValueModel::UInt(*n),
            SurpValue::Int(n) => ValueModel::Int(*n),
            SurpValue::Float(f) => ValueModel::Float(*f),
            SurpValue::Str(s) => ValueModel::Str(s@),
            SurpValue::Bytes(b) => ValueModel::Bytes(b@),
            SurpValue::Array(items) => ValueModel::Array(
                Seq::new(
                    items@.len(),
                    |i: int|
                        if 0 <= i < items@.len() {
                            items@[i].view()
                        } else {
                            ValueModel::Null
                        },
                ),
            ),
            SurpValue::Object(entries) => ValueModel::Object(
                Seq::new(
                    entries@.len(),
                    |i: int|
                        if 0 <= i < entries@.len() {
                            (entries@[i].0@, entries@[i].1.view())
                        } else {
                            (Seq::empty(), ValueModel::Null)
                        },
                ),
            ),
        }
    }
}

impl<'a> SurpValue<'a> {
    /// Convert a borrowed value into an owned `Value` (copies strings and bytes).
    pub fn to_owned_value(&self) -> (r: Value)
        ensures
            r@ == self@,
        decreases self,
    {
        match self {
            SurpValue::Null => Value::Null,
            SurpValue::Bool(b) => Value::Bool(*b),
            SurpValue::UInt(n) => Value::UInt(*n),
            SurpValue::Int(n) => Value::Int(*n),
            SurpValue::Float(f) => Value::Float(*f),
            SurpValue::Str(s) => Value::Str((*s).to_owned()),
            SurpValue::Bytes(b) => Value::Bytes(vstd::slice::slice_to_vec(b)),
            SurpValue::Array(items) => {
                let mut out: Vec<Value> = Vec::new();
                let mut i: usize = 0;
                while i < items.len()
                    invariant
                        *self == SurpValue::Array(*items),
                        i <= items@.len(),
                        out@.len() == i,
                        forall|j: int| 0 <= j < i ==> #[trigger] out@[j]@ == items@[j]@,
                    decreases items@.len() - i,
                {
                    proof {
                        assert(decreases_to!(*self => self->Array_0));
                        assert(decreases_to!(*items => items@));
                        assert(decreases_to!(items@ => items@[i as int]));
                        assert(decreases_to!(*self => items@[i as int]));
                    }
                    let v = items[i].to_owned_value();
                    out.push(v);
                    i = i + 1;
                }
                let r = Value::Array(out);
                proof {
                    reveal_with_fuel(<Value as View>::view, 2);
                    reveal_with_fuel(<SurpValue as View>::view, 2);
                    assert(r@->Array_0.len() == self@->Array_0.len());
                    assert forall|k: int| 0 <= k < items@.len() implies r@->Array_0[k] == self@->Array_0[k] by {
                        assert(out@[k]@ == items@[k]@);
                    }
                    assert(r@->Array_0 =~= self@->Array_0);
                }
                r
            },
            SurpValue::Object(entries) => {
                let mut out: Vec<(String, Value)> = Vec::new();
                let mut i: usize = 0;
                while i < entries.len()
                    invariant
                        *self == SurpValue::Object(*entries),
                        i <= entries@.len(),
                        out@.len() == i,
                        forall|j: int| 0 <= j < i ==> #[trigger] out@[j].0@ == entries@[j].0@ && out@[j].1@ == entries@[j].1@,
                    decreases entries@.len() - i,
                {
                    proof {
                        assert(decreases_to!(*self => self->Object_0));
                        assert(decreases_to!(*entries => entries@));
                        assert(decreases_to!(entries@ => entries@[i as int]));
                        assert(decreases_to!(entries@[i as int] => entries@[i as int].1));
                        assert(decreases_to!(*self => entries@[i as int].1));
                    }
                    let k = entries[i].0.to_owned();
                    let v = entries[i].1.to_owned_value();
                    out.push((k, v));
                    i = i + 1;
                }
                let r = Value::Object(out);
                proof {
                    reveal_with_fuel(<Value as View>::view, 2);
                    reveal_with_fuel(<SurpValue as View>::view, 2);
                    assert(r@->Object_0 =~= self@->Object_0);
                }
                r
            },
        }
    }
}

} // verus!
