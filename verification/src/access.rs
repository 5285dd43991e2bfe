//! Reading parts of documents and values: names, lengths, fields, items
//! and keys.

use crate::ast::{
    annotations_view, fields_model, lemma_association_view, lemma_product_view, lemma_sequence_view,
    lemma_sum_view, pairs_model, values_model, Annotation, AnnotationM, Document, Field, Opaque, Product,
    Reference, Scalar, ScalarM, Sequence, Stream, Sum, SumPayload, Tensor, TensorData, TensorDataM, Value,
    ValueM,
};
use crate::document::{bindings_model, find_binding};
use vstd::prelude::*;
use vstd::string::StringExecFns;

verus! {

/// The first annotation named `name` at or after `i`.
pub open spec fn find_annotation(anns: Seq<AnnotationM>, name: Seq<char>, i: nat) -> Option<AnnotationM>
    decreases anns.len() - i,
{
    if i >= anns.len() {
        None
    } else if anns[i as int].name == name {
        Some(anns[i as int])
    } else {
        find_annotation(anns, name, i + 1)
    }
}

/// The names of annotations, in order.
pub open spec fn annotation_names_of(anns: Seq<Annotation>) -> Seq<Seq<char>> {
    anns.map_values(|a: Annotation| a.name@)
}

/// The texts of borrowed strings, in order.
pub open spec fn strs(v: Seq<&str>) -> Seq<Seq<char>> {
    v.map_values(|s: &str| s@)
}

/// The first annotation of `anns` named `name`.
fn find_annotation_in<'a>(anns: &'a Vec<Annotation>, name: &str) -> (r: Option<&'a Annotation>)
    ensures
        match find_annotation(annotations_view(anns@), name@, 0) {
            Some(a) => r matches Some(x) && x@ == a,
            None => r is None,
        },
{
    let ghost all = annotations_view(anns@);
    let target = String::from_str(name);
    let mut i: usize = 0;
    while i < anns.len()
        invariant
            i <= anns@.len(),
            all == annotations_view(anns@),
            target@ == name@,
            find_annotation(all, name@, 0) == find_annotation(all, name@, i as nat),
        decreases anns@.len() - i,
    {
        if anns[i].name == target {
            return Some(&anns[i]);
        }
        i = i + 1;
    }
    None
}

/// The names of `anns`, in order.
fn names_of_annotations<'a>(anns: &'a Vec<Annotation>) -> (r: Vec<&'a str>)
    ensures
        strs(r@) == annotation_names_of(anns@),
{
    let mut out: Vec<&'a str> = Vec::new();
    let mut i: usize = 0;
    while i < anns.len()
        invariant
            i <= anns@.len(),
            strs(out@) == annotation_names_of(anns@.take(i as int)),
        decreases anns@.len() - i,
    {
        let ghost before = out@;
        let x = anns[i].name.as_str();
        out.push(x);
        proof {
            assert(anns@.take(i + 1) =~= anns@.take(i as int).push(anns@[i as int]));
            assert(strs(out@) =~= strs(before).push(x@));
            assert(annotation_names_of(anns@.take(i + 1)) =~= annotation_names_of(anns@.take(i as int)).push(
                anns@[i as int].name@,
            ));
        }
        i = i + 1;
    }
    proof {
        assert(anns@.take(anns@.len() as int) =~= anns@);
    }
    out
}

impl Document {
    /// The value of the first binding of `name`.
    pub fn binding_value(&self, name: &str) -> (r: Option<&Value>)
        ensures
            match find_binding(bindings_model(self.bindings@), name@, 0) {
                Some(v) => r matches Some(x) && x@ == v,
                None => r is None,
            },
    {
        match self.binding(name) {
            Some(b) => Some(&b.value),
            None => None,
        }
    }

    /// The names of the bindings, in order.
    pub fn binding_names(&self) -> (r: Vec<&str>)
        ensures
            strs(r@) == self.bindings@.map_values(|b: crate::ast::Binding| b.name@),
    {
        let mut out: Vec<&str> = Vec::new();
        let mut i: usize = 0;
        while i < self.bindings.len()
            invariant
                i <= self.bindings@.len(),
                strs(out@) == self.bindings@.take(i as int).map_values(|b: crate::ast::Binding| b.name@),
            decreases self.bindings@.len() - i,
        {
            let ghost before = out@;
            let x = self.bindings[i].name.as_str();
            out.push(x);
            proof {
                assert(self.bindings@.take(i + 1) =~= self.bindings@.take(i as int).push(self.bindings@[i as int]));
                assert(strs(out@) =~= strs(before).push(x@));
                assert(self.bindings@.take(i + 1).map_values(|b: crate::ast::Binding| b.name@) =~= self.bindings@.take(
                    i as int,
                ).map_values(|b: crate::ast::Binding| b.name@).push(self.bindings@[i as int].name@));
            }
            i = i + 1;
        }
        proof {
            assert(self.bindings@.take(self.bindings@.len() as int) =~= self.bindings@);
        }
        out
    }

    /// The first annotation named `name`.
    pub fn annotation(&self, name: &str) -> (r: Option<&Annotation>)
        ensures
            match find_annotation(annotations_view(self.annotations@), name@, 0) {
                Some(a) => r matches Some(x) && x@ == a,
                None => r is None,
            },
    {
        find_annotation_in(&self.annotations, name)
    }

    /// The names of the annotations, in order.
    pub fn annotation_names(&self) -> (r: Vec<&str>)
        ensures
            strs(r@) == annotation_names_of(self.annotations@),
    {
        names_of_annotations(&self.annotations)
    }

    /// Whether the document has no annotation, `use` line, binding or root.
    pub fn is_empty(&self) -> (r: bool)
        ensures
            r == (self.annotations@.len() == 0 && self.uses@.len() == 0 && self.bindings@.len() == 0
                && self.root is None),
    {
        self.annotations.len() == 0 && self.uses.len() == 0 && self.bindings.len() == 0 && self.root.is_none()
    }
}

/// The name of the kind of a scalar.
pub open spec fn scalar_kind(s: ScalarM) -> Seq<char> {
    match s {
        ScalarM::Null => "null"@,
        ScalarM::Unit => "unit"@,
        ScalarM::Bool(_) => "bool"@,
        ScalarM::I64(_) => "i64"@,
        ScalarM::U64(_) => "u64"@,
        ScalarM::Vi64(_) => "vi64"@,
        ScalarM::Vu64(_) => "vu64"@,
        ScalarM::F32(_) => "f32"@,
        ScalarM::F64(_) => "f64"@,
        ScalarM::Str(_) => "str"@,
        ScalarM::Bytes(_) => "bytes"@,
        ScalarM::Sym(_) => "sym"@,
        ScalarM::Tagged(_, _) => "tagged"@,
    }
}

impl Scalar {
    /// The name of the scalar's kind.
    pub fn type_label(&self) -> (r: &'static str)
        ensures
            r@ == scalar_kind(self@),
    {
        match self {
            Scalar::Null => "null",
            Scalar::Unit => "unit",
            Scalar::Bool(_) => "bool",
            Scalar::I64(_) => "i64",
            Scalar::U64(_) => "u64",
            Scalar::Vi64(_) => "vi64",
            Scalar::Vu64(_) => "vu64",
            Scalar::F32(_) => "f32",
            Scalar::F64(_) => "f64",
            Scalar::Str(_) => "str",
            Scalar::Bytes(_) => "bytes",
            Scalar::Sym(_) => "sym",
            Scalar::Tagged { .. } => "tagged",
        }
    }

    /// The text of a string scalar.
    pub fn as_str(&self) -> (r: Option<&str>)
        ensures
            match self@ {
                ScalarM::Str(s) => r matches Some(x) && x@ == s,
                _ => r is None,
            },
    {
        match self {
            Scalar::Str(s) => Some(s.as_str()),
            _ => None,
        }
    }

    /// The value of a boolean scalar.
    pub fn as_bool(&self) -> (r: Option<bool>)
        ensures
            match self@ {
                ScalarM::Bool(b) => r == Some(b),
                _ => r is None,
            },
    {
        match self {
            Scalar::Bool(v) => Some(*v),
            _ => None,
        }
    }

    /// The value of an integer scalar as an `i64`, when it fits.
    pub fn as_i64(&self) -> (r: Option<i64>)
        ensures
            match self@ {
                ScalarM::I64(v) => r == Some(v),
                ScalarM::Vi64(v) => r == Some(v),
                ScalarM::U64(v) => if v <= i64::MAX {
                    r == Some(v as i64)
                } else {
                    r is None
                },
                ScalarM::Vu64(v) => if v <= i64::MAX {
                    r == Some(v as i64)
                } else {
                    r is None
                },
                _ => r is None,
            },
    {
        match self {
            Scalar::I64(v) | Scalar::Vi64(v) => Some(*v),
            Scalar::U64(v) | Scalar::Vu64(v) => {
                if *v <= 0x7FFF_FFFF_FFFF_FFFF {
                    Some(*v as i64)
                } else {
                    None
                }
            },
            _ => None,
        }
    }
}

/// The number of elements of tensor data (bytes, for a blob).
pub open spec fn tensor_data_len(d: TensorDataM) -> nat {
    match d {
        TensorDataM::DenseF64(v) => v.len(),
        TensorDataM::DenseI64(v) => v.len(),
        TensorDataM::DenseU64(v) => v.len(),
        TensorDataM::BinaryBlob(b) => b.len(),
    }
}

/// The name of the kind of tensor data.
pub open spec fn tensor_data_kind(d: TensorDataM) -> Seq<char> {
    match d {
        TensorDataM::DenseF64(_) => "dense_f64"@,
        TensorDataM::DenseI64(_) => "dense_i64"@,
        TensorDataM::DenseU64(_) => "dense_u64"@,
        TensorDataM::BinaryBlob(_) => "binary_blob"@,
    }
}

impl TensorData {
    /// The name of the data's kind.
    pub fn kind(&self) -> (r: &'static str)
        ensures
            r@ == tensor_data_kind(self@),
    {
        match self {
            TensorData::DenseF64(_) => "dense_f64",
            TensorData::DenseI64(_) => "dense_i64",
            TensorData::DenseU64(_) => "dense_u64",
            TensorData::BinaryBlob(_) => "binary_blob",
        }
    }

    /// The number of elements (bytes, for a blob).
    pub fn len(&self) -> (r: usize)
        ensures
            r == tensor_data_len(self@),
    {
        match self {
            TensorData::DenseF64(values) => values.len(),
            TensorData::DenseI64(values) => values.len(),
            TensorData::DenseU64(values) => values.len(),
            TensorData::BinaryBlob(bytes) => bytes.len(),
        }
    }

    /// Whether there is no element.
    pub fn is_empty(&self) -> (r: bool)
        ensures
            r == (tensor_data_len(self@) == 0),
    {
        self.len() == 0
    }
}

impl Tensor {
    /// The name of the kind of the tensor's data.
    pub fn data_kind(&self) -> (r: &'static str)
        ensures
            r@ == tensor_data_kind(self.data@),
    {
        self.data.kind()
    }

    /// The number of elements of the tensor's data.
    pub fn len(&self) -> (r: usize)
        ensures
            r == tensor_data_len(self.data@),
    {
        self.data.len()
    }

    /// Whether the tensor's data is empty.
    pub fn is_empty(&self) -> (r: bool)
        ensures
            r == (tensor_data_len(self.data@) == 0),
    {
        self.len() == 0
    }

    /// The first annotation named `name`.
    pub fn annotation(&self, name: &str) -> (r: Option<&Annotation>)
        ensures
            match find_annotation(annotations_view(self.annotations@), name@, 0) {
                Some(a) => r matches Some(x) && x@ == a,
                None => r is None,
            },
    {
        find_annotation_in(&self.annotations, name)
    }
}

impl Stream {
    /// The first annotation named `name`.
    pub fn annotation(&self, name: &str) -> (r: Option<&Annotation>)
        ensures
            match find_annotation(annotations_view(self.annotations@), name@, 0) {
                Some(a) => r matches Some(x) && x@ == a,
                None => r is None,
            },
    {
        find_annotation_in(&self.annotations, name)
    }

    /// The names of the annotations, in order.
    pub fn annotation_names(&self) -> (r: Vec<&str>)
        ensures
            strs(r@) == annotation_names_of(self.annotations@),
    {
        names_of_annotations(&self.annotations)
    }
}


/// The names of fields, in order.
pub open spec fn field_names_of(fs: Seq<Field>) -> Seq<Seq<char>> {
    fs.map_values(|f: Field| f.name@)
}

/// The models of borrowed values, in order.
pub open spec fn value_refs(v: Seq<&Value>) -> Seq<ValueM> {
    v.map_values(|x: &Value| x@)
}

/// The value of the first of `fields` named `name`.
fn find_field_in<'a>(fields: &'a Vec<Field>, name: &str) -> (r: Option<&'a Value>)
    ensures
        match find_binding(fields_model(fields@), name@, 0) {
            Some(v) => r matches Some(x) && x@ == v,
            None => r is None,
        },
{
    let ghost all = fields_model(fields@);
    let target = String::from_str(name);
    let mut i: usize = 0;
    while i < fields.len()
        invariant
            i <= fields@.len(),
            all == fields_model(fields@),
            target@ == name@,
            find_binding(all, name@, 0) == find_binding(all, name@, i as nat),
        decreases fields@.len() - i,
    {
        if fields[i].name == target {
            return Some(&fields[i].value);
        }
        i = i + 1;
    }
    None
}

/// The names of `fields`, in order.
fn names_of_fields<'a>(fields: &'a Vec<Field>) -> (r: Vec<&'a str>)
    ensures
        strs(r@) == field_names_of(fields@),
{
    let mut out: Vec<&'a str> = Vec::new();
    let mut i: usize = 0;
    while i < fields.len()
        invariant
            i <= fields@.len(),
            strs(out@) == field_names_of(fields@.take(i as int)),
        decreases fields@.len() - i,
    {
        let ghost before = out@;
        let x = fields[i].name.as_str();
        out.push(x);
        proof {
            assert(fields@.take(i + 1) =~= fields@.take(i as int).push(fields@[i as int]));
            assert(strs(out@) =~= strs(before).push(x@));
            assert(field_names_of(fields@.take(i + 1)) =~= field_names_of(fields@.take(i as int)).push(
                fields@[i as int].name@,
            ));
        }
        i = i + 1;
    }
    proof {
        assert(fields@.take(fields@.len() as int) =~= fields@);
    }
    out
}

/// The values of `fields`, in order.
fn values_of_fields<'a>(fields: &'a Vec<Field>) -> (r: Vec<&'a Value>)
    ensures
        value_refs(r@) == fields_model(fields@).map_values(|f: (Seq<char>, ValueM)| f.1),
{
    let ghost all = fields_model(fields@).map_values(|f: (Seq<char>, ValueM)| f.1);
    let mut out: Vec<&'a Value> = Vec::new();
    let mut i: usize = 0;
    while i < fields.len()
        invariant
            i <= fields@.len(),
            all == fields_model(fields@).map_values(|f: (Seq<char>, ValueM)| f.1),
            value_refs(out@) == all.take(i as int),
        decreases fields@.len() - i,
    {
        let ghost before = out@;
        let x = &fields[i].value;
        out.push(x);
        proof {
            assert(value_refs(out@) =~= value_refs(before).push(x@));
            assert(all.take(i + 1) =~= all.take(i as int).push(all[i as int]));
        }
        i = i + 1;
    }
    proof {
        assert(all.take(all.len() as int) =~= all);
    }
    out
}

/// References to `items`, in order.
fn refs_of_values<'a>(items: &'a Vec<Value>) -> (r: Vec<&'a Value>)
    ensures
        value_refs(r@) == values_model(items@),
{
    let ghost all = values_model(items@);
    let mut out: Vec<&'a Value> = Vec::new();
    let mut i: usize = 0;
    while i < items.len()
        invariant
            i <= items@.len(),
            all == values_model(items@),
            value_refs(out@) == all.take(i as int),
        decreases items@.len() - i,
    {
        let ghost before = out@;
        let x = &items[i];
        out.push(x);
        proof {
            assert(value_refs(out@) =~= value_refs(before).push(x@));
            assert(all.take(i + 1) =~= all.take(i as int).push(all[i as int]));
        }
        i = i + 1;
    }
    proof {
        assert(all.take(all.len() as int) =~= all);
    }
    out
}

impl Product {
    /// The value of the first field named `name`.
    pub fn field(&self, name: &str) -> (r: Option<&Value>)
        ensures
            match find_binding(fields_model(self.fields@), name@, 0) {
                Some(v) => r matches Some(x) && x@ == v,
                None => r is None,
            },
    {
        find_field_in(&self.fields, name)
    }

    /// Whether a field is named `name`.
    pub fn contains_field(&self, name: &str) -> (r: bool)
        ensures
            r == find_binding(fields_model(self.fields@), name@, 0) is Some,
    {
        self.field(name).is_some()
    }

    /// The names of the fields, in order.
    pub fn field_names(&self) -> (r: Vec<&str>)
        ensures
            strs(r@) == field_names_of(self.fields@),
    {
        names_of_fields(&self.fields)
    }

    /// The number of fields.
    pub fn len(&self) -> (r: usize)
        ensures
            r == self.fields@.len(),
    {
        self.fields.len()
    }

    /// Whether there is no field.
    pub fn is_empty(&self) -> (r: bool)
        ensures
            r == (self.fields@.len() == 0),
    {
        self.fields.len() == 0
    }
}

/// The name of the kind of a sum's payload.
pub open spec fn payload_kind_of(p: SumPayload) -> Seq<char> {
    match p {
        SumPayload::Unit => "unit"@,
        SumPayload::Tuple(_) => "tuple"@,
        SumPayload::Struct(_) => "struct"@,
    }
}

/// The number of items or fields of a sum's payload.
pub open spec fn payload_len(p: SumPayload) -> nat {
    match p {
        SumPayload::Unit => 0,
        SumPayload::Tuple(items) => items@.len(),
        SumPayload::Struct(fs) => fs@.len(),
    }
}

impl SumPayload {
    /// The name of the payload's kind.
    pub fn kind(&self) -> (r: &'static str)
        ensures
            r@ == payload_kind_of(*self),
    {
        match self {
            SumPayload::Unit => "unit",
            SumPayload::Tuple(_) => "tuple",
            SumPayload::Struct(_) => "struct",
        }
    }

    /// The number of items or fields.
    pub fn len(&self) -> (r: usize)
        ensures
            r == payload_len(*self),
    {
        match self {
            SumPayload::Unit => 0,
            SumPayload::Tuple(items) => items.len(),
            SumPayload::Struct(fields) => fields.len(),
        }
    }

    /// Whether there is no item or field.
    pub fn is_empty(&self) -> (r: bool)
        ensures
            r == (payload_len(*self) == 0),
    {
        self.len() == 0
    }
}

impl Sum {
    /// The name of the kind of the payload.
    pub fn payload_kind(&self) -> (r: &'static str)
        ensures
            r@ == payload_kind_of(self.payload),
    {
        self.payload.kind()
    }

    /// The number of items or fields of the payload.
    pub fn len(&self) -> (r: usize)
        ensures
            r == payload_len(self.payload),
    {
        self.payload.len()
    }

    /// Whether the payload has no item or field.
    pub fn is_empty(&self) -> (r: bool)
        ensures
            r == (payload_len(self.payload) == 0),
    {
        self.payload.is_empty()
    }

    /// The value of the first field named `name` of a struct payload.
    pub fn field(&self, name: &str) -> (r: Option<&Value>)
        ensures
            match self.payload {
                SumPayload::Struct(fs) => match find_binding(fields_model(fs@), name@, 0) {
                    Some(v) => r matches Some(x) && x@ == v,
                    None => r is None,
                },
                _ => r is None,
            },
    {
        match &self.payload {
            SumPayload::Struct(fields) => find_field_in(fields, name),
            _ => None,
        }
    }

    /// Item `index` of a tuple payload.
    pub fn get_index(&self, index: usize) -> (r: Option<&Value>)
        ensures
            match self.payload {
                SumPayload::Tuple(items) => if index < items@.len() {
                    r matches Some(x) && x@ == items@[index as int]@
                } else {
                    r is None
                },
                _ => r is None,
            },
    {
        match &self.payload {
            SumPayload::Tuple(items) => {
                if index < items.len() {
                    Some(&items[index])
                } else {
                    None
                }
            },
            _ => None,
        }
    }

    /// The names of the fields of a struct payload, in order.
    pub fn field_names(&self) -> (r: Vec<&str>)
        ensures
            match self.payload {
                SumPayload::Struct(fs) => strs(r@) == field_names_of(fs@),
                _ => r@.len() == 0,
            },
    {
        match &self.payload {
            SumPayload::Struct(fields) => names_of_fields(fields),
            _ => Vec::new(),
        }
    }

    /// The items or field values of the payload, in order.
    pub fn values(&self) -> (r: Vec<&Value>)
        ensures
            match self.payload {
                SumPayload::Unit => r@.len() == 0,
                SumPayload::Tuple(items) => value_refs(r@) == values_model(items@),
                SumPayload::Struct(fs) => value_refs(r@) == fields_model(fs@).map_values(
                    |f: (Seq<char>, ValueM)| f.1,
                ),
            },
    {
        match &self.payload {
            SumPayload::Unit => Vec::new(),
            SumPayload::Tuple(items) => refs_of_values(items),
            SumPayload::Struct(fields) => values_of_fields(fields),
        }
    }
}

impl Sequence {
    /// The number of items.
    pub fn len(&self) -> (r: usize)
        ensures
            r == self.items@.len(),
    {
        self.items.len()
    }

    /// Whether there is no item.
    pub fn is_empty(&self) -> (r: bool)
        ensures
            r == (self.items@.len() == 0),
    {
        self.items.len() == 0
    }

    /// Item `index`.
    pub fn get(&self, index: usize) -> (r: Option<&Value>)
        ensures
            if index < self.items@.len() {
                r matches Some(x) && x@ == self.items@[index as int]@
            } else {
                r is None
            },
    {
        if index < self.items.len() {
            Some(&self.items[index])
        } else {
            None
        }
    }
}


/// The name of the kind of a value.
pub open spec fn value_kind(v: ValueM) -> Seq<char> {
    match v {
        ValueM::Scalar(_) => "scalar"@,
        ValueM::Product(_, _) => "product"@,
        ValueM::SumUnit(_, _) => "sum"@,
        ValueM::SumTuple(_, _, _) => "sum"@,
        ValueM::SumStruct(_, _, _) => "sum"@,
        ValueM::Sequence(_, _) => "sequence"@,
        ValueM::Association(_) => "association"@,
        ValueM::RefBinding(_) => "reference"@,
        ValueM::RefById(_) => "reference"@,
        ValueM::Tensor(_, _, _, _) => "tensor"@,
        ValueM::Stream(_, _) => "stream"@,
        ValueM::Opaque(_, _) => "opaque"@,
    }
}

/// The number of entries of a value: fields, items, pairs, payload items
/// or fields, tensor elements or stream annotations; 0 for the others.
pub open spec fn value_len(v: ValueM) -> nat {
    match v {
        ValueM::Product(_, fs) => fs.len(),
        ValueM::Sequence(_, items) => items.len(),
        ValueM::Association(ps) => ps.len(),
        ValueM::SumTuple(_, _, items) => items.len(),
        ValueM::SumStruct(_, _, fs) => fs.len(),
        ValueM::Tensor(_, _, d, _) => tensor_data_len(d),
        ValueM::Stream(_, anns) => anns.len(),
        _ => 0,
    }
}

/// The text of a key: a string or symbol scalar's text.
pub open spec fn key_of(v: ValueM) -> Option<Seq<char>> {
    match v {
        ValueM::Scalar(ScalarM::Str(s)) => Some(s),
        ValueM::Scalar(ScalarM::Sym(s)) => Some(s),
        _ => None,
    }
}

/// The value of the first pair at or after `i` whose key is `name`.
pub open spec fn find_key(ps: Seq<(ValueM, ValueM)>, name: Seq<char>, i: nat) -> Option<ValueM>
    decreases ps.len() - i,
{
    if i >= ps.len() {
        None
    } else if key_of(ps[i as int].0) == Some(name) {
        Some(ps[i as int].1)
    } else {
        find_key(ps, name, i + 1)
    }
}

/// The entry named `name` of a product, an association, a sum with struct
/// payload, or the value a reference holds.
pub open spec fn value_get(v: ValueM, name: Seq<char>) -> Option<ValueM>
    decreases v,
{
    match v {
        ValueM::Product(_, fs) => find_binding(fs, name, 0),
        ValueM::Association(ps) => find_key(ps, name, 0),
        ValueM::SumStruct(_, _, fs) => find_binding(fs, name, 0),
        ValueM::RefById(inner) => if inner.len() == 1 {
            value_get(inner[0], name)
        } else {
            None
        },
        _ => None,
    }
}

/// Item `idx` of a sequence, of a sum with tuple payload, or of the value
/// a reference holds.
pub open spec fn value_item(v: ValueM, idx: int) -> Option<ValueM>
    decreases v,
{
    match v {
        ValueM::Sequence(_, items) => if 0 <= idx < items.len() {
            Some(items[idx])
        } else {
            None
        },
        ValueM::SumTuple(_, _, items) => if 0 <= idx < items.len() {
            Some(items[idx])
        } else {
            None
        },
        ValueM::RefById(inner) => if inner.len() == 1 {
            value_item(inner[0], idx)
        } else {
            None
        },
        _ => None,
    }
}

/// The keys of pairs that are strings or symbols, in order.
pub open spec fn pair_keys(ps: Seq<(ValueM, ValueM)>) -> Seq<Seq<char>>
    decreases ps.len(),
{
    if ps.len() == 0 {
        Seq::empty()
    } else {
        (match key_of(ps[0].0) {
            Some(k) => seq![k],
            None => Seq::empty(),
        }) + pair_keys(ps.drop_first())
    }
}

/// The field names or string keys of a value, in order.
pub open spec fn value_keys(v: ValueM) -> Seq<Seq<char>>
    decreases v,
{
    match v {
        ValueM::Product(_, fs) => fs.map_values(|f: (Seq<char>, ValueM)| f.0),
        ValueM::Association(ps) => pair_keys(ps),
        ValueM::SumStruct(_, _, fs) => fs.map_values(|f: (Seq<char>, ValueM)| f.0),
        ValueM::RefById(inner) => if inner.len() == 1 {
            value_keys(inner[0])
        } else {
            Seq::empty()
        },
        _ => Seq::empty(),
    }
}

/// The child values of a value, in order.
pub open spec fn value_children(v: ValueM) -> Seq<ValueM>
    decreases v,
{
    match v {
        ValueM::Product(_, fs) => fs.map_values(|f: (Seq<char>, ValueM)| f.1),
        ValueM::Sequence(_, items) => items,
        ValueM::Association(ps) => ps.map_values(|p: (ValueM, ValueM)| p.1),
        ValueM::SumTuple(_, _, items) => items,
        ValueM::SumStruct(_, _, fs) => fs.map_values(|f: (Seq<char>, ValueM)| f.1),
        ValueM::RefById(inner) => if inner.len() == 1 {
            value_children(inner[0])
        } else {
            Seq::empty()
        },
        _ => Seq::empty(),
    }
}

/// The field names of fields are the names of their models.
proof fn lemma_field_names(fs: Seq<Field>)
    ensures
        field_names_of(fs) == fields_model(fs).map_values(|f: (Seq<char>, ValueM)| f.0),
{
    assert(field_names_of(fs) =~= fields_model(fs).map_values(|f: (Seq<char>, ValueM)| f.0));
}

impl Value {
    /// The name of the value's kind.
    pub fn type_label(&self) -> (r: &'static str)
        ensures
            r@ == value_kind(self@),
    {
        match self {
            Value::Scalar(_) => "scalar",
            Value::Product(_) => "product",
            Value::Sum(_) => "sum",
            Value::Sequence(_) => "sequence",
            Value::Association(_) => "association",
            Value::Reference(_) => "reference",
            Value::Tensor(_) => "tensor",
            Value::Stream(_) => "stream",
            Value::Opaque(_) => "opaque",
        }
    }

    /// The scalar, if the value is one.
    pub fn as_scalar(&self) -> (r: Option<&Scalar>)
        ensures
            match self {
                Value::Scalar(s) => r == Some(s),
                _ => r is None,
            },
    {
        match self {
            Value::Scalar(s) => Some(s),
            _ => None,
        }
    }

    /// The product, if the value is one.
    pub fn as_product(&self) -> (r: Option<&Product>)
        ensures
            match self {
                Value::Product(p) => r == Some(p),
                _ => r is None,
            },
    {
        match self {
            Value::Product(p) => Some(p),
            _ => None,
        }
    }

    /// The sequence, if the value is one.
    pub fn as_sequence(&self) -> (r: Option<&Sequence>)
        ensures
            match self {
                Value::Sequence(q) => r == Some(q),
                _ => r is None,
            },
    {
        match self {
            Value::Sequence(q) => Some(q),
            _ => None,
        }
    }

    /// The sum, if the value is one.
    pub fn as_sum(&self) -> (r: Option<&Sum>)
        ensures
            match self {
                Value::Sum(sm) => r == Some(sm),
                _ => r is None,
            },
    {
        match self {
            Value::Sum(sm) => Some(sm),
            _ => None,
        }
    }

    /// The pairs, if the value is an association.
    pub fn as_association(&self) -> (r: Option<&[(Value, Value)]>)
        ensures
            match self {
                Value::Association(pairs) => r matches Some(x) && x@ == pairs@,
                _ => r is None,
            },
    {
        match self {
            Value::Association(pairs) => Some(pairs.as_slice()),
            _ => None,
        }
    }

    /// The reference, if the value is one.
    pub fn as_reference(&self) -> (r: Option<&Reference>)
        ensures
            match self {
                Value::Reference(x) => r == Some(x),
                _ => r is None,
            },
    {
        match self {
            Value::Reference(x) => Some(x),
            _ => None,
        }
    }

    /// The tensor, if the value is one.
    pub fn as_tensor(&self) -> (r: Option<&Tensor>)
        ensures
            match self {
                Value::Tensor(t) => r == Some(t),
                _ => r is None,
            },
    {
        match self {
            Value::Tensor(t) => Some(t),
            _ => None,
        }
    }

    /// The stream, if the value is one.
    pub fn as_stream(&self) -> (r: Option<&Stream>)
        ensures
            match self {
                Value::Stream(st) => r == Some(st),
                _ => r is None,
            },
    {
        match self {
            Value::Stream(st) => Some(st),
            _ => None,
        }
    }

    /// The opaque value, if the value is one.
    pub fn as_opaque(&self) -> (r: Option<&Opaque>)
        ensures
            match self {
                Value::Opaque(o) => r == Some(o),
                _ => r is None,
            },
    {
        match self {
            Value::Opaque(o) => Some(o),
            _ => None,
        }
    }

    /// Whether the value is a scalar.
    pub fn is_scalar(&self) -> (r: bool)
        ensures
            r == (self is Scalar),
    {
        match self {
            Value::Scalar(_) => true,
            _ => false,
        }
    }

    /// The number of entries of the value (see `value_len`).
    pub fn len(&self) -> (r: usize)
        ensures
            r == value_len(self@),
    {
        match self {
            Value::Product(p) => {
                proof {
                    lemma_product_view(p.type_label, p.fields);
                }
                p.fields.len()
            },
            Value::Sequence(q) => {
                proof {
                    lemma_sequence_view(q.elem_type, q.items);
                }
                q.items.len()
            },
            Value::Association(pairs) => {
                proof {
                    lemma_association_view(*pairs);
                }
                pairs.len()
            },
            Value::Sum(sm) => {
                proof {
                    lemma_sum_view(sm.type_label, sm.variant, sm.payload);
                }
                sm.len()
            },
            Value::Tensor(t) => t.len(),
            Value::Stream(st) => {
                proof {
                    assert(annotations_view(st.annotations@).len() == st.annotations@.len());
                }
                st.annotations.len()
            },
            _ => 0,
        }
    }

    /// Whether the value has no entry.
    pub fn is_empty(&self) -> (r: bool)
        ensures
            r == (value_len(self@) == 0),
    {
        self.len() == 0
    }

    /// The text of the value as a key: a string or symbol scalar's text.
    fn key_name(&self) -> (r: Option<&String>)
        ensures
            match key_of(self@) {
                Some(k) => r matches Some(x) && x@ == k,
                None => r is None,
            },
    {
        match self {
            Value::Scalar(Scalar::Str(s)) => Some(s),
            Value::Scalar(Scalar::Sym(s)) => Some(s),
            _ => None,
        }
    }

    /// Whether the value is a key with the text `expected`.
    fn matches_key(&self, expected: &String) -> (r: bool)
        ensures
            r == (key_of(self@) == Some(expected@)),
    {
        match self.key_name() {
            Some(k) => *k == *expected,
            None => false,
        }
    }

    /// The entry named `name` (see `value_get`).
    pub fn get(&self, name: &str) -> (r: Option<&Value>)
        ensures
            match value_get(self@, name@) {
                Some(v) => r matches Some(x) && x@ == v,
                None => r is None,
            },
        decreases self,
    {
        match self {
            Value::Product(p) => {
                proof {
                    lemma_product_view(p.type_label, p.fields);
                }
                p.field(name)
            },
            Value::Association(pairs) => {
                proof {
                    lemma_association_view(*pairs);
                }
                let ghost all = pairs_model(pairs@);
                let target = String::from_str(name);
                let mut i: usize = 0;
                while i < pairs.len()
                    invariant
                        i <= pairs@.len(),
                        all == pairs_model(pairs@),
                        target@ == name@,
                        value_get(self@, name@) == find_key(all, name@, 0),
                        find_key(all, name@, 0) == find_key(all, name@, i as nat),
                    decreases pairs@.len() - i,
                {
                    proof {
                        assert(all[i as int] == (pairs@[i as int].0@, pairs@[i as int].1@));
                    }
                    if pairs[i].0.matches_key(&target) {
                        return Some(&pairs[i].1);
                    }
                    i = i + 1;
                }
                None
            },
            Value::Sum(sm) => {
                proof {
                    lemma_sum_view(sm.type_label, sm.variant, sm.payload);
                }
                sm.field(name)
            },
            Value::Reference(Reference::ById(inner)) => {
                proof {
                    assert(decreases_to!(*self => self->Reference_0));
                    assert(decreases_to!(self->Reference_0 => self->Reference_0->ById_0));
                }
                inner.get(name)
            },
            _ => None,
        }
    }

    /// Whether the value has an entry named `name`.
    pub fn contains_key(&self, name: &str) -> (r: bool)
        ensures
            r == value_get(self@, name@) is Some,
    {
        self.get(name).is_some()
    }

    /// Item `index` (see `value_item`).
    pub fn get_index(&self, index: usize) -> (r: Option<&Value>)
        ensures
            match value_item(self@, index as int) {
                Some(v) => r matches Some(x) && x@ == v,
                None => r is None,
            },
        decreases self,
    {
        match self {
            Value::Sequence(q) => {
                proof {
                    lemma_sequence_view(q.elem_type, q.items);
                }
                q.get(index)
            },
            Value::Sum(sm) => {
                proof {
                    lemma_sum_view(sm.type_label, sm.variant, sm.payload);
                }
                sm.get_index(index)
            },
            Value::Reference(Reference::ById(inner)) => {
                proof {
                    assert(decreases_to!(*self => self->Reference_0));
                    assert(decreases_to!(self->Reference_0 => self->Reference_0->ById_0));
                }
                inner.get_index(index)
            },
            _ => None,
        }
    }

    /// The field names or string keys, in order (see `value_keys`).
    pub fn keys(&self) -> (r: Vec<&str>)
        ensures
            strs(r@) == value_keys(self@),
        decreases self,
    {
        match self {
            Value::Product(p) => {
                proof {
                    lemma_product_view(p.type_label, p.fields);
                    lemma_field_names(p.fields@);
                }
                p.field_names()
            },
            Value::Association(pairs) => {
                proof {
                    lemma_association_view(*pairs);
                }
                let ghost all = pairs_model(pairs@);
                let mut out: Vec<&str> = Vec::new();
                let mut i: usize = 0;
                proof {
                    assert(all.subrange(0, all.len() as int) =~= all);
                    assert(strs(out@) =~= Seq::<Seq<char>>::empty());
                }
                while i < pairs.len()
                    invariant
                        i <= pairs@.len(),
                        all == pairs_model(pairs@),
                        pair_keys(all) == strs(out@) + pair_keys(all.subrange(i as int, all.len() as int)),
                    decreases pairs@.len() - i,
                {
                    let ghost rest = all.subrange(i as int, all.len() as int);
                    let ghost before = out@;
                    proof {
                        assert(rest.drop_first() =~= all.subrange(i + 1, all.len() as int));
                        assert(rest[0] == all[i as int]);
                    }
                    match pairs[i].0.key_name() {
                        Some(k) => {
                            out.push(k.as_str());
                            proof {
                                assert(strs(out@) =~= strs(before).push(k@));
                                assert(strs(out@) + pair_keys(all.subrange(i + 1, all.len() as int)) =~= strs(before)
                                    + pair_keys(rest));
                            }
                        },
                        None => {
                            proof {
                                assert(pair_keys(rest) =~= pair_keys(all.subrange(i + 1, all.len() as int)));
                            }
                        },
                    }
                    i = i + 1;
                }
                proof {
                    assert(all.subrange(i as int, all.len() as int) =~= Seq::<(ValueM, ValueM)>::empty());
                    assert(strs(out@) + Seq::<Seq<char>>::empty() =~= strs(out@));
                }
                out
            },
            Value::Sum(sm) => {
                proof {
                    lemma_sum_view(sm.type_label, sm.variant, sm.payload);
                    if let SumPayload::Struct(fs) = &sm.payload {
                        lemma_field_names(fs@);
                    }
                }
                sm.field_names()
            },
            Value::Reference(Reference::ById(inner)) => {
                proof {
                    assert(decreases_to!(*self => self->Reference_0));
                    assert(decreases_to!(self->Reference_0 => self->Reference_0->ById_0));
                }
                inner.keys()
            },
            _ => {
                let out: Vec<&str> = Vec::new();
                proof {
                    assert(strs(out@) =~= Seq::<Seq<char>>::empty());
                }
                out
            },
        }
    }

    /// The child values, in order (see `value_children`).
    pub fn values(&self) -> (r: Vec<&Value>)
        ensures
            value_refs(r@) == value_children(self@),
        decreases self,
    {
        match self {
            Value::Product(p) => {
                proof {
                    lemma_product_view(p.type_label, p.fields);
                }
                values_of_fields(&p.fields)
            },
            Value::Sequence(q) => {
                proof {
                    lemma_sequence_view(q.elem_type, q.items);
                }
                refs_of_values(&q.items)
            },
            Value::Association(pairs) => {
                proof {
                    lemma_association_view(*pairs);
                }
                let ghost all = pairs_model(pairs@).map_values(|p: (ValueM, ValueM)| p.1);
                let mut out: Vec<&Value> = Vec::new();
                let mut i: usize = 0;
                while i < pairs.len()
                    invariant
                        i <= pairs@.len(),
                        all == pairs_model(pairs@).map_values(|p: (ValueM, ValueM)| p.1),
                        value_refs(out@) == all.take(i as int),
                    decreases pairs@.len() - i,
                {
                    let ghost before = out@;
                    let x = &pairs[i].1;
                    out.push(x);
                    proof {
                        assert(value_refs(out@) =~= value_refs(before).push(x@));
                        assert(all.take(i + 1) =~= all.take(i as int).push(all[i as int]));
                    }
                    i = i + 1;
                }
                proof {
                    assert(all.take(all.len() as int) =~= all);
                }
                out
            },
            Value::Sum(sm) => {
                proof {
                    lemma_sum_view(sm.type_label, sm.variant, sm.payload);
                }
                let out = sm.values();
                proof {
                    if sm.payload is Unit {
                        assert(value_refs(out@) =~= Seq::<ValueM>::empty());
                    }
                }
                out
            },
            Value::Reference(Reference::ById(inner)) => {
                proof {
                    assert(decreases_to!(*self => self->Reference_0));
                    assert(decreases_to!(self->Reference_0 => self->Reference_0->ById_0));
                }
                inner.values()
            },
            _ => {
                let out: Vec<&Value> = Vec::new();
                proof {
                    assert(value_refs(out@) =~= Seq::<ValueM>::empty());
                }
                out
            },
        }
    }
}

impl From<Scalar> for Value {
    fn from(value: Scalar) -> (r: Value) {
        Value::Scalar(value)
    }
}

impl vstd::std_specs::convert::FromSpecImpl<Scalar> for Value {
    open spec fn obeys_from_spec() -> bool {
        true
    }

    open spec fn from_spec(v: Scalar) -> Value {
        Value::Scalar(v)
    }
}

} // verus!
