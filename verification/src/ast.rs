//! The data model of documents in the segment-tree binary format (CBF).
//!
//! A float is carried as its IEEE 754 bit pattern (`f32::to_bits`,
//! `f64::to_bits`), which is exactly what the binary format stores.

use vstd::prelude::*;
use vstd::slice::slice_to_vec;

verus! {

/// A scalar as a mathematical value.
pub enum ScalarM {
    Null,
    Unit,
    Bool(bool),
    I64(i64),
    U64(u64),
    Vi64(i64),
    Vu64(u64),
    F32(u32),
    F64(u64),
    Str(Seq<char>),
    Bytes(Seq<u8>),
    Sym(Seq<char>),
    Tagged(Seq<char>, Seq<char>),
}

/// An annotation as a mathematical value: a name and an optional scalar.
pub struct AnnotationM {
    pub name: Seq<char>,
    pub value: Option<ScalarM>,
}

/// The data of a tensor as a mathematical value.
pub enum TensorDataM {
    DenseF64(Seq<u64>),
    DenseI64(Seq<i64>),
    DenseU64(Seq<u64>),
    BinaryBlob(Seq<u8>),
}

/// A value as a mathematical value.
pub enum ValueM {
    Scalar(ScalarM),
    /// Type name and fields.
    Product(Option<Seq<char>>, Seq<(Seq<char>, ValueM)>),
    /// Type name, variant, no payload.
    SumUnit(Option<Seq<char>>, Seq<char>),
    /// Type name, variant, tuple payload.
    SumTuple(Option<Seq<char>>, Seq<char>, Seq<ValueM>),
    /// Type name, variant, struct payload.
    SumStruct(Option<Seq<char>>, Seq<char>, Seq<(Seq<char>, ValueM)>),
    /// Element type and items.
    Sequence(Option<Seq<char>>, Seq<ValueM>),
    Association(Seq<(ValueM, ValueM)>),
    RefBinding(Seq<char>),
    /// The referenced value, as the one element of a sequence.
    RefById(Seq<ValueM>),
    /// Element type, shape, data, annotations.
    Tensor(Seq<char>, Seq<Option<u64>>, TensorDataM, Seq<AnnotationM>),
    /// Item type and annotations.
    Stream(Seq<char>, Seq<AnnotationM>),
    /// Type tag and bytes.
    Opaque(Seq<char>, Seq<u8>),
}

/// A scalar value.
#[derive(Debug, PartialEq)]
pub enum Scalar {
    Null,
    Unit,
    Bool(bool),
    I64(i64),
    U64(u64),
    Vi64(i64),
    Vu64(u64),
    /// A 32-bit float, as its bit pattern.
    F32(u32),
    /// A 64-bit float, as its bit pattern.
    F64(u64),
    Str(String),
    Bytes(Vec<u8>),
    Sym(String),
    Tagged { tag: String, value: String },
}

impl View for Scalar {
    type V = ScalarM;

    open spec fn view(&self) -> ScalarM {
        match self {
            Scalar::Null => ScalarM::Null,
            Scalar::Unit => ScalarM::Unit,
            Scalar::Bool(b) => ScalarM::Bool(*b),
            Scalar::I64(v) => ScalarM::I64(*v),
            Scalar::U64(v) => ScalarM::U64(*v),
            Scalar::Vi64(v) => ScalarM::Vi64(*v),
            Scalar::Vu64(v) => ScalarM::Vu64(*v),
            Scalar::F32(v) => ScalarM::F32(*v),
            Scalar::F64(v) => ScalarM::F64(*v),
            Scalar::Str(s) => ScalarM::Str(s@),
            Scalar::Bytes(b) => ScalarM::Bytes(b@),
            Scalar::Sym(s) => ScalarM::Sym(s@),
            Scalar::Tagged { tag, value } => ScalarM::Tagged(tag@, value@),
        }
    }
}

/// A named annotation with an optional scalar value.
#[derive(Debug, PartialEq)]
pub struct Annotation {
    pub name: String,
    pub value: Option<Scalar>,
}

/// The model of an optional scalar.
pub open spec fn opt_scalar(s: Option<Scalar>) -> Option<ScalarM> {
    match s {
        Some(x) => Some(x@),
        None => None,
    }
}

/// The model of an optional string.
pub open spec fn opt_text(s: Option<String>) -> Option<Seq<char>> {
    match s {
        Some(x) => Some(x@),
        None => None,
    }
}

impl View for Annotation {
    type V = AnnotationM;

    open spec fn view(&self) -> AnnotationM {
        AnnotationM { name: self.name@, value: opt_scalar(self.value) }
    }
}

/// The models of a sequence of annotations.
pub open spec fn annotations_view(a: Seq<Annotation>) -> Seq<AnnotationM> {
    Seq::new(a.len(), |i: int| a[i]@)
}

/// A named field of a product or of a struct-like variant.
#[derive(Debug, PartialEq)]
pub struct Field {
    pub name: String,
    pub value: Value,
}

/// A product (struct) value.
#[derive(Debug, PartialEq)]
pub struct Product {
    pub type_label: Option<String>,
    pub fields: Vec<Field>,
}

/// The payload of a sum (enum) value.
#[derive(Debug, PartialEq)]
pub enum SumPayload {
    Unit,
    Tuple(Vec<Value>),
    Struct(Vec<Field>),
}

/// A sum (enum) value.
#[derive(Debug, PartialEq)]
pub struct Sum {
    pub type_label: Option<String>,
    pub variant: String,
    pub payload: SumPayload,
}

/// A sequence value.
#[derive(Debug, PartialEq)]
pub struct Sequence {
    pub elem_type: Option<String>,
    pub items: Vec<Value>,
}

/// A reference to a binding or to a value by id.
#[derive(Debug, PartialEq)]
pub enum Reference {
    Binding(String),
    ById(Box<Value>),
}

/// The data of a tensor.
#[derive(Debug, PartialEq)]
pub enum TensorData {
    /// 64-bit floats, as their bit patterns.
    DenseF64(Vec<u64>),
    DenseI64(Vec<i64>),
    DenseU64(Vec<u64>),
    BinaryBlob(Vec<u8>),
}

impl View for TensorData {
    type V = TensorDataM;

    open spec fn view(&self) -> TensorDataM {
        match self {
            TensorData::DenseF64(v) => TensorDataM::DenseF64(v@),
            TensorData::DenseI64(v) => TensorDataM::DenseI64(v@),
            TensorData::DenseU64(v) => TensorDataM::DenseU64(v@),
            TensorData::BinaryBlob(b) => TensorDataM::BinaryBlob(b@),
        }
    }
}

/// A tensor value.
#[derive(Debug, PartialEq)]
pub struct Tensor {
    pub element_type: String,
    pub shape: Vec<Option<u64>>,
    pub data: TensorData,
    pub annotations: Vec<Annotation>,
}

/// A stream value.
#[derive(Debug, PartialEq)]
pub struct Stream {
    pub item_type: String,
    pub annotations: Vec<Annotation>,
}

/// An opaque value: a type tag and raw bytes.
#[derive(Debug, PartialEq)]
pub struct Opaque {
    pub type_tag: String,
    pub bytes: Vec<u8>,
}

/// A value of the data model.
#[derive(Debug, PartialEq)]
pub enum Value {
    Scalar(Scalar),
    Product(Product),
    Sum(Sum),
    Sequence(Sequence),
    Association(Vec<(Value, Value)>),
    Reference(Reference),
    Tensor(Tensor),
    Stream(Stream),
    Opaque(Opaque),
}

impl View for Value {
    type V = ValueM;

    open spec fn view(&self) -> ValueM
        decreases self,
    {
        match self {
            Value::Scalar(s) => ValueM::Scalar(s@),
            Value::Product(p) => ValueM::Product(
                opt_text(p.type_label),
                Seq::new(
                    p.fields@.len(),
                    |i: int|
                        if 0 <= i < p.fields@.len() {
                            (p.fields@[i].name@, p.fields@[i].value.view())
                        } else {
                            (Seq::empty(), ValueM::Scalar(ScalarM::Null))
                        },
                ),
            ),
            Value::Sum(s) => match s.payload {
                SumPayload::Unit => ValueM::SumUnit(opt_text(s.type_label), s.variant@),
                SumPayload::Tuple(items) => ValueM::SumTuple(
                    opt_text(s.type_label),
                    s.variant@,
                    Seq::new(
                        items@.len(),
                        |i: int|
                            if 0 <= i < items@.len() {
                                items@[i].view()
                            } else {
                                ValueM::Scalar(ScalarM::Null)
                            },
                    ),
                ),
                SumPayload::Struct(fields) => ValueM::SumStruct(
                    opt_text(s.type_label),
                    s.variant@,
                    Seq::new(
                        fields@.len(),
                        |i: int|
                            if 0 <= i < fields@.len() {
                                (fields@[i].name@, fields@[i].value.view())
                            } else {
                                (Seq::empty(), ValueM::Scalar(ScalarM::Null))
                            },
                    ),
                ),
            },
            Value::Sequence(q) => ValueM::Sequence(
                opt_text(q.elem_type),
                Seq::new(
                    q.items@.len(),
                    |i: int|
                        if 0 <= i < q.items@.len() {
                            q.items@[i].view()
                        } else {
                            ValueM::Scalar(ScalarM::Null)
                        },
                ),
            ),
            Value::Association(pairs) => ValueM::Association(
                Seq::new(
                    pairs@.len(),
                    |i: int|
                        if 0 <= i < pairs@.len() {
                            (pairs@[i].0.view(), pairs@[i].1.view())
                        } else {
                            (ValueM::Scalar(ScalarM::Null), ValueM::Scalar(ScalarM::Null))
                        },
                ),
            ),
            Value::Reference(Reference::Binding(name)) => ValueM::RefBinding(name@),
            Value::Reference(Reference::ById(v)) => ValueM::RefById(seq![(**v).view()]),
            Value::Tensor(t) => ValueM::Tensor(
                t.element_type@,
                t.shape@,
                t.data@,
                annotations_view(t.annotations@),
            ),
            Value::Stream(s) => ValueM::Stream(s.item_type@, annotations_view(s.annotations@)),
            Value::Opaque(o) => ValueM::Opaque(o.type_tag@, o.bytes@),
        }
    }
}

/// The models of a sequence of fields.
pub open spec fn fields_model(fs: Seq<Field>) -> Seq<(Seq<char>, ValueM)> {
    Seq::new(fs.len(), |i: int| (fs[i].name@, fs[i].value@))
}

/// The models of a sequence of values.
pub open spec fn values_model(vs: Seq<Value>) -> Seq<ValueM> {
    Seq::new(vs.len(), |i: int| vs[i]@)
}

/// The models of a sequence of pairs.
pub open spec fn pairs_model(ps: Seq<(Value, Value)>) -> Seq<(ValueM, ValueM)> {
    Seq::new(ps.len(), |i: int| (ps[i].0@, ps[i].1@))
}

/// The model of a product value.
pub proof fn lemma_product_view(tn: Option<String>, fields: Vec<Field>)
    ensures
        Value::Product(Product { type_label: tn, fields })@ == ValueM::Product(opt_text(tn), fields_model(fields@)),
{
    reveal_with_fuel(<Value as View>::view, 2);
    let v = Value::Product(Product { type_label: tn, fields });
    if let ValueM::Product(_, s) = v@ {
        assert(s.len() == fields@.len());
        assert forall|i: int| 0 <= i < s.len() implies s[i] == fields_model(fields@)[i] by {}
        assert(s =~= fields_model(fields@));
    }
}

/// The model of a sum value.
pub proof fn lemma_sum_view(tn: Option<String>, variant: String, payload: SumPayload)
    ensures
        ({
            let v = Value::Sum(Sum { type_label: tn, variant, payload });
            match payload {
                SumPayload::Unit => v@ == ValueM::SumUnit(opt_text(tn), variant@),
                SumPayload::Tuple(items) => v@ == ValueM::SumTuple(opt_text(tn), variant@, values_model(items@)),
                SumPayload::Struct(fs) => v@ == ValueM::SumStruct(opt_text(tn), variant@, fields_model(fs@)),
            }
        }),
{
    reveal_with_fuel(<Value as View>::view, 2);
    let v = Value::Sum(Sum { type_label: tn, variant, payload });
    match payload {
        SumPayload::Unit => {},
        SumPayload::Tuple(items) => {
            if let ValueM::SumTuple(_, _, s) = v@ {
                assert(s.len() == items@.len());
                assert forall|i: int| 0 <= i < s.len() implies s[i] == values_model(items@)[i] by {}
                assert(s =~= values_model(items@));
            }
        },
        SumPayload::Struct(fs) => {
            if let ValueM::SumStruct(_, _, s) = v@ {
                assert(s.len() == fs@.len());
                assert forall|i: int| 0 <= i < s.len() implies s[i] == fields_model(fs@)[i] by {}
                assert(s =~= fields_model(fs@));
            }
        },
    }
}

/// The model of a sequence value.
pub proof fn lemma_sequence_view(et: Option<String>, items: Vec<Value>)
    ensures
        Value::Sequence(Sequence { elem_type: et, items })@ == ValueM::Sequence(opt_text(et), values_model(items@)),
{
    reveal_with_fuel(<Value as View>::view, 2);
    let v = Value::Sequence(Sequence { elem_type: et, items });
    if let ValueM::Sequence(_, s) = v@ {
        assert(s.len() == items@.len());
        assert forall|i: int| 0 <= i < s.len() implies s[i] == values_model(items@)[i] by {}
        assert(s =~= values_model(items@));
    }
}

/// The model of an association value.
pub proof fn lemma_association_view(pairs: Vec<(Value, Value)>)
    ensures
        Value::Association(pairs)@ == ValueM::Association(pairs_model(pairs@)),
{
    reveal_with_fuel(<Value as View>::view, 2);
    let v = Value::Association(pairs);
    if let ValueM::Association(s) = v@ {
        assert(s.len() == pairs@.len());
        assert forall|i: int| 0 <= i < s.len() implies s[i] == pairs_model(pairs@)[i] by {}
        assert(s =~= pairs_model(pairs@));
    }
}

/// A named value bound by `let`.
#[derive(Debug, PartialEq)]
pub struct Binding {
    pub name: String,
    pub value: Value,
}

/// A document: annotations, `use` lines, bindings and an optional root.
#[derive(Debug, PartialEq)]
pub struct Document {
    pub annotations: Vec<Annotation>,
    pub uses: Vec<String>,
    pub bindings: Vec<Binding>,
    pub root: Option<Value>,
}

/// A copy of a scalar.
pub fn clone_scalar(s: &Scalar) -> (r: Scalar)
    ensures
        r@ == s@,
{
    match s {
        Scalar::Null => Scalar::Null,
        Scalar::Unit => Scalar::Unit,
        Scalar::Bool(b) => Scalar::Bool(*b),
        Scalar::I64(v) => Scalar::I64(*v),
        Scalar::U64(v) => Scalar::U64(*v),
        Scalar::Vi64(v) => Scalar::Vi64(*v),
        Scalar::Vu64(v) => Scalar::Vu64(*v),
        Scalar::F32(v) => Scalar::F32(*v),
        Scalar::F64(v) => Scalar::F64(*v),
        Scalar::Str(t) => Scalar::Str(t.clone()),
        Scalar::Bytes(b) => Scalar::Bytes(slice_to_vec(b.as_slice())),
        Scalar::Sym(t) => Scalar::Sym(t.clone()),
        Scalar::Tagged { tag, value } => Scalar::Tagged { tag: tag.clone(), value: value.clone() },
    }
}

/// A copy of an optional text.
pub fn clone_opt_text(o: &Option<String>) -> (r: Option<String>)
    ensures
        opt_text(r) == opt_text(*o),
{
    match o {
        Some(t) => Some(t.clone()),
        None => None,
    }
}

/// A copy of annotations.
pub fn clone_annotations(v: &Vec<Annotation>) -> (r: Vec<Annotation>)
    ensures
        annotations_view(r@) == annotations_view(v@),
{
    let mut out: Vec<Annotation> = Vec::new();
    let mut i: usize = 0;
    while i < v.len()
        invariant
            i <= v@.len(),
            annotations_view(out@) == annotations_view(v@.subrange(0, i as int)),
        decreases v@.len() - i,
    {
        let value = match &v[i].value {
            Some(x) => Some(clone_scalar(x)),
            None => None,
        };
        let a = Annotation { name: v[i].name.clone(), value };
        proof {
            assert(annotations_view(out@.push(a)) =~= annotations_view(out@).push(a@));
            assert(annotations_view(v@.subrange(0, i + 1)) =~= annotations_view(v@.subrange(0, i as int)).push(v@[i as int]@));
        }
        out.push(a);
        i = i + 1;
    }
    proof {
        assert(v@.subrange(0, i as int) =~= v@);
    }
    out
}

/// A copy of a value.
pub fn clone_value(v: &Value) -> (r: Value)
    ensures
        r@ == v@,
    decreases v,
{
    match v {
        Value::Scalar(s) => Value::Scalar(clone_scalar(s)),
        Value::Product(p) => {
            proof {
                assert(decreases_to!(*v => v->Product_0));
                assert(decreases_to!(v->Product_0 => v->Product_0.fields));
            }
            let fields = clone_fields(&p.fields);
            let tn = clone_opt_text(&p.type_label);
            proof {
                lemma_product_view(tn, fields);
                lemma_product_view(p.type_label, p.fields);
            }
            Value::Product(Product { type_label: tn, fields })
        },
        Value::Sum(sm) => {
            let tn = clone_opt_text(&sm.type_label);
            let variant = sm.variant.clone();
            proof {
                lemma_sum_view(sm.type_label, sm.variant, sm.payload);
                assert(decreases_to!(*v => v->Sum_0));
                assert(decreases_to!(v->Sum_0 => v->Sum_0.payload));
            }
            let payload = match &sm.payload {
                SumPayload::Unit => SumPayload::Unit,
                SumPayload::Tuple(items) => {
                    proof {
                        assert(decreases_to!(v->Sum_0.payload => v->Sum_0.payload->Tuple_0));
                    }
                    SumPayload::Tuple(clone_values(items))
                },
                SumPayload::Struct(fields) => {
                    proof {
                        assert(decreases_to!(v->Sum_0.payload => v->Sum_0.payload->Struct_0));
                    }
                    SumPayload::Struct(clone_fields(fields))
                },
            };
            proof {
                lemma_sum_view(tn, variant, payload);
            }
            Value::Sum(Sum { type_label: tn, variant, payload })
        },
        Value::Sequence(q) => {
            proof {
                assert(decreases_to!(*v => v->Sequence_0));
                assert(decreases_to!(v->Sequence_0 => v->Sequence_0.items));
            }
            let items = clone_values(&q.items);
            let et = clone_opt_text(&q.elem_type);
            proof {
                lemma_sequence_view(et, items);
                lemma_sequence_view(q.elem_type, q.items);
            }
            Value::Sequence(Sequence { elem_type: et, items })
        },
        Value::Association(pairs) => {
            proof {
                assert(decreases_to!(*v => v->Association_0));
            }
            let c = clone_pairs(pairs);
            proof {
                lemma_association_view(c);
                lemma_association_view(*pairs);
            }
            Value::Association(c)
        },
        Value::Reference(Reference::Binding(name)) => Value::Reference(Reference::Binding(name.clone())),
        Value::Reference(Reference::ById(inner)) => {
            proof {
                assert(decreases_to!(*v => v->Reference_0));
                assert(decreases_to!(v->Reference_0 => v->Reference_0->ById_0));
            }
            let c = clone_value(inner);
            Value::Reference(Reference::ById(Box::new(c)))
        },
        Value::Tensor(t) => {
            let data = match &t.data {
                TensorData::DenseF64(w) => TensorData::DenseF64(slice_to_vec(w.as_slice())),
                TensorData::DenseI64(w) => TensorData::DenseI64(slice_to_vec(w.as_slice())),
                TensorData::DenseU64(w) => TensorData::DenseU64(slice_to_vec(w.as_slice())),
                TensorData::BinaryBlob(b) => TensorData::BinaryBlob(slice_to_vec(b.as_slice())),
            };
            Value::Tensor(
                Tensor {
                    element_type: t.element_type.clone(),
                    shape: slice_to_vec(t.shape.as_slice()),
                    data,
                    annotations: clone_annotations(&t.annotations),
                },
            )
        },
        Value::Stream(st) => Value::Stream(
            Stream { item_type: st.item_type.clone(), annotations: clone_annotations(&st.annotations) },
        ),
        Value::Opaque(o) => Value::Opaque(
            Opaque { type_tag: o.type_tag.clone(), bytes: slice_to_vec(o.bytes.as_slice()) },
        ),
    }
}

/// A copy of fields.
pub fn clone_fields(fields: &Vec<Field>) -> (r: Vec<Field>)
    ensures
        fields_model(r@) == fields_model(fields@),
    decreases fields,
{
    let mut out: Vec<Field> = Vec::new();
    let mut i: usize = 0;
    while i < fields.len()
        invariant
            i <= fields@.len(),
            fields_model(out@) == fields_model(fields@.subrange(0, i as int)),
        decreases fields@.len() - i,
    {
        proof {
            assert(decreases_to!(*fields => fields@));
            assert(decreases_to!(fields@ => fields@[i as int]));
            assert(decreases_to!(fields@[i as int] => fields@[i as int].value));
        }
        let f = Field { name: fields[i].name.clone(), value: clone_value(&fields[i].value) };
        proof {
            assert(fields_model(out@.push(f)) =~= fields_model(out@).push((f.name@, f.value@)));
            assert(fields_model(fields@.subrange(0, i + 1)) =~= fields_model(fields@.subrange(0, i as int)).push(
                (fields@[i as int].name@, fields@[i as int].value@),
            ));
        }
        out.push(f);
        i = i + 1;
    }
    proof {
        assert(fields@.subrange(0, i as int) =~= fields@);
    }
    out
}

/// A copy of values.
pub fn clone_values(items: &Vec<Value>) -> (r: Vec<Value>)
    ensures
        values_model(r@) == values_model(items@),
    decreases items,
{
    let mut out: Vec<Value> = Vec::new();
    let mut i: usize = 0;
    while i < items.len()
        invariant
            i <= items@.len(),
            values_model(out@) == values_model(items@.subrange(0, i as int)),
        decreases items@.len() - i,
    {
        proof {
            assert(decreases_to!(*items => items@));
            assert(decreases_to!(items@ => items@[i as int]));
        }
        let c = clone_value(&items[i]);
        proof {
            assert(values_model(out@.push(c)) =~= values_model(out@).push(c@));
            assert(values_model(items@.subrange(0, i + 1)) =~= values_model(items@.subrange(0, i as int)).push(items@[i as int]@));
        }
        out.push(c);
        i = i + 1;
    }
    proof {
        assert(items@.subrange(0, i as int) =~= items@);
    }
    out
}

/// A copy of pairs.
pub fn clone_pairs(pairs: &Vec<(Value, Value)>) -> (r: Vec<(Value, Value)>)
    ensures
        pairs_model(r@) == pairs_model(pairs@),
    decreases pairs,
{
    let mut out: Vec<(Value, Value)> = Vec::new();
    let mut i: usize = 0;
    while i < pairs.len()
        invariant
            i <= pairs@.len(),
            pairs_model(out@) == pairs_model(pairs@.subrange(0, i as int)),
        decreases pairs@.len() - i,
    {
        proof {
            assert(decreases_to!(*pairs => pairs@));
            assert(decreases_to!(pairs@ => pairs@[i as int]));
            assert(decreases_to!(pairs@[i as int] => pairs@[i as int].0));
            assert(decreases_to!(pairs@[i as int] => pairs@[i as int].1));
        }
        let k = clone_value(&pairs[i].0);
        let w = clone_value(&pairs[i].1);
        proof {
            assert(pairs_model(out@.push((k, w))) =~= pairs_model(out@).push((k@, w@)));
            assert(pairs_model(pairs@.subrange(0, i + 1)) =~= pairs_model(pairs@.subrange(0, i as int)).push(
                (pairs@[i as int].0@, pairs@[i as int].1@),
            ));
        }
        out.push((k, w));
        i = i + 1;
    }
    proof {
        assert(pairs@.subrange(0, i as int) =~= pairs@);
    }
    out
}

} // verus!
