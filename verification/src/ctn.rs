//! CTN, the indentation-oriented text notation of documents: its value
//! model and its formatter.
//!
//! A float is held as the text of its literal (without the `f32` or
//! `f64` suffix), which is what the notation writes.

use crate::render::{decimal, push_decimal, push_text, string_push};
use crate::text::{base64_encode, base64_encode_of, chars_of, escape_text, push_escaped};
use vstd::prelude::*;

verus! {

/// A scalar of the notation.
#[derive(Debug, PartialEq)]
pub enum CtnScalar {
    Null,
    Unit,
    Bool(bool),
    I64(i64),
    U64(u64),
    Vi64(i64),
    Vu64(u64),
    /// A 32-bit float, as the text of its literal.
    F32(String),
    /// A 64-bit float, as the text of its literal.
    F64(String),
    Str(String),
    Bytes(Vec<u8>),
    Sym(String),
    Tagged { tag: String, value: String },
}

/// A named annotation with an optional scalar value.
#[derive(Debug, PartialEq)]
pub struct CtnAnnotation {
    pub name: String,
    pub value: Option<CtnScalar>,
}

/// A named field of a product or of a struct-like variant.
#[derive(Debug, PartialEq)]
pub struct CtnField {
    pub name: String,
    pub value: CtnValue,
}

/// The payload of a sum (enum) value.
#[derive(Debug, PartialEq)]
pub enum CtnPayload {
    Unit,
    Tuple(Vec<CtnValue>),
    Struct(Vec<CtnField>),
}

/// The data of a tensor; 64-bit floats as the texts of their literals.
#[derive(Debug, PartialEq)]
pub enum CtnTensorData {
    DenseF64(Vec<String>),
    DenseI64(Vec<i64>),
    DenseU64(Vec<u64>),
    BinaryBlob(Vec<u8>),
}

/// A value of the notation.
#[derive(Debug, PartialEq)]
pub enum CtnValue {
    Scalar(CtnScalar),
    Product { type_label: Option<String>, fields: Vec<CtnField> },
    Sum { type_label: Option<String>, variant: String, payload: CtnPayload },
    Sequence { elem_type: Option<String>, items: Vec<CtnValue> },
    Association(Vec<(CtnValue, CtnValue)>),
    /// `&name`: a reference to a binding.
    RefBinding(String),
    /// `ref value`: a value referenced by id.
    RefById(Box<CtnValue>),
    Tensor { element_type: String, shape: Vec<Option<u64>>, data: CtnTensorData, annotations: Vec<CtnAnnotation> },
    Stream { item_type: String, annotations: Vec<CtnAnnotation> },
    Opaque { type_tag: String, bytes: Vec<u8> },
}

/// A named value bound by `let`.
#[derive(Debug, PartialEq)]
pub struct CtnBinding {
    pub name: String,
    pub value: CtnValue,
}

/// A document: annotations, `use` lines, bindings and an optional root.
#[derive(Debug, PartialEq)]
pub struct CtnDocument {
    pub annotations: Vec<CtnAnnotation>,
    pub uses: Vec<String>,
    pub bindings: Vec<CtnBinding>,
    pub root: Option<CtnValue>,
}

/// A scalar of the notation, as a mathematical value.
pub enum CtnScalarM {
    Null,
    Unit,
    Bool(bool),
    I64(i64),
    U64(u64),
    Vi64(i64),
    Vu64(u64),
    F32(Seq<char>),
    F64(Seq<char>),
    Str(Seq<char>),
    Bytes(Seq<u8>),
    Sym(Seq<char>),
    Tagged(Seq<char>, Seq<char>),
}

impl View for CtnScalar {
    type V = CtnScalarM;

    open spec fn view(&self) -> CtnScalarM {
        match self {
            CtnScalar::Null => CtnScalarM::Null,
            CtnScalar::Unit => CtnScalarM::Unit,
            CtnScalar::Bool(b) => CtnScalarM::Bool(*b),
            CtnScalar::I64(v) => CtnScalarM::I64(*v),
            CtnScalar::U64(v) => CtnScalarM::U64(*v),
            CtnScalar::Vi64(v) => CtnScalarM::Vi64(*v),
            CtnScalar::Vu64(v) => CtnScalarM::Vu64(*v),
            CtnScalar::F32(t) => CtnScalarM::F32(t@),
            CtnScalar::F64(t) => CtnScalarM::F64(t@),
            CtnScalar::Str(t) => CtnScalarM::Str(t@),
            CtnScalar::Bytes(b) => CtnScalarM::Bytes(b@),
            CtnScalar::Sym(t) => CtnScalarM::Sym(t@),
            CtnScalar::Tagged { tag, value } => CtnScalarM::Tagged(tag@, value@),
        }
    }
}

/// A value of the notation, as a mathematical value. (Tensors and
/// streams, which only the block layout writes, are not among the values
/// an inline expression reads.)
pub enum CtnValueM {
    Scalar(CtnScalarM),
    Product(Option<Seq<char>>, Seq<(Seq<char>, CtnValueM)>),
    SumUnit(Option<Seq<char>>, Seq<char>),
    SumTuple(Option<Seq<char>>, Seq<char>, Seq<CtnValueM>),
    SumStruct(Option<Seq<char>>, Seq<char>, Seq<(Seq<char>, CtnValueM)>),
    Sequence(Option<Seq<char>>, Seq<CtnValueM>),
    Association(Seq<(CtnValueM, CtnValueM)>),
    RefBinding(Seq<char>),
    /// The referenced value, as the one element of a sequence.
    RefById(Seq<CtnValueM>),
    /// A tensor: element type, shape, data and annotations.
    Tensor(Seq<char>, Seq<Option<u64>>, TensorDataM, Seq<(Seq<char>, Option<CtnScalarM>)>),
    /// A stream header: item type and annotations.
    Stream(Seq<char>, Seq<(Seq<char>, Option<CtnScalarM>)>),
    /// Any other value (an opaque value).
    Other,
}

/// The data of a tensor, as a mathematical value.
pub enum TensorDataM {
    DenseF64(Seq<Seq<char>>),
    DenseI64(Seq<i64>),
    DenseU64(Seq<u64>),
    BinaryBlob(Seq<u8>),
}

impl View for CtnAnnotation {
    type V = (Seq<char>, Option<CtnScalarM>);

    open spec fn view(&self) -> (Seq<char>, Option<CtnScalarM>) {
        (
            self.name@,
            match self.value {
                Some(v) => Some(v@),
                None => None,
            },
        )
    }
}

/// The models of annotations.
pub open spec fn anns_m(a: Seq<CtnAnnotation>) -> Seq<(Seq<char>, Option<CtnScalarM>)> {
    Seq::new(a.len(), |i: int| a[i]@)
}

/// The models of strings.
pub open spec fn strings_m(a: Seq<String>) -> Seq<Seq<char>> {
    Seq::new(a.len(), |i: int| a[i]@)
}

impl View for CtnTensorData {
    type V = TensorDataM;

    open spec fn view(&self) -> TensorDataM {
        match self {
            CtnTensorData::DenseF64(v) => TensorDataM::DenseF64(strings_m(v@)),
            CtnTensorData::DenseI64(v) => TensorDataM::DenseI64(v@),
            CtnTensorData::DenseU64(v) => TensorDataM::DenseU64(v@),
            CtnTensorData::BinaryBlob(v) => TensorDataM::BinaryBlob(v@),
        }
    }
}

/// The model of an optional string.
pub open spec fn opt_seq(o: Option<String>) -> Option<Seq<char>> {
    match o {
        Some(t) => Some(t@),
        None => None,
    }
}

impl View for CtnValue {
    type V = CtnValueM;

    open spec fn view(&self) -> CtnValueM
        decreases self,
    {
        match self {
            CtnValue::Scalar(s) => CtnValueM::Scalar(s@),
            CtnValue::Product { type_label, fields } => CtnValueM::Product(opt_seq(*type_label), fields_m(fields@)),
            CtnValue::Sum { type_label, variant, payload } => match payload {
                CtnPayload::Unit => CtnValueM::SumUnit(opt_seq(*type_label), variant@),
                CtnPayload::Tuple(items) => CtnValueM::SumTuple(opt_seq(*type_label), variant@, values_m(items@)),
                CtnPayload::Struct(fields) => CtnValueM::SumStruct(
                    opt_seq(*type_label),
                    variant@,
                    fields_m(fields@),
                ),
            },
            CtnValue::Sequence { elem_type, items } => CtnValueM::Sequence(opt_seq(*elem_type), values_m(items@)),
            CtnValue::Association(pairs) => CtnValueM::Association(pairs_m(pairs@)),
            CtnValue::RefBinding(n) => CtnValueM::RefBinding(n@),
            CtnValue::RefById(b) => CtnValueM::RefById(seq![(**b).view()]),
            CtnValue::Tensor { element_type, shape, data, annotations } => CtnValueM::Tensor(
                element_type@,
                shape@,
                data@,
                anns_m(annotations@),
            ),
            CtnValue::Stream { item_type, annotations } => CtnValueM::Stream(item_type@, anns_m(annotations@)),
            _ => CtnValueM::Other,
        }
    }
}

/// The models of values.
pub open spec fn values_m(vs: Seq<CtnValue>) -> Seq<CtnValueM>
    decreases vs,
{
    if vs.len() == 0 {
        Seq::empty()
    } else {
        values_m(vs.drop_last()).push(vs.last().view())
    }
}

/// The models of fields.
pub open spec fn fields_m(fs: Seq<CtnField>) -> Seq<(Seq<char>, CtnValueM)>
    decreases fs,
{
    if fs.len() == 0 {
        Seq::empty()
    } else {
        fields_m(fs.drop_last()).push((fs.last().name@, fs.last().value.view()))
    }
}

/// The models of pairs.
pub open spec fn pairs_m(ps: Seq<(CtnValue, CtnValue)>) -> Seq<(CtnValueM, CtnValueM)>
    decreases ps,
{
    if ps.len() == 0 {
        Seq::empty()
    } else {
        pairs_m(ps.drop_last()).push((ps.last().0.view(), ps.last().1.view()))
    }
}

/// How a signed integer is written.
pub open spec fn signed_text(n: i64) -> Seq<char> {
    if n < 0 {
        seq!['-'] + decimal((0 - n) as nat)
    } else {
        decimal(n as nat)
    }
}

/// How a scalar is written.
pub open spec fn scalar_text(s: CtnScalar) -> Seq<char> {
    match s {
        CtnScalar::Null => "null"@,
        CtnScalar::Unit => "unit"@,
        CtnScalar::Bool(b) => if b {
            "true"@
        } else {
            "false"@
        },
        CtnScalar::I64(v) => signed_text(v) + "i64"@,
        CtnScalar::U64(v) => decimal(v as nat) + "u64"@,
        CtnScalar::Vi64(v) => signed_text(v),
        CtnScalar::Vu64(v) => decimal(v as nat),
        CtnScalar::F32(t) => t@ + "f32"@,
        CtnScalar::F64(t) => t@ + "f64"@,
        CtnScalar::Str(v) => seq!['"'] + escape_text(v@) + seq!['"'],
        CtnScalar::Bytes(b) => "b64\""@ + base64_encode_of(b@) + seq!['"'],
        CtnScalar::Sym(v) => seq!['\''] + v@,
        CtnScalar::Tagged { tag, value } => tag@ + seq!['"'] + escape_text(value@) + seq!['"'],
    }
}

/// How an annotation is written: `@name`, then the value after a space.
pub open spec fn annotation_text(a: CtnAnnotation) -> Seq<char> {
    match a.value {
        Some(v) => seq!['@'] + a.name@ + seq![' '] + scalar_text(v),
        None => seq!['@'] + a.name@,
    }
}

/// `s` with each carriage return that precedes a line feed removed.
pub open spec fn crlf(s: Seq<char>) -> Seq<char>
    decreases s.len(),
{
    if s.len() == 0 {
        Seq::empty()
    } else if s.len() >= 2 && s[0] == '\r' && s[1] == '\n' {
        seq!['\n'] + crlf(s.subrange(2, s.len() as int))
    } else {
        seq![s[0]] + crlf(s.subrange(1, s.len() as int))
    }
}

/// The lines of `s`, as `str::lines` splits them (at `\n` or `\r\n`,
/// with no empty line after a final line ending), joined again by `\n`.
pub open spec fn relines(s: Seq<char>) -> Seq<char> {
    let t = crlf(s);
    if t.len() > 0 && t.last() == '\n' {
        t.drop_last()
    } else {
        t
    }
}

/// The text of an optional name, or `default`.
pub open spec fn name_or(o: Option<String>, default: Seq<char>) -> Seq<char> {
    match o {
        Some(t) => t@,
        None => default,
    }
}

/// Whether a short sequence may hold `v` and still be written on one line.
pub open spec fn is_flat(v: CtnValue) -> bool {
    v is Scalar || v is RefBinding || v is RefById
}

/// A sequence written on one line: at most eight scalars or references.
pub open spec fn flat_items(items: Seq<CtnValue>) -> bool {
    items.len() <= 8 && forall|i: int| 0 <= i < items.len() ==> is_flat(#[trigger] items[i])
}

/// The one-line form of a value, if it has one: scalars, references,
/// unit variants and short flat sequences.
pub open spec fn inline_of(v: CtnValue) -> Option<Seq<char>>
    decreases v, 0nat,
{
    match v {
        CtnValue::Scalar(s) => Some(scalar_text(s)),
        CtnValue::RefBinding(n) => Some(seq!['&'] + n@),
        CtnValue::RefById(b) => Some("ref "@ + rend(*b, Seq::empty())),
        CtnValue::Sum { type_label, variant, payload } => match payload {
            CtnPayload::Unit => Some(
                match type_label {
                    Some(t) => t@ + " :: "@ + variant@,
                    None => variant@,
                },
            ),
            _ => None,
        },
        CtnValue::Sequence { elem_type, items } => if flat_items(items@) {
            Some(seq!['['] + inline_list(items@, true) + seq![']'])
        } else {
            None
        },
        _ => None,
    }
}

/// Items written on one line, separated by `, `.
pub open spec fn inline_list(items: Seq<CtnValue>, first: bool) -> Seq<char>
    decreases items, 2nat,
{
    if items.len() == 0 {
        Seq::empty()
    } else {
        (if first {
            Seq::empty()
        } else {
            ", "@
        }) + rend(items[0], Seq::empty()) + inline_list(items.subrange(1, items.len() as int), false)
    }
}

/// The text of `v`, whose nested lines are indented by `ind` plus two
/// spaces.
pub open spec fn rend(v: CtnValue, ind: Seq<char>) -> Seq<char>
    decreases v, 1nat,
{
    match inline_of(v) {
        Some(t) => t,
        None => match v {
            CtnValue::Product { type_label, fields } => name_or(type_label, "struct"@) + field_lines(fields@, ind),
            CtnValue::Sequence { elem_type, items } => "seq<"@ + name_or(elem_type, "any"@) + seq!['>'] + item_lines(items@, ind),
            CtnValue::Association(pairs) => if pairs@.len() == 0 {
                "map<any, any> []"@
            } else {
                "map<any, any>"@ + entry_lines(pairs@, ind)
            },
            CtnValue::Sum { type_label, variant, payload } => (match type_label {
                Some(t) => t@ + " :: "@,
                None => Seq::empty(),
            }) + variant@ + match payload {
                CtnPayload::Unit => Seq::empty(),
                CtnPayload::Tuple(items) => seq!['('] + tuple_list(items@, ind, true) + seq![')'],
                CtnPayload::Struct(fs) => sum_field_lines(fs@, ind),
            },
            CtnValue::Tensor { element_type, shape, data, annotations } => "tensor<"@ + element_type@ + seq!['>'] + (if shape@.len() > 0 {
                seq!['['] + dims_text(shape@, true) + seq![']']
            } else {
                Seq::empty()
            }) + annotation_lines(annotations@, ind) + data_text(data, ind),
            CtnValue::Stream { item_type, annotations } => "stream<"@ + item_type@ + seq!['>'] + annotation_lines(annotations@, ind),
            CtnValue::Opaque { type_tag, bytes } => "opaque<"@ + type_tag@ + "> <binary: "@ + decimal(bytes@.len()) + " bytes>"@,
            _ => Seq::empty(),
        },
    }
}

/// The value of a field or entry after ` = ` or ` => `: its one-line
/// form, or its lines.
pub open spec fn value_after(v: CtnValue, ind: Seq<char>) -> Seq<char>
    decreases v, 2nat,
{
    match inline_of(v) {
        Some(t) => t,
        None => relines(rend(v, ind + "  "@)),
    }
}

/// The fields of a product, one per line.
pub open spec fn field_lines(fs: Seq<CtnField>, ind: Seq<char>) -> Seq<char>
    decreases fs, 3nat,
{
    if fs.len() == 0 {
        Seq::empty()
    } else {
        seq!['\n'] + ind + "  "@ + fs[0].name@ + " = "@ + value_after(fs[0].value, ind) + field_lines(
            fs.subrange(1, fs.len() as int),
            ind,
        )
    }
}

/// The items of a sequence, one per line.
pub open spec fn item_lines(items: Seq<CtnValue>, ind: Seq<char>) -> Seq<char>
    decreases items, 3nat,
{
    if items.len() == 0 {
        Seq::empty()
    } else {
        seq!['\n'] + ind + "  "@ + relines(rend(items[0], ind + "  "@)) + item_lines(
            items.subrange(1, items.len() as int),
            ind,
        )
    }
}

/// The entries of a map, one `key => value` per line.
pub open spec fn entry_lines(ps: Seq<(CtnValue, CtnValue)>, ind: Seq<char>) -> Seq<char>
    decreases ps, 3nat,
{
    if ps.len() == 0 {
        Seq::empty()
    } else {
        seq!['\n'] + ind + "  "@ + rend(ps[0].0, ind + "  "@) + " => "@ + value_after(ps[0].1, ind) + entry_lines(
            ps.subrange(1, ps.len() as int),
            ind,
        )
    }
}

/// The items of a tuple payload, separated by `, `.
pub open spec fn tuple_list(items: Seq<CtnValue>, ind: Seq<char>, first: bool) -> Seq<char>
    decreases items, 3nat,
{
    if items.len() == 0 {
        Seq::empty()
    } else {
        (if first {
            Seq::empty()
        } else {
            ", "@
        }) + rend(items[0], ind) + tuple_list(items.subrange(1, items.len() as int), ind, false)
    }
}

/// The fields of a struct payload, one per line.
pub open spec fn sum_field_lines(fs: Seq<CtnField>, ind: Seq<char>) -> Seq<char>
    decreases fs, 3nat,
{
    if fs.len() == 0 {
        Seq::empty()
    } else {
        seq!['\n'] + ind + "  "@ + fs[0].name@ + " = "@ + rend(fs[0].value, ind + "  "@) + sum_field_lines(
            fs.subrange(1, fs.len() as int),
            ind,
        )
    }
}

/// The dimensions of a tensor shape, `_` for an open one.
pub open spec fn dims_text(shape: Seq<Option<u64>>, first: bool) -> Seq<char>
    decreases shape.len(),
{
    if shape.len() == 0 {
        Seq::empty()
    } else {
        (if first {
            Seq::empty()
        } else {
            ", "@
        }) + match shape[0] {
            Some(d) => decimal(d as nat),
            None => seq!['_'],
        } + dims_text(shape.subrange(1, shape.len() as int), false)
    }
}

/// Annotations, one per line.
pub open spec fn annotation_lines(anns: Seq<CtnAnnotation>, ind: Seq<char>) -> Seq<char>
    decreases anns.len(),
{
    if anns.len() == 0 {
        Seq::empty()
    } else {
        seq!['\n'] + ind + "  "@ + annotation_text(anns[0]) + annotation_lines(anns.subrange(1, anns.len() as int), ind)
    }
}

/// Texts joined by `, `, each followed by `suffix`.
pub open spec fn suffixed_list(ts: Seq<Seq<char>>, suffix: Seq<char>, first: bool) -> Seq<char>
    decreases ts.len(),
{
    if ts.len() == 0 {
        Seq::empty()
    } else {
        (if first {
            Seq::empty()
        } else {
            ", "@
        }) + ts[0] + suffix + suffixed_list(ts.subrange(1, ts.len() as int), suffix, false)
    }
}

/// The line of a tensor's data.
pub open spec fn data_text(d: CtnTensorData, ind: Seq<char>) -> Seq<char> {
    seq!['\n'] + ind + "  "@ + match d {
        CtnTensorData::DenseF64(vs) => seq!['['] + suffixed_list(vs@.map_values(|s: String| s@), "f64"@, true) + seq![']'],
        CtnTensorData::DenseI64(vs) => seq!['['] + suffixed_list(vs@.map_values(|n: i64| signed_text(n)), "i64"@, true)
            + seq![']'],
        CtnTensorData::DenseU64(vs) => seq!['['] + suffixed_list(vs@.map_values(|n: u64| decimal(n as nat)), "u64"@, true)
            + seq![']'],
        CtnTensorData::BinaryBlob(b) => "<binary: "@ + decimal(b@.len()) + " bytes>"@,
    }
}

/// The text of a value, as `format_value` writes it.
pub open spec fn ctn_render(v: CtnValue) -> Seq<char> {
    rend(v, Seq::empty())
}

/// Appends the decimal text of a signed integer.
pub(crate) fn push_signed(out: &mut String, n: i64)
    ensures
        final(out)@ == old(out)@ + signed_text(n),
{
    if n < 0 {
        let m: u64 = if n == i64::MIN {
            0x8000_0000_0000_0000
        } else {
            (0 - n) as u64
        };
        let ghost before = out@;
        string_push(out, '-');
        push_decimal(out, m);
        proof {
            assert(out@ =~= before + (seq!['-'] + decimal(m as nat)));
        }
    } else {
        push_decimal(out, n as u64);
    }
}

/// Appends a string between quotes, escaped.
fn push_quoted(out: &mut String, s: &String)
    ensures
        final(out)@ == old(out)@ + (seq!['"'] + escape_text(s@) + seq!['"']),
{
    let ghost before = out@;
    string_push(out, '"');
    push_escaped(out, s);
    string_push(out, '"');
    proof {
        assert(out@ =~= before + (seq!['"'] + escape_text(s@) + seq!['"']));
    }
}

/// Appends the text of a scalar.
fn push_scalar(out: &mut String, s: &CtnScalar)
    ensures
        final(out)@ == old(out)@ + scalar_text(*s),
{
    let ghost before = out@;
    match s {
        CtnScalar::Null => push_text(out, "null"),
        CtnScalar::Unit => push_text(out, "unit"),
        CtnScalar::Bool(b) => {
            if *b {
                push_text(out, "true")
            } else {
                push_text(out, "false")
            }
        },
        CtnScalar::I64(v) => {
            push_signed(out, *v);
            push_text(out, "i64");
        },
        CtnScalar::U64(v) => {
            push_decimal(out, *v);
            push_text(out, "u64");
        },
        CtnScalar::Vi64(v) => push_signed(out, *v),
        CtnScalar::Vu64(v) => push_decimal(out, *v),
        CtnScalar::F32(t) => {
            push_text(out, t.as_str());
            push_text(out, "f32");
        },
        CtnScalar::F64(t) => {
            push_text(out, t.as_str());
            push_text(out, "f64");
        },
        CtnScalar::Str(v) => push_quoted(out, v),
        CtnScalar::Bytes(b) => {
            push_text(out, "b64\"");
            let enc = base64_encode(b.as_slice());
            push_text(out, enc.as_str());
            string_push(out, '"');
        },
        CtnScalar::Sym(v) => {
            string_push(out, '\'');
            push_text(out, v.as_str());
        },
        CtnScalar::Tagged { tag, value } => {
            push_text(out, tag.as_str());
            push_quoted(out, value);
        },
    }
    proof {
        assert(out@ =~= before + scalar_text(*s));
    }
}

/// Appends the text of an annotation.
fn push_annotation(out: &mut String, a: &CtnAnnotation)
    ensures
        final(out)@ == old(out)@ + annotation_text(*a),
{
    let ghost before = out@;
    string_push(out, '@');
    push_text(out, a.name.as_str());
    match &a.value {
        Some(v) => {
            string_push(out, ' ');
            push_scalar(out, v);
        },
        None => {},
    }
    proof {
        assert(out@ =~= before + annotation_text(*a));
    }
}

/// Appends each annotation on a line of its own, indented by `pad`.
fn push_annotation_lines(out: &mut String, anns: &Vec<CtnAnnotation>, pad: &String, ind: Ghost<Seq<char>>)
    requires
        pad@ == ind@ + "  "@,
    ensures
        final(out)@ == old(out)@ + annotation_lines(anns@, ind@),
{
    let mut i: usize = 0;
    proof {
        assert(anns@.subrange(0, anns@.len() as int) =~= anns@);
    }
    while i < anns.len()
        invariant
            i <= anns@.len(),
            pad@ == ind@ + "  "@,
            old(out)@ + annotation_lines(anns@, ind@) == out@ + annotation_lines(anns@.subrange(i as int, anns@.len() as int), ind@),
        decreases anns@.len() - i,
    {
        let ghost rest = anns@.subrange(i as int, anns@.len() as int);
        let ghost o1 = out@;
        string_push(out, '\n');
        push_text(out, pad.as_str());
        push_annotation(out, &anns[i]);
        proof {
            assert(rest[0] == anns@[i as int]);
            assert(rest.subrange(1, rest.len() as int) =~= anns@.subrange(i + 1, anns@.len() as int));
            assert(o1 + annotation_lines(rest, ind@) =~= out@ + annotation_lines(
                anns@.subrange(i + 1, anns@.len() as int),
                ind@,
            ));
        }
        i = i + 1;
    }
    proof {
        assert(anns@.subrange(i as int, anns@.len() as int) =~= Seq::<CtnAnnotation>::empty());
        assert(out@ + Seq::<char>::empty() =~= out@);
    }
}

/// `s` with the carriage return of each `\r\n` removed, and without a
/// final line feed: its lines joined by `\n`.
fn relines_of(s: &String) -> (r: String)
    ensures
        r@ == relines(s@),
{
    let cs = chars_of(s.as_str());
    let n = cs.len();
    let mut t: Vec<char> = Vec::new();
    let mut i: usize = 0;
    proof {
        assert(cs@.subrange(0, n as int) =~= cs@);
    }
    while i < n
        invariant
            i <= n,
            n == cs@.len(),
            cs@ == s@,
            t@ + crlf(cs@.subrange(i as int, n as int)) == crlf(cs@),
        decreases n - i,
    {
        let ghost rest = cs@.subrange(i as int, n as int);
        if i + 1 < n && cs[i] == '\r' && cs[i + 1] == '\n' {
            t.push('\n');
            proof {
                assert(rest.subrange(2, rest.len() as int) =~= cs@.subrange(i + 2, n as int));
                assert(t@ + crlf(cs@.subrange(i + 2, n as int)) =~= t@.drop_last() + (seq!['\n'] + crlf(
                    cs@.subrange(i + 2, n as int),
                )));
            }
            i = i + 2;
        } else {
            t.push(cs[i]);
            proof {
                assert(rest[0] == cs@[i as int]);
                assert(rest.subrange(1, rest.len() as int) =~= cs@.subrange(i + 1, n as int));
                assert(t@ + crlf(cs@.subrange(i + 1, n as int)) =~= t@.drop_last() + (seq![cs@[i as int]] + crlf(
                    cs@.subrange(i + 1, n as int),
                )));
            }
            i = i + 1;
        }
    }
    proof {
        assert(cs@.subrange(i as int, n as int) =~= Seq::<char>::empty());
        assert(t@ + Seq::<char>::empty() =~= t@);
    }
    let m = if t.len() > 0 && t[t.len() - 1] == '\n' {
        t.len() - 1
    } else {
        t.len()
    };
    let mut r = String::new();
    let mut j: usize = 0;
    while j < m
        invariant
            j <= m <= t@.len(),
            r@ == t@.subrange(0, j as int),
        decreases m - j,
    {
        string_push(&mut r, t[j]);
        proof {
            assert(r@ =~= t@.subrange(0, j + 1));
        }
        j = j + 1;
    }
    proof {
        assert(r@ =~= relines(s@));
    }
    r
}

/// `ind` followed by two spaces.
fn child_pad(ind: &String) -> (pad: String)
    ensures
        pad@ == ind@ + "  "@,
{
    let mut pad = String::new();
    push_text(&mut pad, ind.as_str());
    push_text(&mut pad, "  ");
    proof {
        assert(pad@ =~= ind@ + "  "@);
    }
    pad
}

/// Appends a field's or entry's value after ` = ` or ` => `.
fn push_value_after(out: &mut String, v: &CtnValue, pad: &String, ind: Ghost<Seq<char>>)
    requires
        pad@ == ind@ + "  "@,
    ensures
        final(out)@ == old(out)@ + value_after(*v, ind@),
    decreases v, 2nat,
{
    match to_inline(v) {
        Some(t) => push_text(out, t.as_str()),
        None => {
            let nested = render_value(v, pad);
            let rl = relines_of(&nested);
            push_text(out, rl.as_str());
        },
    }
}

/// Appends the fields of a product, one per line.
fn push_field_lines(out: &mut String, fs: &Vec<CtnField>, pad: &String, ind: Ghost<Seq<char>>)
    requires
        pad@ == ind@ + "  "@,
    ensures
        final(out)@ == old(out)@ + field_lines(fs@, ind@),
    decreases fs, 3nat,
{
    let mut i: usize = 0;
    proof {
        assert(fs@.subrange(0, fs@.len() as int) =~= fs@);
    }
    while i < fs.len()
        invariant
            i <= fs@.len(),
            pad@ == ind@ + "  "@,
            old(out)@ + field_lines(fs@, ind@) == out@ + field_lines(fs@.subrange(i as int, fs@.len() as int), ind@),
        decreases fs@.len() - i,
    {
        let ghost rest = fs@.subrange(i as int, fs@.len() as int);
        let ghost o1 = out@;
        string_push(out, '\n');
        push_text(out, pad.as_str());
        push_text(out, fs[i].name.as_str());
        push_text(out, " = ");
        proof {
            assert(decreases_to!(*fs => fs@));
            assert(decreases_to!(fs@ => fs@[i as int]));
            assert(decreases_to!(fs@[i as int] => fs@[i as int].value));
        }
        push_value_after(out, &fs[i].value, pad, ind);
        proof {
            assert(rest[0] == fs@[i as int]);
            assert(rest.subrange(1, rest.len() as int) =~= fs@.subrange(i + 1, fs@.len() as int));
            assert(o1 + field_lines(rest, ind@) =~= out@ + field_lines(fs@.subrange(i + 1, fs@.len() as int), ind@));
        }
        i = i + 1;
    }
    proof {
        assert(fs@.subrange(i as int, fs@.len() as int) =~= Seq::<CtnField>::empty());
        assert(out@ + Seq::<char>::empty() =~= out@);
    }
}

/// Appends the fields of a struct payload, one per line.
fn push_sum_field_lines(out: &mut String, fs: &Vec<CtnField>, pad: &String, ind: Ghost<Seq<char>>)
    requires
        pad@ == ind@ + "  "@,
    ensures
        final(out)@ == old(out)@ + sum_field_lines(fs@, ind@),
    decreases fs, 3nat,
{
    let mut i: usize = 0;
    proof {
        assert(fs@.subrange(0, fs@.len() as int) =~= fs@);
    }
    while i < fs.len()
        invariant
            i <= fs@.len(),
            pad@ == ind@ + "  "@,
            old(out)@ + sum_field_lines(fs@, ind@) == out@ + sum_field_lines(fs@.subrange(i as int, fs@.len() as int), ind@),
        decreases fs@.len() - i,
    {
        let ghost rest = fs@.subrange(i as int, fs@.len() as int);
        let ghost o1 = out@;
        string_push(out, '\n');
        push_text(out, pad.as_str());
        push_text(out, fs[i].name.as_str());
        push_text(out, " = ");
        proof {
            assert(decreases_to!(*fs => fs@));
            assert(decreases_to!(fs@ => fs@[i as int]));
            assert(decreases_to!(fs@[i as int] => fs@[i as int].value));
        }
        let nested = render_value(&fs[i].value, pad);
        push_text(out, nested.as_str());
        proof {
            assert(rest[0] == fs@[i as int]);
            assert(rest.subrange(1, rest.len() as int) =~= fs@.subrange(i + 1, fs@.len() as int));
            assert(o1 + sum_field_lines(rest, ind@) =~= out@ + sum_field_lines(
                fs@.subrange(i + 1, fs@.len() as int),
                ind@,
            ));
        }
        i = i + 1;
    }
    proof {
        assert(fs@.subrange(i as int, fs@.len() as int) =~= Seq::<CtnField>::empty());
        assert(out@ + Seq::<char>::empty() =~= out@);
    }
}

/// Appends the items of a sequence, one per line.
fn push_item_lines(out: &mut String, items: &Vec<CtnValue>, pad: &String, ind: Ghost<Seq<char>>)
    requires
        pad@ == ind@ + "  "@,
    ensures
        final(out)@ == old(out)@ + item_lines(items@, ind@),
    decreases items, 3nat,
{
    let mut i: usize = 0;
    proof {
        assert(items@.subrange(0, items@.len() as int) =~= items@);
    }
    while i < items.len()
        invariant
            i <= items@.len(),
            pad@ == ind@ + "  "@,
            old(out)@ + item_lines(items@, ind@) == out@ + item_lines(items@.subrange(i as int, items@.len() as int), ind@),
        decreases items@.len() - i,
    {
        let ghost rest = items@.subrange(i as int, items@.len() as int);
        let ghost o1 = out@;
        string_push(out, '\n');
        push_text(out, pad.as_str());
        proof {
            assert(decreases_to!(*items => items@));
            assert(decreases_to!(items@ => items@[i as int]));
        }
        let nested = render_value(&items[i], pad);
        let rl = relines_of(&nested);
        push_text(out, rl.as_str());
        proof {
            assert(rest[0] == items@[i as int]);
            assert(rest.subrange(1, rest.len() as int) =~= items@.subrange(i + 1, items@.len() as int));
            assert(o1 + item_lines(rest, ind@) =~= out@ + item_lines(items@.subrange(i + 1, items@.len() as int), ind@));
        }
        i = i + 1;
    }
    proof {
        assert(items@.subrange(i as int, items@.len() as int) =~= Seq::<CtnValue>::empty());
        assert(out@ + Seq::<char>::empty() =~= out@);
    }
}

/// Appends the entries of a map, one `key => value` per line.
fn push_entry_lines(out: &mut String, ps: &Vec<(CtnValue, CtnValue)>, pad: &String, ind: Ghost<Seq<char>>)
    requires
        pad@ == ind@ + "  "@,
    ensures
        final(out)@ == old(out)@ + entry_lines(ps@, ind@),
    decreases ps, 3nat,
{
    let mut i: usize = 0;
    proof {
        assert(ps@.subrange(0, ps@.len() as int) =~= ps@);
    }
    while i < ps.len()
        invariant
            i <= ps@.len(),
            pad@ == ind@ + "  "@,
            old(out)@ + entry_lines(ps@, ind@) == out@ + entry_lines(ps@.subrange(i as int, ps@.len() as int), ind@),
        decreases ps@.len() - i,
    {
        let ghost rest = ps@.subrange(i as int, ps@.len() as int);
        let ghost o1 = out@;
        string_push(out, '\n');
        push_text(out, pad.as_str());
        proof {
            assert(decreases_to!(*ps => ps@));
            assert(decreases_to!(ps@ => ps@[i as int]));
            assert(decreases_to!(ps@[i as int] => ps@[i as int].0));
            assert(decreases_to!(ps@[i as int] => ps@[i as int].1));
        }
        let key = render_value(&ps[i].0, pad);
        push_text(out, key.as_str());
        push_text(out, " => ");
        push_value_after(out, &ps[i].1, pad, ind);
        proof {
            assert(rest[0] == ps@[i as int]);
            assert(rest.subrange(1, rest.len() as int) =~= ps@.subrange(i + 1, ps@.len() as int));
            assert(o1 + entry_lines(rest, ind@) =~= out@ + entry_lines(ps@.subrange(i + 1, ps@.len() as int), ind@));
        }
        i = i + 1;
    }
    proof {
        assert(ps@.subrange(i as int, ps@.len() as int) =~= Seq::<(CtnValue, CtnValue)>::empty());
        assert(out@ + Seq::<char>::empty() =~= out@);
    }
}

/// Appends the items of a tuple payload, separated by `, `.
fn push_tuple_list(out: &mut String, items: &Vec<CtnValue>, ind: &String)
    ensures
        final(out)@ == old(out)@ + tuple_list(items@, ind@, true),
    decreases items, 3nat,
{
    let mut i: usize = 0;
    proof {
        assert(items@.subrange(0, items@.len() as int) =~= items@);
    }
    while i < items.len()
        invariant
            i <= items@.len(),
            old(out)@ + tuple_list(items@, ind@, true) == out@ + tuple_list(
                items@.subrange(i as int, items@.len() as int),
                ind@,
                i == 0,
            ),
        decreases items@.len() - i,
    {
        let ghost rest = items@.subrange(i as int, items@.len() as int);
        let ghost o1 = out@;
        if i > 0 {
            push_text(out, ", ");
        }
        proof {
            assert(decreases_to!(*items => items@));
            assert(decreases_to!(items@ => items@[i as int]));
        }
        let t = render_value(&items[i], ind);
        push_text(out, t.as_str());
        proof {
            assert(rest[0] == items@[i as int]);
            assert(rest.subrange(1, rest.len() as int) =~= items@.subrange(i + 1, items@.len() as int));
            assert(o1 + tuple_list(rest, ind@, i == 0) =~= out@ + tuple_list(
                items@.subrange(i + 1, items@.len() as int),
                ind@,
                false,
            ));
        }
        i = i + 1;
    }
    proof {
        assert(items@.subrange(i as int, items@.len() as int) =~= Seq::<CtnValue>::empty());
        assert(out@ + Seq::<char>::empty() =~= out@);
    }
}

/// Appends items on one line, separated by `, `.
fn push_inline_list(out: &mut String, items: &Vec<CtnValue>)
    ensures
        final(out)@ == old(out)@ + inline_list(items@, true),
    decreases items, 3nat,
{
    let empty = String::new();
    let mut i: usize = 0;
    proof {
        assert(items@.subrange(0, items@.len() as int) =~= items@);
    }
    while i < items.len()
        invariant
            i <= items@.len(),
            empty@ == Seq::<char>::empty(),
            old(out)@ + inline_list(items@, true) == out@ + inline_list(items@.subrange(i as int, items@.len() as int), i == 0),
        decreases items@.len() - i,
    {
        let ghost rest = items@.subrange(i as int, items@.len() as int);
        let ghost o1 = out@;
        if i > 0 {
            push_text(out, ", ");
        }
        proof {
            assert(decreases_to!(*items => items@));
            assert(decreases_to!(items@ => items@[i as int]));
        }
        let t = render_value(&items[i], &empty);
        push_text(out, t.as_str());
        proof {
            assert(rest[0] == items@[i as int]);
            assert(rest.subrange(1, rest.len() as int) =~= items@.subrange(i + 1, items@.len() as int));
            assert(o1 + inline_list(rest, i == 0) =~= out@ + inline_list(items@.subrange(i + 1, items@.len() as int), false));
        }
        i = i + 1;
    }
    proof {
        assert(items@.subrange(i as int, items@.len() as int) =~= Seq::<CtnValue>::empty());
        assert(out@ + Seq::<char>::empty() =~= out@);
    }
}

/// Whether every one of `items` is a scalar or a reference, and there are
/// at most eight.
fn flat_check(items: &Vec<CtnValue>) -> (r: bool)
    ensures
        r == flat_items(items@),
{
    if items.len() > 8 {
        return false;
    }
    let mut i: usize = 0;
    while i < items.len()
        invariant
            i <= items@.len() <= 8,
            forall|j: int| 0 <= j < i ==> is_flat(#[trigger] items@[j]),
        decreases items@.len() - i,
    {
        match &items[i] {
            CtnValue::Scalar(_) | CtnValue::RefBinding(_) | CtnValue::RefById(_) => {},
            _ => {
                return false;
            },
        }
        i = i + 1;
    }
    true
}

/// The one-line form of `v`, if it has one.
fn to_inline(v: &CtnValue) -> (r: Option<String>)
    ensures
        match inline_of(*v) {
            Some(t) => r matches Some(x) && x@ == t,
            None => r is None,
        },
    decreases v, 0nat,
{
    match v {
        CtnValue::Scalar(s) => {
            let mut out = String::new();
            push_scalar(&mut out, s);
            proof {
                assert(out@ =~= scalar_text(*s));
            }
            Some(out)
        },
        CtnValue::RefBinding(n) => {
            let mut out = String::new();
            string_push(&mut out, '&');
            push_text(&mut out, n.as_str());
            proof {
                assert(out@ =~= seq!['&'] + n@);
            }
            Some(out)
        },
        CtnValue::RefById(b) => {
            let empty = String::new();
            let inner = render_value(b, &empty);
            let mut out = String::new();
            push_text(&mut out, "ref ");
            push_text(&mut out, inner.as_str());
            proof {
                assert(out@ =~= "ref "@ + rend(**b, Seq::empty()));
            }
            Some(out)
        },
        CtnValue::Sum { type_label, variant, payload } => match payload {
            CtnPayload::Unit => {
                let mut out = String::new();
                match type_label {
                    Some(t) => {
                        push_text(&mut out, t.as_str());
                        push_text(&mut out, " :: ");
                    },
                    None => {},
                }
                push_text(&mut out, variant.as_str());
                proof {
                    match type_label {
                        Some(t) => {
                            assert(out@ =~= t@ + " :: "@ + variant@);
                        },
                        None => {
                            assert(out@ =~= variant@);
                        },
                    }
                }
                Some(out)
            },
            _ => None,
        },
        CtnValue::Sequence { elem_type, items } => {
            if !flat_check(items) {
                return None;
            }
            let mut out = String::new();
            string_push(&mut out, '[');
            push_inline_list(&mut out, items);
            string_push(&mut out, ']');
            proof {
                assert(out@ =~= seq!['['] + inline_list(items@, true) + seq![']']);
            }
            Some(out)
        },
        _ => None,
    }
}

/// Appends the dimensions of a tensor shape, `_` for an open one.
fn push_dims(out: &mut String, shape: &Vec<Option<u64>>)
    ensures
        final(out)@ == old(out)@ + dims_text(shape@, true),
{
    let mut i: usize = 0;
    proof {
        assert(shape@.subrange(0, shape@.len() as int) =~= shape@);
    }
    while i < shape.len()
        invariant
            i <= shape@.len(),
            old(out)@ + dims_text(shape@, true) == out@ + dims_text(shape@.subrange(i as int, shape@.len() as int), i == 0),
        decreases shape@.len() - i,
    {
        let ghost rest = shape@.subrange(i as int, shape@.len() as int);
        let ghost o1 = out@;
        if i > 0 {
            push_text(out, ", ");
        }
        match shape[i] {
            Some(d) => push_decimal(out, d),
            None => string_push(out, '_'),
        }
        proof {
            assert(rest[0] == shape@[i as int]);
            assert(rest.subrange(1, rest.len() as int) =~= shape@.subrange(i + 1, shape@.len() as int));
            assert(o1 + dims_text(rest, i == 0) =~= out@ + dims_text(shape@.subrange(i + 1, shape@.len() as int), false));
        }
        i = i + 1;
    }
    proof {
        assert(shape@.subrange(i as int, shape@.len() as int) =~= Seq::<Option<u64>>::empty());
        assert(out@ + Seq::<char>::empty() =~= out@);
    }
}

/// Appends the line of a tensor's data.
fn push_data(out: &mut String, d: &CtnTensorData, pad: &String, ind: Ghost<Seq<char>>)
    requires
        pad@ == ind@ + "  "@,
    ensures
        final(out)@ == old(out)@ + data_text(*d, ind@),
{
    let ghost before = out@;
    string_push(out, '\n');
    push_text(out, pad.as_str());
    let ghost mid = out@;
    match d {
        CtnTensorData::DenseF64(vs) => {
            let ghost ts = vs@.map_values(|s: String| s@);
            string_push(out, '[');
            let ghost start = out@;
            let mut i: usize = 0;
            proof {
                assert(ts.subrange(0, ts.len() as int) =~= ts);
            }
            while i < vs.len()
                invariant
                    i <= vs@.len(),
                    ts == vs@.map_values(|s: String| s@),
                    start + suffixed_list(ts, "f64"@, true) == out@ + suffixed_list(ts.subrange(i as int, ts.len() as int), "f64"@, i == 0),
                decreases vs@.len() - i,
            {
                let ghost rest = ts.subrange(i as int, ts.len() as int);
                let ghost o1 = out@;
                if i > 0 {
                    push_text(out, ", ");
                }
                push_text(out, vs[i].as_str());
                push_text(out, "f64");
                proof {
                    assert(rest[0] == vs@[i as int]@);
                    assert(rest.subrange(1, rest.len() as int) =~= ts.subrange(i + 1, ts.len() as int));
                    assert(o1 + suffixed_list(rest, "f64"@, i == 0) =~= out@ + suffixed_list(ts.subrange(i + 1, ts.len() as int), "f64"@, false));
                }
                i = i + 1;
            }
            proof {
                assert(ts.subrange(i as int, ts.len() as int) =~= Seq::<Seq<char>>::empty());
            }
            string_push(out, ']');
            proof {
                assert(out@ =~= before + data_text(*d, ind@));
            }
        },
        CtnTensorData::DenseI64(vs) => {
            let ghost ts = vs@.map_values(|n: i64| signed_text(n));
            string_push(out, '[');
            let ghost start = out@;
            let mut i: usize = 0;
            proof {
                assert(ts.subrange(0, ts.len() as int) =~= ts);
            }
            while i < vs.len()
                invariant
                    i <= vs@.len(),
                    ts == vs@.map_values(|n: i64| signed_text(n)),
                    start + suffixed_list(ts, "i64"@, true) == out@ + suffixed_list(ts.subrange(i as int, ts.len() as int), "i64"@, i == 0),
                decreases vs@.len() - i,
            {
                let ghost rest = ts.subrange(i as int, ts.len() as int);
                let ghost o1 = out@;
                if i > 0 {
                    push_text(out, ", ");
                }
                push_signed(out, vs[i]);
                push_text(out, "i64");
                proof {
                    assert(rest[0] == signed_text(vs@[i as int]));
                    assert(rest.subrange(1, rest.len() as int) =~= ts.subrange(i + 1, ts.len() as int));
                    assert(o1 + suffixed_list(rest, "i64"@, i == 0) =~= out@ + suffixed_list(ts.subrange(i + 1, ts.len() as int), "i64"@, false));
                }
                i = i + 1;
            }
            proof {
                assert(ts.subrange(i as int, ts.len() as int) =~= Seq::<Seq<char>>::empty());
            }
            string_push(out, ']');
            proof {
                assert(out@ =~= before + data_text(*d, ind@));
            }
        },
        CtnTensorData::DenseU64(vs) => {
            let ghost ts = vs@.map_values(|n: u64| decimal(n as nat));
            string_push(out, '[');
            let ghost start = out@;
            let mut i: usize = 0;
            proof {
                assert(ts.subrange(0, ts.len() as int) =~= ts);
            }
            while i < vs.len()
                invariant
                    i <= vs@.len(),
                    ts == vs@.map_values(|n: u64| decimal(n as nat)),
                    start + suffixed_list(ts, "u64"@, true) == out@ + suffixed_list(ts.subrange(i as int, ts.len() as int), "u64"@, i == 0),
                decreases vs@.len() - i,
            {
                let ghost rest = ts.subrange(i as int, ts.len() as int);
                let ghost o1 = out@;
                if i > 0 {
                    push_text(out, ", ");
                }
                push_decimal(out, vs[i]);
                push_text(out, "u64");
                proof {
                    assert(rest[0] == decimal(vs@[i as int] as nat));
                    assert(rest.subrange(1, rest.len() as int) =~= ts.subrange(i + 1, ts.len() as int));
                    assert(o1 + suffixed_list(rest, "u64"@, i == 0) =~= out@ + suffixed_list(ts.subrange(i + 1, ts.len() as int), "u64"@, false));
                }
                i = i + 1;
            }
            proof {
                assert(ts.subrange(i as int, ts.len() as int) =~= Seq::<Seq<char>>::empty());
            }
            string_push(out, ']');
            proof {
                assert(out@ =~= before + data_text(*d, ind@));
            }
        },
        CtnTensorData::BinaryBlob(b) => {
            push_text(out, "<binary: ");
            push_decimal(out, b.len() as u64);
            push_text(out, " bytes>");
            proof {
                assert(out@ =~= before + data_text(*d, ind@));
            }
        },
    }
}

/// The text of `v`, whose nested lines are indented by `ind` plus two
/// spaces.
fn render_value(v: &CtnValue, ind: &String) -> (r: String)
    ensures
        r@ == rend(*v, ind@),
    decreases v, 1nat,
{
    match to_inline(v) {
        Some(t) => {
            return t;
        },
        None => {},
    }
    let pad = child_pad(ind);
    let g = Ghost(ind@);
    let mut out = String::new();
    match v {
        CtnValue::Product { type_label, fields } => {
            match type_label {
                Some(t) => push_text(&mut out, t.as_str()),
                None => push_text(&mut out, "struct"),
            }
            push_field_lines(&mut out, fields, &pad, g);
            proof {
                assert(out@ =~= name_or(*type_label, "struct"@) + field_lines(fields@, ind@));
            }
        },
        CtnValue::Sequence { elem_type, items } => {
            push_text(&mut out, "seq<");
            match elem_type {
                Some(t) => push_text(&mut out, t.as_str()),
                None => push_text(&mut out, "any"),
            }
            string_push(&mut out, '>');
            push_item_lines(&mut out, items, &pad, g);
            proof {
                assert(out@ =~= "seq<"@ + name_or(*elem_type, "any"@) + seq!['>'] + item_lines(items@, ind@));
            }
        },
        CtnValue::Association(pairs) => {
            if pairs.len() == 0 {
                push_text(&mut out, "map<any, any> []");
            } else {
                push_text(&mut out, "map<any, any>");
                push_entry_lines(&mut out, pairs, &pad, g);
                proof {
                    assert(out@ =~= "map<any, any>"@ + entry_lines(pairs@, ind@));
                }
            }
        },
        CtnValue::Sum { type_label, variant, payload } => {
            match type_label {
                Some(t) => {
                    push_text(&mut out, t.as_str());
                    push_text(&mut out, " :: ");
                },
                None => {},
            }
            push_text(&mut out, variant.as_str());
            let ghost head = out@;
            match payload {
                CtnPayload::Unit => {},
                CtnPayload::Tuple(items) => {
                    string_push(&mut out, '(');
                    push_tuple_list(&mut out, items, ind);
                    string_push(&mut out, ')');
                },
                CtnPayload::Struct(fs) => {
                    push_sum_field_lines(&mut out, fs, &pad, g);
                },
            }
            proof {
                let h = match type_label {
                    Some(t) => t@ + " :: "@,
                    None => Seq::<char>::empty(),
                };
                assert(head =~= h + variant@);
                match payload {
                    CtnPayload::Unit => {
                        assert(out@ =~= h + variant@ + Seq::<char>::empty());
                    },
                    CtnPayload::Tuple(items) => {
                        assert(out@ =~= h + variant@ + (seq!['('] + tuple_list(items@, ind@, true) + seq![')']));
                    },
                    CtnPayload::Struct(fs) => {
                        assert(out@ =~= h + variant@ + sum_field_lines(fs@, ind@));
                    },
                }
            }
        },
        CtnValue::Tensor { element_type, shape, data, annotations } => {
            push_text(&mut out, "tensor<");
            push_text(&mut out, element_type.as_str());
            string_push(&mut out, '>');
            let ghost o1 = out@;
            if shape.len() > 0 {
                string_push(&mut out, '[');
                push_dims(&mut out, shape);
                string_push(&mut out, ']');
            }
            let ghost o2 = out@;
            push_annotation_lines(&mut out, annotations, &pad, g);
            let ghost o3 = out@;
            push_data(&mut out, data, &pad, g);
            proof {
                let sh = if shape@.len() > 0 {
                    seq!['['] + dims_text(shape@, true) + seq![']']
                } else {
                    Seq::<char>::empty()
                };
                assert(o2 =~= o1 + sh);
                assert(out@ =~= "tensor<"@ + element_type@ + seq!['>'] + sh + annotation_lines(annotations@, ind@) + data_text(
                    *data,
                    ind@,
                ));
            }
        },
        CtnValue::Stream { item_type, annotations } => {
            push_text(&mut out, "stream<");
            push_text(&mut out, item_type.as_str());
            string_push(&mut out, '>');
            push_annotation_lines(&mut out, annotations, &pad, g);
            proof {
                assert(out@ =~= "stream<"@ + item_type@ + seq!['>'] + annotation_lines(annotations@, ind@));
            }
        },
        CtnValue::Opaque { type_tag, bytes } => {
            push_text(&mut out, "opaque<");
            push_text(&mut out, type_tag.as_str());
            push_text(&mut out, "> <binary: ");
            push_decimal(&mut out, bytes.len() as u64);
            push_text(&mut out, " bytes>");
            proof {
                assert(out@ =~= "opaque<"@ + type_tag@ + "> <binary: "@ + decimal(bytes@.len()) + " bytes>"@);
            }
        },
        _ => {},
    }
    out
}

/// Renders a value as CTN text: scalars, references, unit variants and
/// short flat sequences on one line; products, sequences, maps, struct
/// variants, tensors and streams as a header followed by indented lines.
pub fn format_value(value: &CtnValue) -> (r: String)
    ensures
        r@ == ctn_render(*value),
{
    let empty = String::new();
    render_value(value, &empty)
}

/// How a binding is written: `let name = ` and its one-line form, or its
/// lines; each line ends with a line feed.
pub open spec fn binding_text(b: CtnBinding) -> Seq<char> {
    "let "@ + b.name@ + " = "@ + match inline_of(b.value) {
        Some(t) => t + seq!['\n'],
        None => {
            let r = rend(b.value, Seq::empty());
            if r.len() == 0 {
                Seq::empty()
            } else {
                relines(r) + seq!['\n']
            }
        },
    }
}

/// Annotations, each on a line of its own.
pub open spec fn annotation_block(anns: Seq<CtnAnnotation>) -> Seq<char>
    decreases anns.len(),
{
    if anns.len() == 0 {
        Seq::empty()
    } else {
        annotation_text(anns[0]) + seq!['\n'] + annotation_block(anns.subrange(1, anns.len() as int))
    }
}

/// `use` lines.
pub open spec fn use_block(uses: Seq<String>) -> Seq<char>
    decreases uses.len(),
{
    if uses.len() == 0 {
        Seq::empty()
    } else {
        "use "@ + uses[0]@ + seq!['\n'] + use_block(uses.subrange(1, uses.len() as int))
    }
}

/// `let` bindings.
pub open spec fn binding_block(bs: Seq<CtnBinding>) -> Seq<char>
    decreases bs.len(),
{
    if bs.len() == 0 {
        Seq::empty()
    } else {
        binding_text(bs[0]) + binding_block(bs.subrange(1, bs.len() as int))
    }
}

/// The text of a document, as `format_document` writes it: annotations,
/// `use` lines and bindings, then the root after an empty line (when
/// anything comes before it); without a root, the final line feed is left
/// out.
pub open spec fn ctn_format(doc: CtnDocument) -> Seq<char> {
    let h = annotation_block(doc.annotations@) + use_block(doc.uses@) + binding_block(doc.bindings@);
    match doc.root {
        Some(r) => (if h.len() > 0 {
            h + seq!['\n']
        } else {
            h
        }) + rend(r, Seq::empty()),
        None => if h.len() > 0 && h.last() == '\n' {
            h.drop_last()
        } else {
            h
        },
    }
}

/// Appends a binding.
fn push_binding(out: &mut String, b: &CtnBinding)
    ensures
        final(out)@ == old(out)@ + binding_text(*b),
{
    let ghost before = out@;
    push_text(out, "let ");
    push_text(out, b.name.as_str());
    push_text(out, " = ");
    match to_inline(&b.value) {
        Some(t) => {
            push_text(out, t.as_str());
            string_push(out, '\n');
        },
        None => {
            let empty = String::new();
            let r = render_value(&b.value, &empty);
            let rc = chars_of(r.as_str());
            if rc.len() > 0 {
                let rl = relines_of(&r);
                push_text(out, rl.as_str());
                string_push(out, '\n');
            }
        },
    }
    proof {
        assert(out@ =~= before + binding_text(*b));
    }
}

/// `s` without its last character.
fn without_last(s: &String) -> (r: String)
    requires
        s@.len() > 0,
    ensures
        r@ == s@.drop_last(),
{
    let cs = chars_of(s.as_str());
    let mut r = String::new();
    let n = cs.len() - 1;
    let mut j: usize = 0;
    while j < n
        invariant
            j <= n,
            n + 1 == cs@.len(),
            cs@ == s@,
            r@ == cs@.subrange(0, j as int),
        decreases n - j,
    {
        string_push(&mut r, cs[j]);
        proof {
            assert(r@ =~= cs@.subrange(0, j + 1));
        }
        j = j + 1;
    }
    proof {
        assert(r@ =~= s@.drop_last());
    }
    r
}

/// Renders a document as CTN text: annotations, `use` lines and `let`
/// bindings, one per line, then the root value after an empty line.
pub fn format_document(doc: &CtnDocument) -> (r: String)
    ensures
        r@ == ctn_format(*doc),
{
    let mut out = String::new();
    let mut i: usize = 0;
    let ghost anns = doc.annotations@;
    proof {
        assert(anns.subrange(0, anns.len() as int) =~= anns);
    }
    while i < doc.annotations.len()
        invariant
            i <= anns.len(),
            anns == doc.annotations@,
            annotation_block(anns) == out@ + annotation_block(anns.subrange(i as int, anns.len() as int)),
        decreases anns.len() - i,
    {
        let ghost rest = anns.subrange(i as int, anns.len() as int);
        let ghost o1 = out@;
        push_annotation(&mut out, &doc.annotations[i]);
        string_push(&mut out, '\n');
        proof {
            assert(rest.subrange(1, rest.len() as int) =~= anns.subrange(i + 1, anns.len() as int));
            assert(o1 + annotation_block(rest) =~= out@ + annotation_block(anns.subrange(i + 1, anns.len() as int)));
        }
        i = i + 1;
    }
    proof {
        assert(anns.subrange(i as int, anns.len() as int) =~= Seq::<CtnAnnotation>::empty());
    }
    let ghost h1 = out@;
    let ghost uses = doc.uses@;
    let mut i: usize = 0;
    proof {
        assert(uses.subrange(0, uses.len() as int) =~= uses);
    }
    while i < doc.uses.len()
        invariant
            i <= uses.len(),
            uses == doc.uses@,
            h1 + use_block(uses) == out@ + use_block(uses.subrange(i as int, uses.len() as int)),
        decreases uses.len() - i,
    {
        let ghost rest = uses.subrange(i as int, uses.len() as int);
        let ghost o1 = out@;
        push_text(&mut out, "use ");
        push_text(&mut out, doc.uses[i].as_str());
        string_push(&mut out, '\n');
        proof {
            assert(rest.subrange(1, rest.len() as int) =~= uses.subrange(i + 1, uses.len() as int));
            assert(o1 + use_block(rest) =~= out@ + use_block(uses.subrange(i + 1, uses.len() as int)));
        }
        i = i + 1;
    }
    proof {
        assert(uses.subrange(i as int, uses.len() as int) =~= Seq::<String>::empty());
    }
    let ghost h2 = out@;
    let ghost bs = doc.bindings@;
    let mut i: usize = 0;
    proof {
        assert(bs.subrange(0, bs.len() as int) =~= bs);
    }
    while i < doc.bindings.len()
        invariant
            i <= bs.len(),
            bs == doc.bindings@,
            h2 + binding_block(bs) == out@ + binding_block(bs.subrange(i as int, bs.len() as int)),
        decreases bs.len() - i,
    {
        let ghost rest = bs.subrange(i as int, bs.len() as int);
        let ghost o1 = out@;
        push_binding(&mut out, &doc.bindings[i]);
        proof {
            assert(rest.subrange(1, rest.len() as int) =~= bs.subrange(i + 1, bs.len() as int));
            assert(o1 + binding_block(rest) =~= out@ + binding_block(bs.subrange(i + 1, bs.len() as int)));
        }
        i = i + 1;
    }
    proof {
        assert(bs.subrange(i as int, bs.len() as int) =~= Seq::<CtnBinding>::empty());
        assert(out@ =~= annotation_block(anns) + use_block(uses) + binding_block(bs));
    }
    let cs = chars_of(out.as_str());
    match &doc.root {
        Some(root) => {
            if cs.len() > 0 {
                string_push(&mut out, '\n');
            }
            let empty = String::new();
            let t = render_value(root, &empty);
            push_text(&mut out, t.as_str());
            out
        },
        None => {
            if cs.len() > 0 {
                if cs[cs.len() - 1] == '\n' {
                    return without_last(&out);
                }
            }
            out
        },
    }
}


/// The line that a field of a struct payload gets: a line feed, the
/// indentation, `name = ` and the value's text.
pub open spec fn payload_field_line(f: CtnField, ind: Seq<char>) -> Seq<char> {
    seq!['\n'] + ind + "  "@ + f.name@ + " = "@ + rend(f.value, ind + "  "@)
}

proof fn lemma_sum_field_lines_flat(fs: Seq<CtnField>, ind: Seq<char>)
    ensures
        sum_field_lines(fs, ind) == Seq::new(fs.len(), |i: int| payload_field_line(fs[i], ind)).flatten(),
    decreases fs.len(),
{
    let lines = Seq::new(fs.len(), |i: int| payload_field_line(fs[i], ind));
    if fs.len() > 0 {
        let rest = fs.subrange(1, fs.len() as int);
        lemma_sum_field_lines_flat(rest, ind);
        assert(lines.drop_first() =~= Seq::new(rest.len(), |i: int| payload_field_line(rest[i], ind)));
        assert(lines.first() == payload_field_line(fs[0], ind));
    }
}

/// Formatting an enum value whose payload is a struct writes its header
/// (`Type :: Variant`, or the variant alone) and then one line
/// `name = value` for every field of the payload, in order: one line per
/// field, each indented two spaces deeper than the value.
pub proof fn law_struct_variant_lines(label: Option<String>, variant: String, fs: Vec<CtnField>, ind: Seq<char>)
    ensures
        rend(CtnValue::Sum { type_label: label, variant, payload: CtnPayload::Struct(fs) }, ind) == (match label {
            Some(t) => t@ + " :: "@,
            None => Seq::<char>::empty(),
        }) + variant@ + Seq::new(fs@.len(), |i: int| payload_field_line(fs@[i], ind)).flatten(),
        ctn_render(CtnValue::Sum { type_label: label, variant, payload: CtnPayload::Struct(fs) }) == (match label {
            Some(t) => t@ + " :: "@,
            None => Seq::<char>::empty(),
        }) + variant@ + Seq::new(fs@.len(), |i: int| payload_field_line(fs@[i], Seq::empty())).flatten(),
{
    lemma_sum_field_lines_flat(fs@, ind);
    lemma_sum_field_lines_flat(fs@, Seq::empty());
}

} // verus!
