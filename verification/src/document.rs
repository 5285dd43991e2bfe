//! Documents: their effective root, their bindings, and their encoding
//! as a CBF file.

use crate::ast::{
    Annotation, annotations_view, clone_opt_text, clone_value, fields_model, lemma_association_view, lemma_product_view,
    lemma_sequence_view, lemma_sum_view, opt_text, pairs_model, values_model, AnnotationM, Binding, Document, Field,
    Product, Reference, Scalar, ScalarM, Sequence, Sum, SumPayload, Value, ValueM,
};
use crate::dict::{bytes_less, entry_key, lemma_min_position_bounds, min_position, sorted_positions};
use crate::cbf::{
    crc64_ecma, crc64_of, encode_symbol_table, header_bytes, magic_bytes, symbol_table_bytes, CbfHeader, EncodeOptions,
    FLAG_HAS_SYMTAB,
};
use crate::error::{ErrorModel, SurpError};
use crate::segment::{enc_value, encode_segment, syms_of, EncodeCtx};
use vstd::bytes::{spec_u32_to_le_bytes, spec_u64_to_le_bytes, u64_to_le_bytes};
use crate::render::push_text;
use crate::segment::invalid;
use vstd::prelude::*;
use vstd::string::StringExecFns;

verus! {

/// The bindings of a document as names and values.
pub open spec fn bindings_model(bs: Seq<Binding>) -> Seq<(Seq<char>, ValueM)> {
    Seq::new(bs.len(), |i: int| (bs[i].name@, bs[i].value@))
}

/// The names bound in `bs`.
pub open spec fn binding_names(bs: Seq<(Seq<char>, ValueM)>) -> Set<Seq<char>> {
    bs.map_values(|b: (Seq<char>, ValueM)| b.0).to_set()
}

/// The value of the first binding of `name` at or after `i`.
pub open spec fn find_binding(bs: Seq<(Seq<char>, ValueM)>, name: Seq<char>, i: nat) -> Option<ValueM>
    decreases bs.len() - i,
{
    if i >= bs.len() {
        None
    } else if bs[i as int].0 == name {
        Some(bs[i as int].1)
    } else {
        find_binding(bs, name, i + 1)
    }
}

/// A name that is found is one of the bound names.
pub proof fn lemma_find_binding(bs: Seq<(Seq<char>, ValueM)>, name: Seq<char>, i: nat)
    ensures
        find_binding(bs, name, i) is Some ==> binding_names(bs).contains(name),
    decreases bs.len() - i,
{
    if i < bs.len() {
        if bs[i as int].0 == name {
            let names = bs.map_values(|b: (Seq<char>, ValueM)| b.0);
            assert(names[i as int] == name);
            assert(names.contains(name));
        } else {
            lemma_find_binding(bs, name, i + 1);
        }
    }
}

/// Entering a bound name that is not yet being resolved leaves fewer
/// names to enter.
pub proof fn lemma_enter_binding(bs: Seq<(Seq<char>, ValueM)>, stack: Set<Seq<char>>, name: Seq<char>)
    requires
        binding_names(bs).contains(name),
        !stack.contains(name),
    ensures
        (binding_names(bs) - stack.insert(name)).len() < (binding_names(bs) - stack).len(),
{
    let names = binding_names(bs);
    vstd::seq_lib::seq_to_set_is_finite(bs.map_values(|b: (Seq<char>, ValueM)| b.0));
    assert(names.finite());
    assert((names - stack.insert(name)) =~= (names - stack).remove(name));
    vstd::set::axiom_set_difference_finite(names, stack);
}

/// The message for a binding that refers back to itself.
pub open spec fn cycle_message(name: Seq<char>) -> Seq<char> {
    "cyclic reference detected at binding '"@ + name + "'"@
}

/// `v` with every reference to a binding replaced by the binding's value,
/// itself resolved; `stack` holds the bindings being resolved, and a
/// reference back to one of them is an error. References to names that
/// are not bound stay as they are.
pub open spec fn resolve(v: ValueM, bs: Seq<(Seq<char>, ValueM)>, stack: Set<Seq<char>>) -> Result<ValueM, ErrorModel>
    decreases (binding_names(bs) - stack).len(), v,
{
    match v {
        ValueM::RefBinding(name) => match find_binding(bs, name, 0) {
            None => Ok(v),
            Some(bv) => if stack.contains(name) {
                Err(invalid(cycle_message(name)))
            } else {
                proof {
                    lemma_find_binding(bs, name, 0);
                    lemma_enter_binding(bs, stack, name);
                }
                resolve(bv, bs, stack.insert(name))
            },
        },
        ValueM::RefById(inner) => if inner.len() == 1 {
            match resolve(inner[0], bs, stack) {
                Ok(x) => Ok(ValueM::RefById(seq![x])),
                Err(e) => Err(e),
            }
        } else {
            Ok(v)
        },
        ValueM::Product(tn, fs) => match resolve_fields(fs, bs, stack) {
            Ok(fs2) => Ok(ValueM::Product(tn, fs2)),
            Err(e) => Err(e),
        },
        ValueM::SumTuple(tn, variant, items) => match resolve_values(items, bs, stack) {
            Ok(items2) => Ok(ValueM::SumTuple(tn, variant, items2)),
            Err(e) => Err(e),
        },
        ValueM::SumStruct(tn, variant, fs) => match resolve_fields(fs, bs, stack) {
            Ok(fs2) => Ok(ValueM::SumStruct(tn, variant, fs2)),
            Err(e) => Err(e),
        },
        ValueM::Sequence(et, items) => match resolve_values(items, bs, stack) {
            Ok(items2) => Ok(ValueM::Sequence(et, items2)),
            Err(e) => Err(e),
        },
        ValueM::Association(ps) => match resolve_pairs(ps, bs, stack) {
            Ok(ps2) => Ok(ValueM::Association(ps2)),
            Err(e) => Err(e),
        },
        _ => Ok(v),
    }
}

/// Resolving the value of each field.
pub open spec fn resolve_fields(fs: Seq<(Seq<char>, ValueM)>, bs: Seq<(Seq<char>, ValueM)>, stack: Set<Seq<char>>) -> Result<Seq<(Seq<char>, ValueM)>, ErrorModel>
    decreases (binding_names(bs) - stack).len(), fs,
{
    if fs.len() == 0 {
        Ok(Seq::empty())
    } else {
        match resolve(fs[0].1, bs, stack) {
            Err(e) => Err(e),
            Ok(x) => match resolve_fields(fs.subrange(1, fs.len() as int), bs, stack) {
                Ok(rest) => Ok(seq![(fs[0].0, x)] + rest),
                Err(e) => Err(e),
            },
        }
    }
}

/// Resolving each value.
pub open spec fn resolve_values(vs: Seq<ValueM>, bs: Seq<(Seq<char>, ValueM)>, stack: Set<Seq<char>>) -> Result<Seq<ValueM>, ErrorModel>
    decreases (binding_names(bs) - stack).len(), vs,
{
    if vs.len() == 0 {
        Ok(Seq::empty())
    } else {
        match resolve(vs[0], bs, stack) {
            Err(e) => Err(e),
            Ok(x) => match resolve_values(vs.subrange(1, vs.len() as int), bs, stack) {
                Ok(rest) => Ok(seq![x] + rest),
                Err(e) => Err(e),
            },
        }
    }
}

/// Resolving the key, then the value, of each pair.
pub open spec fn resolve_pairs(ps: Seq<(ValueM, ValueM)>, bs: Seq<(Seq<char>, ValueM)>, stack: Set<Seq<char>>) -> Result<Seq<(ValueM, ValueM)>, ErrorModel>
    decreases (binding_names(bs) - stack).len(), ps,
{
    if ps.len() == 0 {
        Ok(Seq::empty())
    } else {
        match resolve(ps[0].0, bs, stack) {
            Err(e) => Err(e),
            Ok(k) => match resolve(ps[0].1, bs, stack) {
                Err(e) => Err(e),
                Ok(x) => match resolve_pairs(ps.subrange(1, ps.len() as int), bs, stack) {
                    Ok(rest) => Ok(seq![(k, x)] + rest),
                    Err(e) => Err(e),
                },
            },
        }
    }
}

/// The names of the bindings being resolved.
pub open spec fn stack_set(st: Seq<String>) -> Set<Seq<char>> {
    st.map_values(|s: String| s@).to_set()
}

/// Adding a name to the stack adds it to the set of names.
pub proof fn lemma_stack_push(st: Seq<String>, n: String)
    ensures
        stack_set(st.push(n)) == stack_set(st).insert(n@),
{
    let a = st.map_values(|s: String| s@);
    let b = st.push(n).map_values(|s: String| s@);
    assert(b =~= a.push(n@));
    assert forall|x: Seq<char>| b.contains(x) == (a.contains(x) || x == n@) by {
        if b.contains(x) {
            let k = choose|k: int| 0 <= k < b.len() && b[k] == x;
            if k < a.len() {
                assert(a[k] == x);
            }
        }
        if a.contains(x) {
            let k = choose|k: int| 0 <= k < a.len() && a[k] == x;
            assert(b[k] == x);
        }
        if x == n@ {
            assert(b[a.len() as int] == x);
        }
    }
    assert(stack_set(st.push(n)) =~= stack_set(st).insert(n@));
}

/// Whether `name` is on the stack.
fn stack_contains(stack: &Vec<String>, name: &String) -> (r: bool)
    ensures
        r == stack_set(stack@).contains(name@),
{
    let ghost a = stack@.map_values(|s: String| s@);
    let mut i: usize = 0;
    while i < stack.len()
        invariant
            i <= stack@.len(),
            a == stack@.map_values(|s: String| s@),
            forall|k: int| 0 <= k < i ==> a[k] != name@,
        decreases stack@.len() - i,
    {
        if stack[i] == *name {
            proof {
                assert(a[i as int] == name@);
            }
            return true;
        }
        i = i + 1;
    }
    proof {
        if a.contains(name@) {
            let k = choose|k: int| 0 <= k < a.len() && a[k] == name@;
            assert(false);
        }
    }
    false
}

impl Document {
    /// The first binding of `name`.
    pub fn binding(&self, name: &str) -> (r: Option<&Binding>)
        ensures
            match find_binding(bindings_model(self.bindings@), name@, 0) {
                Some(v) => r matches Some(b) && b.value@ == v && b.name@ == name@,
                None => r is None,
            },
    {
        let ghost bs = bindings_model(self.bindings@);
        let target = String::from_str(name);
        let mut i: usize = 0;
        while i < self.bindings.len()
            invariant
                i <= self.bindings@.len(),
                bs == bindings_model(self.bindings@),
                target@ == name@,
                find_binding(bs, name@, 0) == find_binding(bs, name@, i as nat),
            decreases self.bindings@.len() - i,
        {
            if self.bindings[i].name == target {
                return Some(&self.bindings[i]);
            }
            i = i + 1;
        }
        None
    }

    /// The effective root: the explicit root if there is one, else the
    /// value of the last binding.
    pub fn effective_root(&self) -> (r: Result<Value, SurpError>)
        ensures
            match self.root {
                Some(v) => r matches Ok(x) && x@ == v@,
                None => if self.bindings@.len() > 0 {
                    r matches Ok(x) && x@ == self.bindings@.last().value@
                } else {
                    r matches Err(e) && e@ == invalid("document has no root value or bindings"@)
                },
            },
    {
        match &self.root {
            Some(v) => Ok(clone_value(v)),
            None => {
                if self.bindings.len() > 0 {
                    Ok(clone_value(&self.bindings[self.bindings.len() - 1].value))
                } else {
                    Err(SurpError::InvalidData(String::from_str("document has no root value or bindings")))
                }
            },
        }
    }
}

/// Replace every reference to a binding of `doc` in `value` by the
/// binding's value, itself resolved. `stack` holds the bindings being
/// resolved; it is left as it was found.
pub fn resolve_references(value: &Value, doc: &Document, stack: &mut Vec<String>) -> (r: Result<Value, SurpError>)
    ensures
        match resolve(value@, bindings_model(doc.bindings@), stack_set(old(stack)@)) {
            Ok(x) => r matches Ok(y) && y@ == x && final(stack)@ == old(stack)@,
            Err(e) => r matches Err(y) && y@ == e,
        },
    decreases (binding_names(bindings_model(doc.bindings@)) - stack_set(old(stack)@)).len(), value,
{
    let ghost bs = bindings_model(doc.bindings@);
    match value {
        Value::Reference(Reference::Binding(name)) => {
            match doc.binding(name.as_str()) {
                None => Ok(clone_value(value)),
                Some(b) => {
                    if stack_contains(stack, name) {
                        let mut m = String::new();
                        push_text(&mut m, "cyclic reference detected at binding '");
                        push_text(&mut m, name.as_str());
                        push_text(&mut m, "'");
                        return Err(SurpError::InvalidData(m));
                    }
                    proof {
                        lemma_find_binding(bs, name@, 0);
                        lemma_enter_binding(bs, stack_set(stack@), name@);
                        lemma_stack_push(stack@, *name);
                    }
                    stack.push(name.clone());
                    let resolved = match resolve_references(&b.value, doc, stack) {
                        Ok(x) => x,
                        Err(e) => {
                            return Err(e);
                        },
                    };
                    stack.pop();
                    proof {
                        assert(stack@ =~= old(stack)@);
                    }
                    Ok(resolved)
                },
            }
        },
        Value::Reference(Reference::ById(inner)) => {
            proof {
                assert(decreases_to!(*value => value->Reference_0));
                assert(decreases_to!(value->Reference_0 => value->Reference_0->ById_0));
            }
            let x = match resolve_references(inner, doc, stack) {
                Ok(x) => x,
                Err(e) => {
                    return Err(e);
                },
            };
            proof {
                assert(seq![(**inner)@][0] == (**inner)@);
            }
            Ok(Value::Reference(Reference::ById(Box::new(x))))
        },
        Value::Product(p) => {
            proof {
                assert(decreases_to!(*value => value->Product_0));
                assert(decreases_to!(value->Product_0 => value->Product_0.fields));
                lemma_product_view(p.type_label, p.fields);
            }
            let fields = match resolve_field_list(&p.fields, doc, stack) {
                Ok(f) => f,
                Err(e) => {
                    return Err(e);
                },
            };
            let tn = clone_opt_text(&p.type_label);
            proof {
                lemma_product_view(tn, fields);
            }
            Ok(Value::Product(Product { type_label: tn, fields }))
        },
        Value::Sum(sm) => {
            proof {
                lemma_sum_view(sm.type_label, sm.variant, sm.payload);
                assert(decreases_to!(*value => value->Sum_0));
                assert(decreases_to!(value->Sum_0 => value->Sum_0.payload));
            }
            let payload = match &sm.payload {
                SumPayload::Unit => SumPayload::Unit,
                SumPayload::Tuple(items) => {
                    proof {
                        assert(decreases_to!(value->Sum_0.payload => value->Sum_0.payload->Tuple_0));
                    }
                    match resolve_value_list(items, doc, stack) {
                        Ok(v) => SumPayload::Tuple(v),
                        Err(e) => {
                            return Err(e);
                        },
                    }
                },
                SumPayload::Struct(fields) => {
                    proof {
                        assert(decreases_to!(value->Sum_0.payload => value->Sum_0.payload->Struct_0));
                    }
                    match resolve_field_list(fields, doc, stack) {
                        Ok(f) => SumPayload::Struct(f),
                        Err(e) => {
                            return Err(e);
                        },
                    }
                },
            };
            let tn = clone_opt_text(&sm.type_label);
            let variant = sm.variant.clone();
            proof {
                lemma_sum_view(tn, variant, payload);
            }
            Ok(Value::Sum(Sum { type_label: tn, variant, payload }))
        },
        Value::Sequence(q) => {
            proof {
                assert(decreases_to!(*value => value->Sequence_0));
                assert(decreases_to!(value->Sequence_0 => value->Sequence_0.items));
                lemma_sequence_view(q.elem_type, q.items);
            }
            let items = match resolve_value_list(&q.items, doc, stack) {
                Ok(v) => v,
                Err(e) => {
                    return Err(e);
                },
            };
            let et = clone_opt_text(&q.elem_type);
            proof {
                lemma_sequence_view(et, items);
            }
            Ok(Value::Sequence(Sequence { elem_type: et, items }))
        },
        Value::Association(pairs) => {
            proof {
                assert(decreases_to!(*value => value->Association_0));
                lemma_association_view(*pairs);
            }
            let resolved = match resolve_pair_list(pairs, doc, stack) {
                Ok(v) => v,
                Err(e) => {
                    return Err(e);
                },
            };
            proof {
                lemma_association_view(resolved);
            }
            Ok(Value::Association(resolved))
        },
        _ => Ok(clone_value(value)),
    }
}

/// Resolve the value of each field.
fn resolve_field_list(fields: &Vec<Field>, doc: &Document, stack: &mut Vec<String>) -> (r: Result<Vec<Field>, SurpError>)
    ensures
        match resolve_fields(fields_model(fields@), bindings_model(doc.bindings@), stack_set(old(stack)@)) {
            Ok(x) => r matches Ok(y) && fields_model(y@) == x && final(stack)@ == old(stack)@,
            Err(e) => r matches Err(y) && y@ == e,
        },
    decreases (binding_names(bindings_model(doc.bindings@)) - stack_set(old(stack)@)).len(), fields,
{
    let ghost bs = bindings_model(doc.bindings@);
    let ghost st = stack_set(stack@);
    let ghost all = fields_model(fields@);
    let mut out: Vec<Field> = Vec::new();
    let mut i: usize = 0;
    proof {
        assert(all.subrange(0, all.len() as int) =~= all);
        if let Ok(x) = resolve_fields(all, bs, st) {
            assert(fields_model(out@) + x =~= x);
        }
    }
    while i < fields.len()
        invariant
            i <= fields@.len(),
            all == fields_model(fields@),
            bs == bindings_model(doc.bindings@),
            st == stack_set(old(stack)@),
            stack@ == old(stack)@,
            resolve_fields(all, bs, st) == (match resolve_fields(all.subrange(i as int, all.len() as int), bs, st) {
                Ok(rest) => Ok(fields_model(out@) + rest),
                Err(e) => Err(e),
            }),
        decreases fields@.len() - i,
    {
        let ghost rest = all.subrange(i as int, all.len() as int);
        proof {
            assert(rest.subrange(1, rest.len() as int) =~= all.subrange(i + 1, all.len() as int));
            assert(rest[0] == (fields@[i as int].name@, fields@[i as int].value@));
            assert(decreases_to!(*fields => fields@));
            assert(decreases_to!(fields@ => fields@[i as int]));
            assert(decreases_to!(fields@[i as int] => fields@[i as int].value));
        }
        let v = match resolve_references(&fields[i].value, doc, stack) {
            Ok(v) => v,
            Err(e) => {
                return Err(e);
            },
        };
        let f = Field { name: fields[i].name.clone(), value: v };
        proof {
            assert(fields_model(out@.push(f)) =~= fields_model(out@).push((f.name@, f.value@)));
            if let Ok(x) = resolve_fields(all.subrange(i + 1, all.len() as int), bs, st) {
                assert(fields_model(out@) + (seq![(f.name@, f.value@)] + x) =~= fields_model(out@).push((f.name@, f.value@)) + x);
            }
        }
        out.push(f);
        i = i + 1;
    }
    proof {
        assert(all.subrange(i as int, all.len() as int) =~= Seq::<(Seq<char>, ValueM)>::empty());
        assert(fields_model(out@) + Seq::<(Seq<char>, ValueM)>::empty() =~= fields_model(out@));
    }
    Ok(out)
}

/// Resolve each value.
fn resolve_value_list(items: &Vec<Value>, doc: &Document, stack: &mut Vec<String>) -> (r: Result<Vec<Value>, SurpError>)
    ensures
        match resolve_values(values_model(items@), bindings_model(doc.bindings@), stack_set(old(stack)@)) {
            Ok(x) => r matches Ok(y) && values_model(y@) == x && final(stack)@ == old(stack)@,
            Err(e) => r matches Err(y) && y@ == e,
        },
    decreases (binding_names(bindings_model(doc.bindings@)) - stack_set(old(stack)@)).len(), items,
{
    let ghost bs = bindings_model(doc.bindings@);
    let ghost st = stack_set(stack@);
    let ghost all = values_model(items@);
    let mut out: Vec<Value> = Vec::new();
    let mut i: usize = 0;
    proof {
        assert(all.subrange(0, all.len() as int) =~= all);
        if let Ok(x) = resolve_values(all, bs, st) {
            assert(values_model(out@) + x =~= x);
        }
    }
    while i < items.len()
        invariant
            i <= items@.len(),
            all == values_model(items@),
            bs == bindings_model(doc.bindings@),
            st == stack_set(old(stack)@),
            stack@ == old(stack)@,
            resolve_values(all, bs, st) == (match resolve_values(all.subrange(i as int, all.len() as int), bs, st) {
                Ok(rest) => Ok(values_model(out@) + rest),
                Err(e) => Err(e),
            }),
        decreases items@.len() - i,
    {
        let ghost rest = all.subrange(i as int, all.len() as int);
        proof {
            assert(rest.subrange(1, rest.len() as int) =~= all.subrange(i + 1, all.len() as int));
            assert(rest[0] == items@[i as int]@);
            assert(decreases_to!(*items => items@));
            assert(decreases_to!(items@ => items@[i as int]));
        }
        let v = match resolve_references(&items[i], doc, stack) {
            Ok(v) => v,
            Err(e) => {
                return Err(e);
            },
        };
        proof {
            assert(values_model(out@.push(v)) =~= values_model(out@).push(v@));
            if let Ok(x) = resolve_values(all.subrange(i + 1, all.len() as int), bs, st) {
                assert(values_model(out@) + (seq![v@] + x) =~= values_model(out@).push(v@) + x);
            }
        }
        out.push(v);
        i = i + 1;
    }
    proof {
        assert(all.subrange(i as int, all.len() as int) =~= Seq::<ValueM>::empty());
        assert(values_model(out@) + Seq::<ValueM>::empty() =~= values_model(out@));
    }
    Ok(out)
}

/// Resolve the key, then the value, of each pair.
fn resolve_pair_list(pairs: &Vec<(Value, Value)>, doc: &Document, stack: &mut Vec<String>) -> (r: Result<Vec<(Value, Value)>, SurpError>)
    ensures
        match resolve_pairs(pairs_model(pairs@), bindings_model(doc.bindings@), stack_set(old(stack)@)) {
            Ok(x) => r matches Ok(y) && pairs_model(y@) == x && final(stack)@ == old(stack)@,
            Err(e) => r matches Err(y) && y@ == e,
        },
    decreases (binding_names(bindings_model(doc.bindings@)) - stack_set(old(stack)@)).len(), pairs,
{
    let ghost bs = bindings_model(doc.bindings@);
    let ghost st = stack_set(stack@);
    let ghost all = pairs_model(pairs@);
    let mut out: Vec<(Value, Value)> = Vec::new();
    let mut i: usize = 0;
    proof {
        assert(all.subrange(0, all.len() as int) =~= all);
        if let Ok(x) = resolve_pairs(all, bs, st) {
            assert(pairs_model(out@) + x =~= x);
        }
    }
    while i < pairs.len()
        invariant
            i <= pairs@.len(),
            all == pairs_model(pairs@),
            bs == bindings_model(doc.bindings@),
            st == stack_set(old(stack)@),
            stack@ == old(stack)@,
            resolve_pairs(all, bs, st) == (match resolve_pairs(all.subrange(i as int, all.len() as int), bs, st) {
                Ok(rest) => Ok(pairs_model(out@) + rest),
                Err(e) => Err(e),
            }),
        decreases pairs@.len() - i,
    {
        let ghost rest = all.subrange(i as int, all.len() as int);
        proof {
            assert(rest.subrange(1, rest.len() as int) =~= all.subrange(i + 1, all.len() as int));
            assert(rest[0] == (pairs@[i as int].0@, pairs@[i as int].1@));
            assert(decreases_to!(*pairs => pairs@));
            assert(decreases_to!(pairs@ => pairs@[i as int]));
            assert(decreases_to!(pairs@[i as int] => pairs@[i as int].0));
            assert(decreases_to!(pairs@[i as int] => pairs@[i as int].1));
        }
        let k = match resolve_references(&pairs[i].0, doc, stack) {
            Ok(v) => v,
            Err(e) => {
                return Err(e);
            },
        };
        let v = match resolve_references(&pairs[i].1, doc, stack) {
            Ok(v) => v,
            Err(e) => {
                return Err(e);
            },
        };
        proof {
            assert(pairs_model(out@.push((k, v))) =~= pairs_model(out@).push((k@, v@)));
            if let Ok(x) = resolve_pairs(all.subrange(i + 1, all.len() as int), bs, st) {
                assert(pairs_model(out@) + (seq![(k@, v@)] + x) =~= pairs_model(out@).push((k@, v@)) + x);
            }
        }
        out.push((k, v));
        i = i + 1;
    }
    proof {
        assert(all.subrange(i as int, all.len() as int) =~= Seq::<(ValueM, ValueM)>::empty());
        assert(pairs_model(out@) + Seq::<(ValueM, ValueM)>::empty() =~= pairs_model(out@));
    }
    Ok(out)
}

/// A name, if there is one, as a sequence of names.
pub open spec fn opt_name(n: Option<Seq<char>>) -> Seq<Seq<char>> {
    match n {
        Some(x) => seq![x],
        None => Seq::empty(),
    }
}

/// The names in annotations: each name, and each symbol value.
pub open spec fn annotation_names(anns: Seq<AnnotationM>) -> Seq<Seq<char>>
    decreases anns.len(),
{
    if anns.len() == 0 {
        Seq::empty()
    } else {
        seq![anns[0].name] + (match anns[0].value {
            Some(ScalarM::Sym(s)) => seq![s],
            _ => Seq::empty(),
        }) + annotation_names(anns.subrange(1, anns.len() as int))
    }
}

/// The names a value uses, in the order they are met: symbols, field
/// names, type names, variants, element and item types, binding names of
/// references, annotation names and opaque tags.
pub open spec fn names_of(v: ValueM) -> Seq<Seq<char>>
    decreases v,
{
    match v {
        ValueM::Scalar(ScalarM::Sym(s)) => seq![s],
        ValueM::Scalar(_) => Seq::empty(),
        ValueM::Product(tn, fs) => field_names(fs) + opt_name(tn),
        ValueM::SumUnit(tn, variant) => seq![variant] + opt_name(tn),
        ValueM::SumTuple(tn, variant, items) => seq![variant] + opt_name(tn) + value_names(items),
        ValueM::SumStruct(tn, variant, fs) => seq![variant] + opt_name(tn) + field_names(fs),
        ValueM::Sequence(et, items) => opt_name(et) + value_names(items),
        ValueM::Association(ps) => pair_names(ps),
        ValueM::RefBinding(name) => seq![name],
        ValueM::RefById(inner) => value_names(inner),
        ValueM::Tensor(et, _, _, anns) => seq![et] + annotation_names(anns),
        ValueM::Stream(it, anns) => seq![it] + annotation_names(anns),
        ValueM::Opaque(tag, _) => seq![tag],
    }
}

/// The names fields use: each field's name, then its value's names.
pub open spec fn field_names(fs: Seq<(Seq<char>, ValueM)>) -> Seq<Seq<char>>
    decreases fs,
{
    if fs.len() == 0 {
        Seq::empty()
    } else {
        seq![fs[0].0] + names_of(fs[0].1) + field_names(fs.subrange(1, fs.len() as int))
    }
}

/// The names values use.
pub open spec fn value_names(vs: Seq<ValueM>) -> Seq<Seq<char>>
    decreases vs,
{
    if vs.len() == 0 {
        Seq::empty()
    } else {
        names_of(vs[0]) + value_names(vs.subrange(1, vs.len() as int))
    }
}

/// The names pairs use: each key's, then each value's.
pub open spec fn pair_names(ps: Seq<(ValueM, ValueM)>) -> Seq<Seq<char>>
    decreases ps,
{
    if ps.len() == 0 {
        Seq::empty()
    } else {
        names_of(ps[0].0) + names_of(ps[0].1) + pair_names(ps.subrange(1, ps.len() as int))
    }
}

/// The names of `s` that are not in `seen`, each once, added to `seen` in
/// the order they are met.
pub open spec fn distinct_from(s: Seq<Seq<char>>, seen: Seq<Seq<char>>) -> Seq<Seq<char>>
    decreases s.len(),
{
    if s.len() == 0 {
        seen
    } else if seen.contains(s[0]) {
        distinct_from(s.subrange(1, s.len() as int), seen)
    } else {
        distinct_from(s.subrange(1, s.len() as int), seen.push(s[0]))
    }
}

/// The symbol table of a value: the distinct names it uses, in ascending
/// byte-wise order of their UTF-8 encodings (repeatedly the smallest of
/// those left).
pub open spec fn symbol_table_of(v: ValueM) -> Seq<Seq<char>> {
    let u = distinct_from(names_of(v), Seq::empty());
    sorted_positions(u, Seq::new(u.len(), |i: int| i)).map_values(|i: int| u[i])
}

/// The models of strings.
pub open spec fn texts(v: Seq<String>) -> Seq<Seq<char>> {
    v.map_values(|s: String| s@)
}

/// Append the names of annotations.
fn collect_annotation_names(anns: &Vec<Annotation>, out: &mut Vec<String>)
    ensures
        texts(final(out)@) == texts(old(out)@) + annotation_names(annotations_view(anns@)),
{
    let ghost all = annotations_view(anns@);
    let mut i: usize = 0;
    proof {
        assert(all.subrange(0, all.len() as int) =~= all);
        assert(texts(old(out)@) + annotation_names(all) =~= texts(out@) + annotation_names(all.subrange(0, all.len() as int)));
    }
    while i < anns.len()
        invariant
            i <= anns@.len(),
            all == annotations_view(anns@),
            texts(old(out)@) + annotation_names(all) == texts(out@) + annotation_names(all.subrange(i as int, all.len() as int)),
        decreases anns@.len() - i,
    {
        let ghost rest = all.subrange(i as int, all.len() as int);
        let ghost o1 = texts(out@);
        let a = &anns[i];
        out.push(a.name.clone());
        match &a.value {
            Some(Scalar::Sym(x)) => {
                out.push(x.clone());
            },
            _ => {},
        }
        proof {
            assert(rest.subrange(1, rest.len() as int) =~= all.subrange(i + 1, all.len() as int));
            assert(rest[0] == a@);
            let extra = match a@.value {
                Some(ScalarM::Sym(x)) => seq![x],
                _ => Seq::<Seq<char>>::empty(),
            };
            assert(texts(out@) =~= o1 + seq![a@.name] + extra);
            assert(o1 + annotation_names(rest) =~= texts(out@) + annotation_names(all.subrange(i + 1, all.len() as int)));
        }
        i = i + 1;
    }
    proof {
        assert(all.subrange(i as int, all.len() as int) =~= Seq::<AnnotationM>::empty());
        assert(texts(out@) + Seq::<Seq<char>>::empty() =~= texts(out@));
    }
}

/// Append a name, if there is one.
fn push_opt_name(out: &mut Vec<String>, n: &Option<String>)
    ensures
        texts(final(out)@) == texts(old(out)@) + opt_name(opt_text(*n)),
{
    match n {
        Some(x) => {
            out.push(x.clone());
            proof {
                assert(texts(out@) =~= texts(old(out)@) + seq![x@]);
            }
        },
        None => {
            proof {
                assert(texts(out@) =~= texts(old(out)@) + Seq::<Seq<char>>::empty());
            }
        },
    }
}

/// Append the names a value uses, in the order they are met.
fn collect_names(value: &Value, out: &mut Vec<String>)
    ensures
        texts(final(out)@) == texts(old(out)@) + names_of(value@),
    decreases value,
{
    match value {
        Value::Scalar(Scalar::Sym(x)) => {
            out.push(x.clone());
            proof {
                assert(texts(out@) =~= texts(old(out)@) + seq![x@]);
            }
        },
        Value::Scalar(_) => {
            proof {
                assert(texts(out@) =~= texts(old(out)@) + Seq::<Seq<char>>::empty());
            }
        },
        Value::Product(p) => {
            proof {
                lemma_product_view(p.type_label, p.fields);
                assert(decreases_to!(*value => value->Product_0));
                assert(decreases_to!(value->Product_0 => value->Product_0.fields));
            }
            collect_field_names(&p.fields, out);
            push_opt_name(out, &p.type_label);
            proof {
                assert(texts(out@) =~= texts(old(out)@) + (field_names(fields_model(p.fields@)) + opt_name(opt_text(p.type_label))));
            }
        },
        Value::Sum(sm) => {
            proof {
                lemma_sum_view(sm.type_label, sm.variant, sm.payload);
                assert(decreases_to!(*value => value->Sum_0));
                assert(decreases_to!(value->Sum_0 => value->Sum_0.payload));
            }
            out.push(sm.variant.clone());
            push_opt_name(out, &sm.type_label);
            let ghost mid = texts(out@);
            proof {
                assert(mid =~= texts(old(out)@) + seq![sm.variant@] + opt_name(opt_text(sm.type_label)));
            }
            match &sm.payload {
                SumPayload::Unit => {},
                SumPayload::Tuple(items) => {
                    proof {
                        assert(decreases_to!(value->Sum_0.payload => value->Sum_0.payload->Tuple_0));
                    }
                    collect_value_names(items, out);
                },
                SumPayload::Struct(fields) => {
                    proof {
                        assert(decreases_to!(value->Sum_0.payload => value->Sum_0.payload->Struct_0));
                    }
                    collect_field_names(fields, out);
                },
            }
            proof {
                assert(texts(out@) =~= texts(old(out)@) + names_of(value@));
            }
        },
        Value::Sequence(q) => {
            proof {
                lemma_sequence_view(q.elem_type, q.items);
                assert(decreases_to!(*value => value->Sequence_0));
                assert(decreases_to!(value->Sequence_0 => value->Sequence_0.items));
            }
            push_opt_name(out, &q.elem_type);
            collect_value_names(&q.items, out);
            proof {
                assert(texts(out@) =~= texts(old(out)@) + (opt_name(opt_text(q.elem_type)) + value_names(values_model(q.items@))));
            }
        },
        Value::Association(pairs) => {
            proof {
                lemma_association_view(*pairs);
                assert(decreases_to!(*value => value->Association_0));
            }
            collect_pair_names(pairs, out);
        },
        Value::Reference(Reference::Binding(name)) => {
            out.push(name.clone());
            proof {
                assert(texts(out@) =~= texts(old(out)@) + seq![name@]);
            }
        },
        Value::Reference(Reference::ById(inner)) => {
            proof {
                assert(decreases_to!(*value => value->Reference_0));
                assert(decreases_to!(value->Reference_0 => value->Reference_0->ById_0));
            }
            collect_names(inner, out);
            proof {
                let one = seq![(**inner)@];
                assert(one.subrange(1, 1) =~= Seq::<ValueM>::empty());
                assert(value_names(one) =~= names_of((**inner)@) + value_names(Seq::<ValueM>::empty()));
                assert(value_names(one) =~= names_of((**inner)@));
            }
        },
        Value::Tensor(t) => {
            out.push(t.element_type.clone());
            let ghost mid = texts(out@);
            collect_annotation_names(&t.annotations, out);
            proof {
                assert(mid =~= texts(old(out)@) + seq![t.element_type@]);
                assert(texts(out@) =~= texts(old(out)@) + (seq![t.element_type@] + annotation_names(annotations_view(t.annotations@))));
            }
        },
        Value::Stream(st) => {
            out.push(st.item_type.clone());
            let ghost mid = texts(out@);
            collect_annotation_names(&st.annotations, out);
            proof {
                assert(mid =~= texts(old(out)@) + seq![st.item_type@]);
                assert(texts(out@) =~= texts(old(out)@) + (seq![st.item_type@] + annotation_names(annotations_view(st.annotations@))));
            }
        },
        Value::Opaque(o) => {
            out.push(o.type_tag.clone());
            proof {
                assert(texts(out@) =~= texts(old(out)@) + seq![o.type_tag@]);
            }
        },
    }
}

/// Append the names fields use.
fn collect_field_names(fields: &Vec<Field>, out: &mut Vec<String>)
    ensures
        texts(final(out)@) == texts(old(out)@) + field_names(fields_model(fields@)),
    decreases fields,
{
    let ghost all = fields_model(fields@);
    let mut i: usize = 0;
    proof {
        assert(all.subrange(0, all.len() as int) =~= all);
    }
    while i < fields.len()
        invariant
            i <= fields@.len(),
            all == fields_model(fields@),
            texts(old(out)@) + field_names(all) == texts(out@) + field_names(all.subrange(i as int, all.len() as int)),
        decreases fields@.len() - i,
    {
        let ghost rest = all.subrange(i as int, all.len() as int);
        let ghost o1 = texts(out@);
        proof {
            assert(rest.subrange(1, rest.len() as int) =~= all.subrange(i + 1, all.len() as int));
            assert(rest[0] == (fields@[i as int].name@, fields@[i as int].value@));
            assert(decreases_to!(*fields => fields@));
            assert(decreases_to!(fields@ => fields@[i as int]));
            assert(decreases_to!(fields@[i as int] => fields@[i as int].value));
        }
        out.push(fields[i].name.clone());
        let ghost o2 = texts(out@);
        collect_names(&fields[i].value, out);
        proof {
            assert(o2 =~= o1 + seq![rest[0].0]);
            assert(o1 + field_names(rest) =~= texts(out@) + field_names(all.subrange(i + 1, all.len() as int)));
        }
        i = i + 1;
    }
    proof {
        assert(all.subrange(i as int, all.len() as int) =~= Seq::<(Seq<char>, ValueM)>::empty());
        assert(texts(out@) + Seq::<Seq<char>>::empty() =~= texts(out@));
    }
}

/// Append the names values use.
fn collect_value_names(items: &Vec<Value>, out: &mut Vec<String>)
    ensures
        texts(final(out)@) == texts(old(out)@) + value_names(values_model(items@)),
    decreases items,
{
    let ghost all = values_model(items@);
    let mut i: usize = 0;
    proof {
        assert(all.subrange(0, all.len() as int) =~= all);
    }
    while i < items.len()
        invariant
            i <= items@.len(),
            all == values_model(items@),
            texts(old(out)@) + value_names(all) == texts(out@) + value_names(all.subrange(i as int, all.len() as int)),
        decreases items@.len() - i,
    {
        let ghost rest = all.subrange(i as int, all.len() as int);
        let ghost o1 = texts(out@);
        proof {
            assert(rest.subrange(1, rest.len() as int) =~= all.subrange(i + 1, all.len() as int));
            assert(rest[0] == items@[i as int]@);
            assert(decreases_to!(*items => items@));
            assert(decreases_to!(items@ => items@[i as int]));
        }
        collect_names(&items[i], out);
        proof {
            assert(o1 + value_names(rest) =~= texts(out@) + value_names(all.subrange(i + 1, all.len() as int)));
        }
        i = i + 1;
    }
    proof {
        assert(all.subrange(i as int, all.len() as int) =~= Seq::<ValueM>::empty());
        assert(texts(out@) + Seq::<Seq<char>>::empty() =~= texts(out@));
    }
}

/// Append the names pairs use.
fn collect_pair_names(pairs: &Vec<(Value, Value)>, out: &mut Vec<String>)
    ensures
        texts(final(out)@) == texts(old(out)@) + pair_names(pairs_model(pairs@)),
    decreases pairs,
{
    let ghost all = pairs_model(pairs@);
    let mut i: usize = 0;
    proof {
        assert(all.subrange(0, all.len() as int) =~= all);
    }
    while i < pairs.len()
        invariant
            i <= pairs@.len(),
            all == pairs_model(pairs@),
            texts(old(out)@) + pair_names(all) == texts(out@) + pair_names(all.subrange(i as int, all.len() as int)),
        decreases pairs@.len() - i,
    {
        let ghost rest = all.subrange(i as int, all.len() as int);
        let ghost o1 = texts(out@);
        proof {
            assert(rest.subrange(1, rest.len() as int) =~= all.subrange(i + 1, all.len() as int));
            assert(rest[0] == (pairs@[i as int].0@, pairs@[i as int].1@));
            assert(decreases_to!(*pairs => pairs@));
            assert(decreases_to!(pairs@ => pairs@[i as int]));
            assert(decreases_to!(pairs@[i as int] => pairs@[i as int].0));
            assert(decreases_to!(pairs@[i as int] => pairs@[i as int].1));
        }
        collect_names(&pairs[i].0, out);
        collect_names(&pairs[i].1, out);
        proof {
            assert(o1 + pair_names(rest) =~= texts(out@) + pair_names(all.subrange(i + 1, all.len() as int)));
        }
        i = i + 1;
    }
    proof {
        assert(all.subrange(i as int, all.len() as int) =~= Seq::<(ValueM, ValueM)>::empty());
        assert(texts(out@) + Seq::<Seq<char>>::empty() =~= texts(out@));
    }
}


/// The distinct names of `names`, each once, in the order first met.
fn distinct_names(names: &Vec<String>) -> (r: Vec<String>)
    ensures
        texts(r@) == distinct_from(texts(names@), Seq::empty()),
{
    let ghost all = texts(names@);
    let mut seen: Vec<String> = Vec::new();
    let mut i: usize = 0;
    proof {
        assert(all.subrange(0, all.len() as int) =~= all);
        assert(texts(seen@) =~= Seq::<Seq<char>>::empty());
    }
    while i < names.len()
        invariant
            i <= names@.len(),
            all == texts(names@),
            distinct_from(all, Seq::empty()) == distinct_from(all.subrange(i as int, all.len() as int), texts(seen@)),
        decreases names@.len() - i,
    {
        let ghost rest = all.subrange(i as int, all.len() as int);
        let ghost before = texts(seen@);
        proof {
            assert(rest.subrange(1, rest.len() as int) =~= all.subrange(i + 1, all.len() as int));
            assert(rest[0] == names@[i as int]@);
        }
        let found = stack_contains(&seen, &names[i]);
        proof {
            assert(stack_set(seen@) == before.to_set());
            assert(found == before.contains(rest[0]));
        }
        if !found {
            seen.push(names[i].clone());
            proof {
                assert(texts(seen@) =~= before.push(rest[0]));
            }
        }
        i = i + 1;
    }
    proof {
        assert(all.subrange(i as int, all.len() as int) =~= Seq::<Seq<char>>::empty());
    }
    seen
}

/// The positions of `rem` as mathematical integers.
spec fn int_positions(rem: Seq<usize>) -> Seq<int> {
    rem.map_values(|i: usize| i as int)
}

/// The names `u` at the positions `order`.
pub open spec fn names_at(u: Seq<Seq<char>>, order: Seq<int>) -> Seq<Seq<char>> {
    order.map_values(|i: int| u[i])
}

/// The names `u` in the order of their keys: repeatedly the first one
/// whose UTF-8 bytes are smallest among those left.
fn sort_names(u: &Vec<String>) -> (r: Vec<String>)
    ensures
        texts(r@) == names_at(texts(u@), sorted_positions(texts(u@), Seq::new(u@.len(), |i: int| i))),
{
    let ghost d = texts(u@);
    let n = u.len();
    let mut rem: Vec<usize> = Vec::new();
    let mut i: usize = 0;
    while i < n
        invariant
            i <= n,
            n == u@.len(),
            rem@.len() == i,
            forall|j: int| 0 <= j < i ==> #[trigger] rem@[j] == j,
        decreases n - i,
    {
        rem.push(i);
        i = i + 1;
    }
    proof {
        assert(int_positions(rem@) =~= Seq::new(d.len(), |i: int| i));
    }
    let mut out: Vec<String> = Vec::new();
    proof {
        assert(texts(out@) + names_at(d, sorted_positions(d, int_positions(rem@))) =~= names_at(
            d,
            sorted_positions(d, Seq::new(d.len(), |i: int| i)),
        ));
    }
    while rem.len() > 0
        invariant
            d == texts(u@),
            n == u@.len(),
            forall|j: int| 0 <= j < rem@.len() ==> #[trigger] rem@[j] < n,
            names_at(d, sorted_positions(d, Seq::new(d.len(), |i: int| i))) == texts(out@) + names_at(
                d,
                sorted_positions(d, int_positions(rem@)),
            ),
        decreases rem@.len(),
    {
        let ghost pr = int_positions(rem@);
        let mut best: usize = 0;
        let mut j: usize = 1;
        proof {
            assert(pr.take(1).len() <= 1);
        }
        while j < rem.len()
            invariant
                pr == int_positions(rem@),
                d == texts(u@),
                1 <= j <= rem@.len(),
                forall|q: int| 0 <= q < rem@.len() ==> #[trigger] rem@[q] < n,
                n == u@.len(),
                best < j,
                best as int == min_position(d, pr.take(j as int)),
            decreases rem@.len() - j,
        {
            proof {
                assert(pr.take(j + 1).drop_last() =~= pr.take(j as int));
                assert(pr.take(j + 1).last() == rem@[j as int] as int);
                assert(pr.take(j + 1)[best as int] == rem@[best as int] as int);
            }
            let kj = u[rem[j]].as_str().as_bytes();
            let kb = u[rem[best]].as_str().as_bytes();
            proof {
                assert(kj@ == entry_key(d, rem@[j as int] as int));
                assert(kb@ == entry_key(d, rem@[best as int] as int));
            }
            if bytes_less(kj, kb) {
                best = j;
            }
            j = j + 1;
        }
        proof {
            assert(pr.take(rem@.len() as int) =~= pr);
            lemma_min_position_bounds(d, pr);
        }
        let idx = rem.remove(best);
        proof {
            assert(int_positions(rem@) =~= pr.remove(best as int));
        }
        let ghost o1 = texts(out@);
        out.push(u[idx].clone());
        proof {
            let order = sorted_positions(d, pr);
            assert(order[0] == idx as int);
            assert(order =~= seq![idx as int] + sorted_positions(d, int_positions(rem@)));
            assert(names_at(d, order) =~= seq![d[idx as int]] + names_at(d, sorted_positions(d, int_positions(rem@))));
            assert(texts(out@) =~= o1.push(d[idx as int]));
        }
    }
    proof {
        assert(sorted_positions(d, int_positions(rem@)) =~= Seq::<int>::empty());
        assert(texts(out@) + names_at(d, Seq::<int>::empty()) =~= texts(out@));
    }
    out
}


/// Whether a value holds a symbol scalar: itself, in its items, field
/// values, keys and values, referenced value, or as an annotation's value.
/// Field names, type names and other labels do not count.
pub open spec fn has_symbol(v: ValueM) -> bool
    decreases v,
{
    match v {
        ValueM::Scalar(ScalarM::Sym(_)) => true,
        ValueM::Scalar(_) => false,
        ValueM::Product(_, fs) => fields_have_symbol(fs),
        ValueM::SumUnit(_, _) => false,
        ValueM::SumTuple(_, _, items) => values_have_symbol(items),
        ValueM::SumStruct(_, _, fs) => fields_have_symbol(fs),
        ValueM::Sequence(_, items) => values_have_symbol(items),
        ValueM::Association(ps) => pairs_have_symbol(ps),
        ValueM::RefBinding(_) => false,
        ValueM::RefById(inner) => values_have_symbol(inner),
        ValueM::Tensor(_, _, _, anns) => annotations_have_symbol(anns),
        ValueM::Stream(_, anns) => annotations_have_symbol(anns),
        ValueM::Opaque(_, _) => false,
    }
}

/// Whether a field value holds a symbol scalar.
pub open spec fn fields_have_symbol(fs: Seq<(Seq<char>, ValueM)>) -> bool
    decreases fs,
{
    if fs.len() == 0 {
        false
    } else {
        has_symbol(fs[0].1) || fields_have_symbol(fs.subrange(1, fs.len() as int))
    }
}

/// Whether one of the values holds a symbol scalar.
pub open spec fn values_have_symbol(vs: Seq<ValueM>) -> bool
    decreases vs,
{
    if vs.len() == 0 {
        false
    } else {
        has_symbol(vs[0]) || values_have_symbol(vs.subrange(1, vs.len() as int))
    }
}

/// Whether a key or a value of the pairs holds a symbol scalar.
pub open spec fn pairs_have_symbol(ps: Seq<(ValueM, ValueM)>) -> bool
    decreases ps,
{
    if ps.len() == 0 {
        false
    } else {
        has_symbol(ps[0].0) || has_symbol(ps[0].1) || pairs_have_symbol(ps.subrange(1, ps.len() as int))
    }
}

/// Whether an annotation's value is a symbol scalar.
pub open spec fn annotations_have_symbol(anns: Seq<AnnotationM>) -> bool {
    exists|i: int| 0 <= i < anns.len() && (#[trigger] anns[i].value matches Some(ScalarM::Sym(_)))
}

/// Whether an annotation's value is a symbol scalar.
fn annotations_contain_symbol(anns: &Vec<Annotation>) -> (r: bool)
    ensures
        r == annotations_have_symbol(annotations_view(anns@)),
{
    let ghost all = annotations_view(anns@);
    let mut i: usize = 0;
    while i < anns.len()
        invariant
            i <= anns@.len(),
            all == annotations_view(anns@),
            forall|k: int| 0 <= k < i ==> !(#[trigger] all[k].value matches Some(ScalarM::Sym(_))),
        decreases anns@.len() - i,
    {
        match &anns[i].value {
            Some(Scalar::Sym(_)) => {
                proof {
                    assert(all[i as int].value matches Some(ScalarM::Sym(_)));
                }
                return true;
            },
            _ => {},
        }
        proof {
            assert(!(all[i as int].value matches Some(ScalarM::Sym(_))));
        }
        i = i + 1;
    }
    false
}

/// Whether a value holds a symbol scalar.
fn contains_symbol_value(value: &Value) -> (r: bool)
    ensures
        r == has_symbol(value@),
    decreases value,
{
    match value {
        Value::Scalar(Scalar::Sym(_)) => true,
        Value::Scalar(_) => false,
        Value::Product(p) => {
            proof {
                lemma_product_view(p.type_label, p.fields);
                assert(decreases_to!(*value => value->Product_0));
                assert(decreases_to!(value->Product_0 => value->Product_0.fields));
            }
            fields_contain_symbol(&p.fields)
        },
        Value::Sum(sm) => {
            proof {
                lemma_sum_view(sm.type_label, sm.variant, sm.payload);
                assert(decreases_to!(*value => value->Sum_0));
                assert(decreases_to!(value->Sum_0 => value->Sum_0.payload));
            }
            match &sm.payload {
                SumPayload::Unit => false,
                SumPayload::Tuple(items) => {
                    proof {
                        assert(decreases_to!(value->Sum_0.payload => value->Sum_0.payload->Tuple_0));
                    }
                    values_contain_symbol(items)
                },
                SumPayload::Struct(fields) => {
                    proof {
                        assert(decreases_to!(value->Sum_0.payload => value->Sum_0.payload->Struct_0));
                    }
                    fields_contain_symbol(fields)
                },
            }
        },
        Value::Sequence(q) => {
            proof {
                lemma_sequence_view(q.elem_type, q.items);
                assert(decreases_to!(*value => value->Sequence_0));
                assert(decreases_to!(value->Sequence_0 => value->Sequence_0.items));
            }
            values_contain_symbol(&q.items)
        },
        Value::Association(pairs) => {
            proof {
                lemma_association_view(*pairs);
                assert(decreases_to!(*value => value->Association_0));
            }
            pairs_contain_symbol(pairs)
        },
        Value::Reference(Reference::Binding(_)) => false,
        Value::Reference(Reference::ById(inner)) => {
            proof {
                assert(decreases_to!(*value => value->Reference_0));
                assert(decreases_to!(value->Reference_0 => value->Reference_0->ById_0));
            }
            let r = contains_symbol_value(inner);
            proof {
                let one = seq![(**inner)@];
                assert(one.subrange(1, 1) =~= Seq::<ValueM>::empty());
                assert(values_have_symbol(one) == (has_symbol((**inner)@) || values_have_symbol(Seq::<ValueM>::empty())));
            }
            r
        },
        Value::Tensor(t) => annotations_contain_symbol(&t.annotations),
        Value::Stream(st) => annotations_contain_symbol(&st.annotations),
        Value::Opaque(_) => false,
    }
}

/// Whether a field value holds a symbol scalar.
fn fields_contain_symbol(fields: &Vec<Field>) -> (r: bool)
    ensures
        r == fields_have_symbol(fields_model(fields@)),
    decreases fields,
{
    let ghost all = fields_model(fields@);
    let mut i: usize = 0;
    proof {
        assert(all.subrange(0, all.len() as int) =~= all);
    }
    while i < fields.len()
        invariant
            i <= fields@.len(),
            all == fields_model(fields@),
            fields_have_symbol(all) == fields_have_symbol(all.subrange(i as int, all.len() as int)),
        decreases fields@.len() - i,
    {
        let ghost rest = all.subrange(i as int, all.len() as int);
        proof {
            assert(rest.subrange(1, rest.len() as int) =~= all.subrange(i + 1, all.len() as int));
            assert(rest[0] == (fields@[i as int].name@, fields@[i as int].value@));
            assert(decreases_to!(*fields => fields@));
            assert(decreases_to!(fields@ => fields@[i as int]));
            assert(decreases_to!(fields@[i as int] => fields@[i as int].value));
        }
        if contains_symbol_value(&fields[i].value) {
            return true;
        }
        i = i + 1;
    }
    proof {
        assert(all.subrange(i as int, all.len() as int) =~= Seq::<(Seq<char>, ValueM)>::empty());
    }
    false
}

/// Whether one of the values holds a symbol scalar.
fn values_contain_symbol(items: &Vec<Value>) -> (r: bool)
    ensures
        r == values_have_symbol(values_model(items@)),
    decreases items,
{
    let ghost all = values_model(items@);
    let mut i: usize = 0;
    proof {
        assert(all.subrange(0, all.len() as int) =~= all);
    }
    while i < items.len()
        invariant
            i <= items@.len(),
            all == values_model(items@),
            values_have_symbol(all) == values_have_symbol(all.subrange(i as int, all.len() as int)),
        decreases items@.len() - i,
    {
        let ghost rest = all.subrange(i as int, all.len() as int);
        proof {
            assert(rest.subrange(1, rest.len() as int) =~= all.subrange(i + 1, all.len() as int));
            assert(rest[0] == items@[i as int]@);
            assert(decreases_to!(*items => items@));
            assert(decreases_to!(items@ => items@[i as int]));
        }
        if contains_symbol_value(&items[i]) {
            return true;
        }
        i = i + 1;
    }
    proof {
        assert(all.subrange(i as int, all.len() as int) =~= Seq::<ValueM>::empty());
    }
    false
}

/// Whether a key or a value of the pairs holds a symbol scalar.
fn pairs_contain_symbol(pairs: &Vec<(Value, Value)>) -> (r: bool)
    ensures
        r == pairs_have_symbol(pairs_model(pairs@)),
    decreases pairs,
{
    let ghost all = pairs_model(pairs@);
    let mut i: usize = 0;
    proof {
        assert(all.subrange(0, all.len() as int) =~= all);
    }
    while i < pairs.len()
        invariant
            i <= pairs@.len(),
            all == pairs_model(pairs@),
            pairs_have_symbol(all) == pairs_have_symbol(all.subrange(i as int, all.len() as int)),
        decreases pairs@.len() - i,
    {
        let ghost rest = all.subrange(i as int, all.len() as int);
        proof {
            assert(rest.subrange(1, rest.len() as int) =~= all.subrange(i + 1, all.len() as int));
            assert(rest[0] == (pairs@[i as int].0@, pairs@[i as int].1@));
            assert(decreases_to!(*pairs => pairs@));
            assert(decreases_to!(pairs@ => pairs@[i as int]));
            assert(decreases_to!(pairs@[i as int] => pairs@[i as int].0));
            assert(decreases_to!(pairs@[i as int] => pairs@[i as int].1));
        }
        if contains_symbol_value(&pairs[i].0) {
            return true;
        }
        if contains_symbol_value(&pairs[i].1) {
            return true;
        }
        i = i + 1;
    }
    proof {
        assert(all.subrange(i as int, all.len() as int) =~= Seq::<(ValueM, ValueM)>::empty());
    }
    false
}


/// The effective root of a document: its explicit root, else the value of
/// its last binding.
pub open spec fn root_of(doc: Document) -> Result<ValueM, ErrorModel> {
    match doc.root {
        Some(v) => Ok(v@),
        None => if doc.bindings@.len() > 0 {
            Ok(doc.bindings@.last().value@)
        } else {
            Err(invalid("document has no root value or bindings"@))
        },
    }
}

/// The message of the error for symbol values without a symbol table.
pub open spec fn no_symtab_message() -> Seq<char> {
    "symbol values require symbol table; enable EncodeOptions::with_symtab"@
}

/// The header of an encoded document: version 1, the self-describing
/// flag and, with a symbol table, its flag; the alignment hint; a zero
/// schema hash prefix; the offset of the root segment in the payload; zero
/// symbol table and index offsets.
pub open spec fn document_header_bytes(alignment: u8, root_offset: u64, has_symtab: bool) -> Seq<u8> {
    magic_bytes() + seq![1u8, 1u8, if has_symtab { 3u8 } else { 1u8 }, alignment] + seq![
        0u8,
        0u8,
        0u8,
        0u8,
        0u8,
        0u8,
        0u8,
        0u8,
    ] + spec_u64_to_le_bytes(root_offset) + spec_u32_to_le_bytes(0u32) + spec_u32_to_le_bytes(0u32)
}

/// The CBF file of a document with effective root `root` and bindings
/// `bs`: the root with every reference to
/// a binding resolved; the symbol table of that value (or none without
/// `with_symtab`, which a value holding a symbol scalar then cannot do
/// without); the header; the symbol table's bytes, if it has any symbol;
/// the root segment; and the CRC-64 of all that, in little-endian order.
pub open spec fn enc_document(
    root: Result<ValueM, ErrorModel>,
    bs: Seq<(Seq<char>, ValueM)>,
    with_symtab: bool,
    alignment: u8,
) -> Result<Seq<u8>, ErrorModel> {
    match root {
        Err(e) => Err(e),
        Ok(r0) => match resolve(r0, bs, Set::empty()) {
            Err(e) => Err(e),
            Ok(v) => if !with_symtab && has_symbol(v) {
                Err(invalid(no_symtab_message()))
            } else {
                let syms = if with_symtab {
                    symbol_table_of(v)
                } else {
                    Seq::empty()
                };
                let table = if syms.len() == 0 {
                    Seq::empty()
                } else {
                    symbol_table_bytes(syms)
                };
                match enc_value(v, syms, syms.len() > 0) {
                    Err(e) => Err(e),
                    Ok(b) => {
                        let body = document_header_bytes(alignment, table.len() as u64, syms.len() > 0) + table + b;
                        Ok(body + spec_u64_to_le_bytes(crc64_of(body)))
                    },
                }
            },
        },
    }
}

/// Encode a document as a CBF file.
pub fn encode_document(doc: &Document, options: EncodeOptions) -> (r: Result<Vec<u8>, SurpError>)
    ensures
        match enc_document(root_of(*doc), bindings_model(doc.bindings@), options.with_symtab, options.alignment) {
            Ok(b) => r matches Ok(x) && x@ == b,
            Err(e) => r matches Err(x) && x@ == e,
        },
{
    let root0 = match doc.effective_root() {
        Ok(v) => v,
        Err(e) => {
            return Err(e);
        },
    };
    let mut stack: Vec<String> = Vec::new();
    proof {
        assert(stack_set(stack@) =~= Set::<Seq<char>>::empty());
    }
    let root = match resolve_references(&root0, doc, &mut stack) {
        Ok(v) => v,
        Err(e) => {
            return Err(e);
        },
    };
    let symbol_list: Vec<String> = if options.with_symtab {
        let mut names: Vec<String> = Vec::new();
        collect_names(&root, &mut names);
        proof {
            assert(texts(names@) =~= names_of(root@));
        }
        let u = distinct_names(&names);
        sort_names(&u)
    } else {
        if contains_symbol_value(&root) {
            return Err(SurpError::InvalidData(
                String::from_str("symbol values require symbol table; enable EncodeOptions::with_symtab"),
            ));
        }
        Vec::new()
    };
    let ghost syms = syms_of(symbol_list@);
    proof {
        if options.with_symtab {
            assert(syms == symbol_table_of(root@));
        } else {
            assert(syms =~= Seq::<Seq<char>>::empty());
        }
    }
    let has = symbol_list.len() > 0;
    let table: Vec<u8> = if has {
        encode_symbol_table(symbol_list.as_slice())
    } else {
        Vec::new()
    };
    proof {
        if has {
            assert(table@ == symbol_table_bytes(syms));
        } else {
            assert(table@ =~= Seq::<u8>::empty());
        }
    }
    let mut payload: Vec<u8> = Vec::new();
    payload.extend_from_slice(table.as_slice());
    let root_offset = payload.len() as u64;
    let ctx = EncodeCtx { symbols: symbol_list, has_symtab: has };
    let ghost before = payload@;
    match encode_segment(&root, &ctx, &mut payload) {
        Ok(()) => {},
        Err(e) => {
            return Err(e);
        },
    }
    let mut header = CbfHeader::new();
    header.alignment = options.alignment;
    header.root_offset = root_offset;
    if has {
        header.flags = header.flags | FLAG_HAS_SYMTAB;
        header.symtab_offset = 0;
        proof {
            assert(1u8 | 2u8 == 3u8) by (bit_vector);
        }
    }
    let hb = header.encode();
    proof {
        assert(header_bytes(header) =~= document_header_bytes(options.alignment, root_offset, has));
    }
    let mut out: Vec<u8> = Vec::new();
    out.extend_from_slice(hb.as_slice());
    out.extend_from_slice(payload.as_slice());
    let checksum = crc64_ecma(out.as_slice());
    let ck = u64_to_le_bytes(checksum);
    let ghost body = out@;
    out.extend_from_slice(ck.as_slice());
    proof {
        assert(body =~= document_header_bytes(options.alignment, root_offset, has) + table@ + (payload@.subrange(
            table@.len() as int,
            payload@.len() as int,
        )));
        assert(root_of(*doc) == Ok::<ValueM, ErrorModel>(root0@));
        assert(resolve(root0@, bindings_model(doc.bindings@), Set::empty()) == Ok::<ValueM, ErrorModel>(root@));
        assert(!(!options.with_symtab && has_symbol(root@)));
        assert(syms.len() > 0 <==> has);
        assert(enc_value(root@, syms, has) matches Ok(b) && payload@ == before + b);
        assert(out@ == body + spec_u64_to_le_bytes(crc64_of(body)));
        assert(before == table@);
        assert(root_offset == table@.len() as u64);
        let b = enc_value(root@, syms, has)->Ok_0;
        assert(payload@.subrange(table@.len() as int, payload@.len() as int) =~= b);
        let tb = if syms.len() == 0 { Seq::<u8>::empty() } else { symbol_table_bytes(syms) };
        assert(tb == table@);
        assert(body == document_header_bytes(options.alignment, tb.len() as u64, syms.len() > 0) + tb + b);
        assert(enc_document(root_of(*doc), bindings_model(doc.bindings@), options.with_symtab, options.alignment) == Ok::<Seq<u8>, ErrorModel>(out@));
    }
    Ok(out)
}

/// Encode one value as the root of an otherwise empty document.
pub fn encode_value(value: &Value, options: EncodeOptions) -> (r: Result<Vec<u8>, SurpError>)
    ensures
        match enc_document(Ok(value@), Seq::empty(), options.with_symtab, options.alignment) {
            Ok(b) => r matches Ok(x) && x@ == b,
            Err(e) => r matches Err(x) && x@ == e,
        },
{
    let doc = Document { annotations: Vec::new(), uses: Vec::new(), bindings: Vec::new(), root: Some(clone_value(value)) };
    proof {
        assert(bindings_model(doc.bindings@) =~= Seq::<(Seq<char>, ValueM)>::empty());
    }
    encode_document(&doc, options)
}

} // verus!
