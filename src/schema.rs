//! The wire convention of records and tagged unions, driven by their
//! declared fields and variants.
use vstd::prelude::*;
use crate::error::Error;
use crate::value::{Value, JValue, model, model_items, model_entries, lemma_model_items, lemma_model_entries, object_insert, obj_put, lookup, keys_sorted, entries_wf, lemma_obj_put, find_key, lemma_lookup_at, lemma_lookup_none, clone_items};
use crate::decl::{Field, Variant, VariantKind, field_wire, variant_wire};

verus! {

broadcast use vstd::std_specs::vec::group_vec_axioms, vstd::seq::group_seq_axioms;

/// The key that carries a variant's tag.
pub open spec fn type_key() -> Seq<char> {
    seq!['t', 'y', 'p', 'e']
}

/// The key that carries a positional variant's elements.
pub open spec fn data_key() -> Seq<char> {
    seq!['d', 'a', 't', 'a']
}

pub open spec fn opt_model(o: Option<Value>) -> Option<JValue> {
    match o {
        Some(v) => Some(v@),
        None => None,
    }
}

pub open spec fn opt_models(s: Seq<Option<Value>>) -> Seq<Option<JValue>> {
    Seq::new(s.len(), |i: int| opt_model(s[i]))
}

/// What encoding one field adds to the entries `acc`: nothing when skipped,
/// or absent under `skip_if_none`; else its value (null when absent) under
/// its wire name. `None` is an optional field's absent value.
pub open spec fn put_field(f: Field, val: Option<JValue>, acc: Seq<(Seq<char>, JValue)>) -> Seq<(Seq<char>, JValue)> {
    if f.skip {
        acc
    } else {
        match val {
            None => if f.skip_if_none && f.is_option {
                acc
            } else {
                obj_put(acc, field_wire(f), JValue::Null)
            },
            Some(v) => obj_put(acc, field_wire(f), v),
        }
    }
}

/// The entries that encoding the fields `fs`, with values `vals`, adds to `acc`.
pub open spec fn put_fields(fs: Seq<Field>, vals: Seq<Option<JValue>>, acc: Seq<(Seq<char>, JValue)>) -> Seq<(Seq<char>, JValue)>
    decreases fs.len(),
{
    if fs.len() == 0 {
        acc
    } else {
        put_field(fs.last(), vals[fs.len() - 1], put_fields(fs.drop_last(), vals, acc))
    }
}

/// The entries of a variant's tag.
pub open spec fn tag_entries(w: Seq<char>) -> Seq<(Seq<char>, JValue)> {
    obj_put(Seq::empty(), type_key(), JValue::Str(w))
}

fn type_key_text() -> (r: String)
    ensures
        r@ == type_key(),
{
    proof {
        reveal_strlit("type");
        assert("type"@ =~= type_key());
    }
    "type".to_string()
}

fn data_key_text() -> (r: String)
    ensures
        r@ == data_key(),
{
    proof {
        reveal_strlit("data");
        assert("data"@ =~= data_key());
    }
    "data".to_string()
}

/// Writes the fields into `entries`, in declaration order.
pub fn encode_fields(fields: &Vec<Field>, values: &Vec<Option<Value>>, entries: &mut Vec<(String, Value)>)
    requires
        fields.len() == values.len(),
        keys_sorted(model_entries(old(entries)@)),
    ensures
        model_entries(final(entries)@) == put_fields(fields@, opt_models(values@), model_entries(old(entries)@)),
        keys_sorted(model_entries(final(entries)@)),
{
    let ghost start = model_entries(entries@);
    let ghost vals = opt_models(values@);
    let mut i: usize = 0;
    proof {
        assert(fields@.take(0) =~= Seq::<Field>::empty());
    }
    while i < fields.len()
        invariant
            i <= fields.len(),
            fields.len() == values.len(),
            vals == opt_models(values@),
            model_entries(entries@) == put_fields(fields@.take(i as int), vals, start),
            keys_sorted(model_entries(entries@)),
        decreases fields.len() - i,
    {
        let f = &fields[i];
        proof {
            assert(fields@.take(i + 1).drop_last() =~= fields@.take(i as int));
            assert(fields@.take(i + 1).last() == fields@[i as int]);
            assert(vals[i as int] == opt_model(values@[i as int]));
        }
        if !f.skip {
            match &values[i] {
                None => {
                    if !(f.skip_if_none && f.is_option) {
                        proof {
                            lemma_obj_put(model_entries(entries@), field_wire(*f), JValue::Null);
                        }
                        object_insert(entries, f.wire_name().to_string(), Value::Null);
                    }
                },
                Some(v) => {
                    proof {
                        lemma_obj_put(model_entries(entries@), field_wire(*f), v@);
                    }
                    object_insert(entries, f.wire_name().to_string(), v.clone());
                },
            }
        }
        i += 1;
    }
    proof {
        assert(fields@.take(fields.len() as int) =~= fields@);
    }
}

/// Encodes a record: an object with one entry per written field.
pub fn encode_record(fields: &Vec<Field>, values: &Vec<Option<Value>>) -> (r: Value)
    requires
        fields.len() == values.len(),
    ensures
        r@ == JValue::Object(put_fields(fields@, opt_models(values@), Seq::empty())),
{
    let mut entries: Vec<(String, Value)> = Vec::new();
    proof {
        assert(model_entries(entries@) =~= Seq::<(Seq<char>, JValue)>::empty());
    }
    encode_fields(fields, values, &mut entries);
    Value::Object(entries)
}

/// Encodes a unit variant: its tag as a bare string.
pub fn encode_unit(wire: &str) -> (r: Value)
    ensures
        r@ == JValue::Str(wire@),
{
    Value::String(wire.to_string())
}

fn tag_object(wire: &str) -> (r: Vec<(String, Value)>)
    ensures
        model_entries(r@) == tag_entries(wire@),
        keys_sorted(model_entries(r@)),
{
    let mut entries: Vec<(String, Value)> = Vec::new();
    proof {
        assert(model_entries(entries@) =~= Seq::<(Seq<char>, JValue)>::empty());
    }
    object_insert(&mut entries, type_key_text(), Value::String(wire.to_string()));
    entries
}

/// Encodes a positional variant: an object with its tag under `"type"` and
/// its elements, in order, under `"data"`.
pub fn encode_tuple(wire: &str, data: Vec<Value>) -> (r: Value)
    ensures
        r@ == JValue::Object(obj_put(tag_entries(wire@), data_key(), JValue::Array(model_items(data@)))),
{
    let mut entries = tag_object(wire);
    object_insert(&mut entries, data_key_text(), Value::Array(data));
    Value::Object(entries)
}

/// Encodes a named variant: an object with its tag under `"type"` and one
/// entry per written field.
pub fn encode_struct(wire: &str, fields: &Vec<Field>, values: &Vec<Option<Value>>) -> (r: Value)
    requires
        fields.len() == values.len(),
    ensures
        r@ == JValue::Object(put_fields(fields@, opt_models(values@), tag_entries(wire@))),
{
    let mut entries = tag_object(wire);
    encode_fields(fields, values, &mut entries);
    Value::Object(entries)
}


/// How a field of a record is read.
pub enum Slot {
    /// The carrier's default value.
    Default,
    /// The optional carrier's absent value.
    Absent,
    /// Decode this value with the field's carrier (the inner one of an
    /// optional carrier).
    Present(Value),
}

/// The model of a [`Slot`].
pub enum SlotModel {
    Default,
    Absent,
    Present(JValue),
}

pub open spec fn slot_model(s: Slot) -> SlotModel {
    match s {
        Slot::Default => SlotModel::Default,
        Slot::Absent => SlotModel::Absent,
        Slot::Present(v) => SlotModel::Present(v@),
    }
}

/// How field `f` is read from entries `e`; `None` when a required key is
/// missing.
pub open spec fn field_slot(f: Field, e: Seq<(Seq<char>, JValue)>) -> Option<SlotModel> {
    if f.skip {
        Some(SlotModel::Default)
    } else {
        match lookup(e, field_wire(f)) {
            None => if f.is_option {
                Some(SlotModel::Absent)
            } else if f.skip_if_none {
                Some(SlotModel::Default)
            } else {
                None
            },
            Some(v) => if f.is_option && v is Null {
                Some(SlotModel::Absent)
            } else {
                Some(SlotModel::Present(v))
            },
        }
    }
}

/// Finds how field `f` is read from the entries of an object; a missing
/// required key is `MissingField` with its wire name.
pub fn resolve_field(f: &Field, entries: &Vec<(String, Value)>) -> (r: Result<Slot, Error>)
    ensures
        r matches Ok(s) ==> field_slot(*f, model_entries(entries@)) == Some(slot_model(s)),
        r is Err ==> field_slot(*f, model_entries(entries@)) is None,
        r matches Err(e) ==> e matches Error::MissingField(w) && w@ == field_wire(*f),
{
    if f.skip {
        return Ok(Slot::Default);
    }
    proof {
        lemma_model_entries(entries@);
    }
    match find_key(entries, f.wire_name()) {
        None => {
            proof {
                lemma_lookup_none(model_entries(entries@), field_wire(*f));
            }
            if f.is_option {
                Ok(Slot::Absent)
            } else if f.skip_if_none {
                Ok(Slot::Default)
            } else {
                Err(Error::MissingField(f.wire_name().to_string()))
            }
        },
        Some(i) => {
            proof {
                lemma_lookup_at(model_entries(entries@), field_wire(*f), i as int);
            }
            let v = &entries[i].1;
            if f.is_option && v.is_null() {
                Ok(Slot::Absent)
            } else {
                Ok(Slot::Present(v.clone()))
            }
        },
    }
}

/// The entries of an object; anything else is a type error.
pub fn object_entries(v: &Value) -> (r: Result<&Vec<(String, Value)>, Error>)
    ensures
        r matches Ok(e) ==> v@ == JValue::Object(model_entries(e@)),
        r is Err ==> !(v@ is Object),
        r matches Err(e) ==> e is TypeError,
{
    match v {
        Value::Object(e) => Ok(e),
        _ => Err(Error::TypeError("expected object".to_string())),
    }
}

/// Which variant an encoded tagged-union value holds.
pub enum VariantMatch {
    /// A unit variant, by position.
    Unit(usize),
    /// A positional variant, by position, with its elements.
    Tuple(usize, Vec<Value>),
    /// A named variant, by position: its fields are read from the object.
    Struct(usize),
}

pub enum MatchModel {
    Unit(int),
    Tuple(int, Seq<JValue>),
    Struct(int),
}

/// Why no variant matched: a type error, or the missing `"type"` key.
pub enum MatchFail {
    Type,
    MissingTag,
}

pub open spec fn match_model(m: VariantMatch) -> MatchModel {
    match m {
        VariantMatch::Unit(k) => MatchModel::Unit(k as int),
        VariantMatch::Tuple(k, items) => MatchModel::Tuple(k as int, model_items(items@)),
        VariantMatch::Struct(k) => MatchModel::Struct(k as int),
    }
}

/// The first variant from position `i` on whose tag is `t`, among the unit
/// variants or among the others.
pub open spec fn find_variant(vs: Seq<Variant>, t: Seq<char>, unit: bool, i: int) -> Option<int>
    decreases vs.len() - i,
{
    if i < 0 || i >= vs.len() {
        None
    } else if variant_wire(vs[i]) == t && (vs[i].kind is Unit) == unit {
        Some(i)
    } else {
        find_variant(vs, t, unit, i + 1)
    }
}

/// Which variant among `vs` the value `v` holds: a bare string names a unit
/// variant; an object names another variant under `"type"`, and holds a
/// positional variant's elements under `"data"`, as many as it declares.
pub open spec fn match_variant(v: JValue, vs: Seq<Variant>) -> Result<MatchModel, MatchFail> {
    match v {
        JValue::Str(s) => match find_variant(vs, s, true, 0) {
            Some(k) => Ok(MatchModel::Unit(k)),
            None => Err(MatchFail::Type),
        },
        JValue::Object(e) => match lookup(e, type_key()) {
            Some(JValue::Str(t)) => match find_variant(vs, t, false, 0) {
                Some(k) => match vs[k].kind {
                    VariantKind::Tuple(ts) => match lookup(e, data_key()) {
                        Some(JValue::Array(items)) => if items.len() == ts.len() {
                            Ok(MatchModel::Tuple(k, items))
                        } else {
                            Err(MatchFail::Type)
                        },
                        _ => Err(MatchFail::Type),
                    },
                    _ => Ok(MatchModel::Struct(k)),
                },
                None => Err(MatchFail::Type),
            },
            _ => Err(MatchFail::MissingTag),
        },
        _ => Err(MatchFail::Type),
    }
}

fn find_variant_exec(vs: &Vec<Variant>, t: &str, unit: bool) -> (r: Option<usize>)
    ensures
        r matches Some(k) ==> find_variant(vs@, t@, unit, 0) == Some(k as int) && k < vs.len(),
        r is None ==> find_variant(vs@, t@, unit, 0) is None,
{
    let mut i: usize = 0;
    while i < vs.len()
        invariant
            i <= vs.len(),
            find_variant(vs@, t@, unit, 0) == find_variant(vs@, t@, unit, i as int),
        decreases vs.len() - i,
    {
        let is_unit = match vs[i].kind {
            VariantKind::Unit => true,
            _ => false,
        };
        if crate::value::compare_keys(vs[i].wire_name(), t) == 0 && is_unit == unit {
            return Some(i);
        }
        i += 1;
    }
    None
}

/// Finds which variant among `vs` the value `v` holds. A type error names
/// what did not fit; a missing tag is `MissingField("type")`.
pub fn decode_variant(v: &Value, vs: &Vec<Variant>) -> (r: Result<VariantMatch, Error>)
    ensures
        r matches Ok(m) ==> match_variant(v@, vs@) == Ok::<MatchModel, MatchFail>(match_model(m)),
        r matches Err(e) ==> match match_variant(v@, vs@) {
            Err(MatchFail::Type) => e is TypeError,
            Err(MatchFail::MissingTag) => e matches Error::MissingField(w) && w@ == type_key(),
            Ok(_) => false,
        },
{
    match v {
        Value::String(s) => match find_variant_exec(vs, s.as_str(), true) {
            Some(k) => Ok(VariantMatch::Unit(k)),
            None => Err(Error::TypeError("unknown enum variant".to_string())),
        },
        Value::Object(e) => {
            proof {
                lemma_model_entries(e@);
            }
            let tk = type_key_text();
            let t = match find_key(e, tk.as_str()) {
                Some(i) => {
                    proof {
                        lemma_lookup_at(model_entries(e@), type_key(), i as int);
                    }
                    match &e[i].1 {
                        Value::String(t) => t,
                        _ => {
                            return Err(Error::MissingField(tk));
                        },
                    }
                },
                None => {
                    proof {
                        lemma_lookup_none(model_entries(e@), type_key());
                    }
                    return Err(Error::MissingField(tk));
                },
            };
            let k = match find_variant_exec(vs, t.as_str(), false) {
                Some(k) => k,
                None => {
                    return Err(Error::TypeError("unknown enum variant type".to_string()));
                },
            };
            match &vs[k].kind {
                VariantKind::Tuple(ts) => {
                    let dk = data_key_text();
                    match find_key(e, dk.as_str()) {
                        Some(i) => {
                            proof {
                                lemma_lookup_at(model_entries(e@), data_key(), i as int);
                            }
                            match &e[i].1 {
                                Value::Array(items) => {
                                    proof {
                                        lemma_model_items(items@);
                                    }
                                    if items.len() == ts.len() {
                                        Ok(VariantMatch::Tuple(k, clone_items(items)))
                                    } else {
                                        Err(Error::TypeError("wrong number of elements for enum variant data".to_string()))
                                    }
                                },
                                _ => Err(Error::TypeError("expected array for enum variant data".to_string())),
                            }
                        },
                        None => {
                            proof {
                                lemma_lookup_none(model_entries(e@), data_key());
                            }
                            Err(Error::TypeError("expected array for enum variant data".to_string()))
                        },
                    }
                },
                _ => Ok(VariantMatch::Struct(k)),
            }
        },
        _ => Err(Error::TypeError("expected string or object for enum".to_string())),
    }
}


/// The wire names of the fields that are written are pairwise distinct.
pub open spec fn distinct_wires(fs: Seq<Field>) -> bool {
    forall|i: int, j: int|
        0 <= i < j < fs.len() && !fs[i].skip && !fs[j].skip ==> field_wire(#[trigger] fs[i])
            != field_wire(#[trigger] fs[j])
}

/// The values fit their fields: only an optional field is absent, and an
/// optional field that is present does not encode to null.
pub open spec fn values_fit(fs: Seq<Field>, vals: Seq<Option<JValue>>) -> bool {
    &&& vals.len() == fs.len()
    &&& forall|i: int| 0 <= i < fs.len() && #[trigger] vals[i] is None ==> fs[i].is_option
    &&& forall|i: int|
        0 <= i < fs.len() && fs[i].is_option && #[trigger] vals[i] is Some ==> !(vals[i]->0 is Null)
}

/// How a field that was encoded with `val` reads back.
pub open spec fn expected_slot(f: Field, val: Option<JValue>) -> SlotModel {
    if f.skip {
        SlotModel::Default
    } else {
        match val {
            None => SlotModel::Absent,
            Some(v) => SlotModel::Present(v),
        }
    }
}

/// What encoding a field leaves under its wire name.
pub open spec fn written(f: Field, val: Option<JValue>) -> Option<JValue> {
    match val {
        None => if f.skip_if_none && f.is_option { None } else { Some(JValue::Null) },
        Some(v) => Some(v),
    }
}

pub proof fn lemma_put_fields_sorted(fs: Seq<Field>, vals: Seq<Option<JValue>>, acc: Seq<(Seq<char>, JValue)>)
    requires
        keys_sorted(acc),
    ensures
        keys_sorted(put_fields(fs, vals, acc)),
    decreases fs.len(),
{
    if fs.len() > 0 {
        let p = put_fields(fs.drop_last(), vals, acc);
        lemma_put_fields_sorted(fs.drop_last(), vals, acc);
        let f = fs.last();
        if !f.skip {
            lemma_obj_put(p, field_wire(f), JValue::Null);
            match vals[fs.len() - 1] {
                Some(v) => lemma_obj_put(p, field_wire(f), v),
                None => {},
            }
        }
    }
}

/// A key that no written field has is left as it was.
pub proof fn lemma_put_fields_other(fs: Seq<Field>, vals: Seq<Option<JValue>>, acc: Seq<(Seq<char>, JValue)>, k: Seq<char>)
    requires
        keys_sorted(acc),
        forall|i: int| 0 <= i < fs.len() && !fs[i].skip ==> field_wire(#[trigger] fs[i]) != k,
    ensures
        lookup(put_fields(fs, vals, acc), k) == lookup(acc, k),
    decreases fs.len(),
{
    if fs.len() > 0 {
        let p = put_fields(fs.drop_last(), vals, acc);
        assert forall|i: int| 0 <= i < fs.drop_last().len() && !fs.drop_last()[i].skip implies field_wire(#[trigger] fs.drop_last()[i]) != k by {
            assert(fs.drop_last()[i] == fs[i]);
        }
        lemma_put_fields_other(fs.drop_last(), vals, acc, k);
        lemma_put_fields_sorted(fs.drop_last(), vals, acc);
        let f = fs.last();
        assert(f == fs[fs.len() - 1]);
        if !f.skip {
            lemma_obj_put(p, field_wire(f), JValue::Null);
            match vals[fs.len() - 1] {
                Some(v) => lemma_obj_put(p, field_wire(f), v),
                None => {},
            }
        }
    }
}

/// Under a written field's wire name stands what that field wrote.
pub proof fn lemma_put_fields_at(fs: Seq<Field>, vals: Seq<Option<JValue>>, acc: Seq<(Seq<char>, JValue)>, i: int)
    requires
        keys_sorted(acc),
        distinct_wires(fs),
        vals.len() >= fs.len(),
        0 <= i < fs.len(),
        !fs[i].skip,
        lookup(acc, field_wire(fs[i])) is None,
    ensures
        lookup(put_fields(fs, vals, acc), field_wire(fs[i])) == written(fs[i], vals[i]),
    decreases fs.len(),
{
    let n = fs.len() - 1;
    let d = fs.drop_last();
    let p = put_fields(d, vals, acc);
    let k = field_wire(fs[i]);
    lemma_put_fields_sorted(d, vals, acc);
    let f = fs.last();
    assert(f == fs[n]);
    if i == n {
        assert forall|j: int| 0 <= j < d.len() && !d[j].skip implies field_wire(#[trigger] d[j]) != k by {
            assert(d[j] == fs[j]);
        }
        lemma_put_fields_other(d, vals, acc, k);
        lemma_obj_put(p, k, JValue::Null);
        match vals[n] {
            Some(v) => lemma_obj_put(p, k, v),
            None => {},
        }
    } else {
        assert(d[i] == fs[i]);
        assert forall|a: int, b: int| 0 <= a < b < d.len() && !d[a].skip && !d[b].skip implies field_wire(#[trigger] d[a]) != field_wire(#[trigger] d[b]) by {
            assert(d[a] == fs[a] && d[b] == fs[b]);
        }
        lemma_put_fields_at(d, vals, acc, i);
        if !f.skip {
            assert(field_wire(f) != k);
            lemma_obj_put(p, field_wire(f), JValue::Null);
            match vals[n] {
                Some(v) => lemma_obj_put(p, field_wire(f), v),
                None => {},
            }
        }
    }
}

/// Decoding an encoded record gives back each field: a record whose written
/// fields have distinct wire names, with values that fit its fields, reads
/// every field back as it was written, the skipped ones as defaults; renamed
/// fields are read under the name they were written under.
pub proof fn lemma_record_round_trip(fs: Seq<Field>, vals: Seq<Option<JValue>>)
    requires
        distinct_wires(fs),
        values_fit(fs, vals),
    ensures
        forall|i: int|
            0 <= i < fs.len() ==> field_slot(#[trigger] fs[i], put_fields(fs, vals, Seq::empty()))
                == Some(expected_slot(fs[i], vals[i])),
{
    lemma_fields_round_trip(fs, vals, Seq::empty());
}

proof fn lemma_fields_round_trip(fs: Seq<Field>, vals: Seq<Option<JValue>>, acc: Seq<(Seq<char>, JValue)>)
    requires
        distinct_wires(fs),
        values_fit(fs, vals),
        keys_sorted(acc),
        forall|i: int| 0 <= i < fs.len() && !fs[i].skip ==> lookup(acc, field_wire(#[trigger] fs[i])) is None,
    ensures
        forall|i: int|
            0 <= i < fs.len() ==> field_slot(#[trigger] fs[i], put_fields(fs, vals, acc))
                == Some(expected_slot(fs[i], vals[i])),
{
    assert forall|i: int| 0 <= i < fs.len() implies field_slot(#[trigger] fs[i], put_fields(fs, vals, acc))
        == Some(expected_slot(fs[i], vals[i])) by {
        if !fs[i].skip {
            lemma_put_fields_at(fs, vals, acc, i);
            if vals[i] is None {
                assert(fs[i].is_option);
            } else if fs[i].is_option {
                assert(!(vals[i]->0 is Null));
            }
        }
    }
}

/// A unit variant decodes from its bare tag, when tags are distinct.
pub proof fn lemma_unit_round_trip(vs: Seq<Variant>, k: int)
    requires
        0 <= k < vs.len(),
        vs[k].kind is Unit,
        forall|i: int, j: int| 0 <= i < j < vs.len() ==> variant_wire(#[trigger] vs[i]) != variant_wire(#[trigger] vs[j]),
    ensures
        match_variant(JValue::Str(variant_wire(vs[k])), vs) == Ok::<MatchModel, MatchFail>(MatchModel::Unit(k)),
{
    lemma_find_variant(vs, variant_wire(vs[k]), true, k, 0);
}

proof fn lemma_find_variant(vs: Seq<Variant>, t: Seq<char>, unit: bool, k: int, i: int)
    requires
        0 <= i <= k < vs.len(),
        variant_wire(vs[k]) == t,
        (vs[k].kind is Unit) == unit,
        forall|a: int, b: int| 0 <= a < b < vs.len() ==> variant_wire(#[trigger] vs[a]) != variant_wire(#[trigger] vs[b]),
    ensures
        find_variant(vs, t, unit, i) == Some(k),
    decreases k - i,
{
    if i < k {
        assert(variant_wire(vs[i]) != variant_wire(vs[k]));
        lemma_find_variant(vs, t, unit, k, i + 1);
    }
}

/// A positional variant decodes from its encoding with exactly its elements,
/// when tags are distinct; with any other number of elements it does not.
pub proof fn lemma_tuple_round_trip(vs: Seq<Variant>, k: int, items: Seq<JValue>)
    requires
        0 <= k < vs.len(),
        vs[k].kind is Tuple,
        forall|i: int, j: int| 0 <= i < j < vs.len() ==> variant_wire(#[trigger] vs[i]) != variant_wire(#[trigger] vs[j]),
    ensures
        ({
            let enc = JValue::Object(obj_put(tag_entries(variant_wire(vs[k])), data_key(), JValue::Array(items)));
            if items.len() == vs[k].kind->Tuple_0.len() {
                match_variant(enc, vs) == Ok::<MatchModel, MatchFail>(MatchModel::Tuple(k, items))
            } else {
                match_variant(enc, vs) == Err::<MatchModel, MatchFail>(MatchFail::Type)
            }
        }),
{
    let w = variant_wire(vs[k]);
    let t = tag_entries(w);
    assert(keys_sorted(Seq::<(Seq<char>, JValue)>::empty()));
    lemma_obj_put(Seq::empty(), type_key(), JValue::Str(w));
    lemma_obj_put(t, data_key(), JValue::Array(items));
    assert(type_key() != data_key()) by {
        assert(type_key()[0] != data_key()[0]);
    }
    lemma_find_variant(vs, w, false, k, 0);
}

/// A named variant decodes from its encoding, and reads every field back,
/// when tags are distinct, its written fields have distinct wire names other
/// than `"type"`, and the values fit its fields.
pub proof fn lemma_struct_round_trip(vs: Seq<Variant>, k: int, vals: Seq<Option<JValue>>)
    requires
        0 <= k < vs.len(),
        vs[k].kind is Struct,
        forall|i: int, j: int| 0 <= i < j < vs.len() ==> variant_wire(#[trigger] vs[i]) != variant_wire(#[trigger] vs[j]),
        distinct_wires(vs[k].kind->Struct_0@),
        forall|i: int| 0 <= i < vs[k].kind->Struct_0@.len() ==> field_wire(#[trigger] vs[k].kind->Struct_0@[i]) != type_key(),
        values_fit(vs[k].kind->Struct_0@, vals),
    ensures
        ({
            let fs = vs[k].kind->Struct_0@;
            let e = put_fields(fs, vals, tag_entries(variant_wire(vs[k])));
            &&& match_variant(JValue::Object(e), vs) == Ok::<MatchModel, MatchFail>(MatchModel::Struct(k))
            &&& forall|i: int| 0 <= i < fs.len() ==> field_slot(#[trigger] fs[i], e) == Some(expected_slot(fs[i], vals[i]))
        }),
{
    let fs = vs[k].kind->Struct_0@;
    let w = variant_wire(vs[k]);
    let t = tag_entries(w);
    assert(keys_sorted(Seq::<(Seq<char>, JValue)>::empty()));
    lemma_obj_put(Seq::empty(), type_key(), JValue::Str(w));
    assert forall|i: int| 0 <= i < fs.len() && !fs[i].skip implies lookup(t, field_wire(#[trigger] fs[i])) is None by {
        assert(lookup(Seq::<(Seq<char>, JValue)>::empty(), field_wire(fs[i])) is None);
    }
    lemma_fields_round_trip(fs, vals, t);
    lemma_put_fields_other(fs, vals, t, type_key());
    lemma_find_variant(vs, w, false, k, 0);
}

/// A required field whose key is missing does not read: decoding reports it
/// as `MissingField` with its wire name.
pub proof fn lemma_missing_required_field(f: Field, e: Seq<(Seq<char>, JValue)>)
    requires
        !f.skip,
        !f.skip_if_none,
        !f.is_option,
        lookup(e, field_wire(f)) is None,
    ensures
        field_slot(f, e) is None,
{
}

} // verus!
