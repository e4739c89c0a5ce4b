//! The typed encode/decode protocol: `Serialize` and `Deserialize` with
//! their bodies for the primitive and standard carriers, and the text entry
//! points `to_string`, `to_string_pretty` and `from_str`.
use vstd::prelude::*;
use crate::error::Error;
use crate::value::{Value, JValue, Number, model, model_items, lemma_model_items};
use crate::number::MAX_EXACT;
use crate::value::{model_entries, object_insert, lookup};
use crate::emit::{compact, pretty, emit_compact, emit_pretty};
use crate::grammar::parse_text;
use crate::parse::{parse, err_agrees};

verus! {

broadcast use vstd::std_specs::vec::group_vec_axioms, vstd::seq::group_seq_axioms;

/// A carrier that encodes to a JSON value.
pub trait Serialize {
    /// `v` may be the encoding of `self`; an implementation that states
    /// nothing leaves every value possible.
    open spec fn encodes(&self, v: JValue) -> bool {
        true
    }

    /// Encoding `self` is sure to succeed; an implementation that states
    /// nothing promises no success.
    open spec fn encodable(&self) -> bool {
        false
    }

    fn serialize(&self) -> (r: Result<Value, Error>)
        ensures
            r matches Ok(v) ==> self.encodes(v@) && v@.wf(),
            self.encodable() ==> r is Ok,
    ;
}

/// A carrier that decodes from a JSON value.
pub trait Deserialize: Sized {
    /// Decoding `v` may give `x`; an implementation that states nothing
    /// leaves every outcome possible.
    open spec fn decodes(v: JValue, x: Self) -> bool {
        true
    }

    /// Decoding `v` is sure to succeed; an implementation that states
    /// nothing promises no success.
    open spec fn decodable(v: JValue) -> bool {
        false
    }

    /// `e` may be the error that decoding reports; an implementation that
    /// states nothing allows any.
    open spec fn decode_error(e: Error) -> bool {
        true
    }

    fn deserialize(value: &Value) -> (r: Result<Self, Error>)
        requires
            value@.wf(),
        ensures
            r matches Ok(x) ==> Self::decodes(value@, x),
            Self::decodable(value@) ==> r is Ok,
            r matches Err(e) ==> Self::decode_error(e),
    ;
}

/// The integer that `v` holds, when it is a number without fractional part
/// in `[lo, hi]`.
pub open spec fn int_in(v: JValue, lo: int, hi: int) -> Option<int> {
    match v {
        JValue::Number(n) => if n.is_integer() && lo <= n.int_value() <= hi {
            Some(n.int_value())
        } else {
            None
        },
        _ => None,
    }
}

/// The number that encodes integer `x`.
pub open spec fn int_json(x: int) -> JValue {
    JValue::Number(Number::of_int(x))
}

/// Decodes an integer in `[lo, hi]`; any other value is a type error.
pub fn decode_int(v: &Value, lo: i128, hi: i128) -> (r: Result<i128, Error>)
    requires
        v@.wf(),
        -0x1_0000_0000_0000_0000 < lo <= hi < 0x1_0000_0000_0000_0000,
    ensures
        r matches Ok(x) ==> int_in(v@, lo as int, hi as int) == Some(x as int),
        r is Err ==> int_in(v@, lo as int, hi as int) is None,
        r matches Err(e) ==> e is TypeError,
{
    match v {
        Value::Number(n) => {
            if !(n.magnitude == 0 || n.exponent >= 0) {
                return Err(Error::TypeError("expected integer, found a fractional number".to_string()));
            }
            match n.to_i128() {
                Some(x) => if lo <= x && x <= hi {
                    Ok(x)
                } else {
                    Err(Error::TypeError("integer out of range for the carrier".to_string()))
                },
                None => Err(Error::TypeError("integer out of range for the carrier".to_string())),
            }
        },
        _ => Err(Error::TypeError("expected number".to_string())),
    }
}

impl Serialize for bool {
    open spec fn encodes(&self, v: JValue) -> bool {
        v == JValue::Bool(*self)
    }

    open spec fn encodable(&self) -> bool {
        true
    }

    fn serialize(&self) -> (r: Result<Value, Error>) {
        Ok(Value::Bool(*self))
    }
}

impl Deserialize for bool {
    open spec fn decodes(v: JValue, x: bool) -> bool {
        v == JValue::Bool(x)
    }

    open spec fn decodable(v: JValue) -> bool {
        v is Bool
    }

    open spec fn decode_error(e: Error) -> bool {
        e is TypeError
    }

    fn deserialize(value: &Value) -> (r: Result<bool, Error>) {
        match value {
            Value::Bool(b) => Ok(*b),
            _ => Err(Error::TypeError("expected boolean".to_string())),
        }
    }
}


impl Serialize for i8 {
    open spec fn encodes(&self, v: JValue) -> bool {
        v == int_json(*self as int)
    }

    open spec fn encodable(&self) -> bool {
        true
    }

    fn serialize(&self) -> (r: Result<Value, Error>) {
        Ok(Value::Number(Number::from_i64(*self as i64)))
    }
}

impl Deserialize for i8 {
    open spec fn decodes(v: JValue, x: i8) -> bool {
        int_in(v, -128, 127) == Some(x as int)
    }

    open spec fn decodable(v: JValue) -> bool {
        int_in(v, -128, 127) is Some
    }

    open spec fn decode_error(e: Error) -> bool {
        e is TypeError
    }

    fn deserialize(value: &Value) -> (r: Result<i8, Error>) {
        match decode_int(value, -128, 127) {
            Ok(x) => Ok(x as i8),
            Err(e) => Err(e),
        }
    }
}

impl Serialize for i16 {
    open spec fn encodes(&self, v: JValue) -> bool {
        v == int_json(*self as int)
    }

    open spec fn encodable(&self) -> bool {
        true
    }

    fn serialize(&self) -> (r: Result<Value, Error>) {
        Ok(Value::Number(Number::from_i64(*self as i64)))
    }
}

impl Deserialize for i16 {
    open spec fn decodes(v: JValue, x: i16) -> bool {
        int_in(v, -32768, 32767) == Some(x as int)
    }

    open spec fn decodable(v: JValue) -> bool {
        int_in(v, -32768, 32767) is Some
    }

    open spec fn decode_error(e: Error) -> bool {
        e is TypeError
    }

    fn deserialize(value: &Value) -> (r: Result<i16, Error>) {
        match decode_int(value, -32768, 32767) {
            Ok(x) => Ok(x as i16),
            Err(e) => Err(e),
        }
    }
}

impl Serialize for i32 {
    open spec fn encodes(&self, v: JValue) -> bool {
        v == int_json(*self as int)
    }

    open spec fn encodable(&self) -> bool {
        true
    }

    fn serialize(&self) -> (r: Result<Value, Error>) {
        Ok(Value::Number(Number::from_i64(*self as i64)))
    }
}

impl Deserialize for i32 {
    open spec fn decodes(v: JValue, x: i32) -> bool {
        int_in(v, -2147483648, 2147483647) == Some(x as int)
    }

    open spec fn decodable(v: JValue) -> bool {
        int_in(v, -2147483648, 2147483647) is Some
    }

    open spec fn decode_error(e: Error) -> bool {
        e is TypeError
    }

    fn deserialize(value: &Value) -> (r: Result<i32, Error>) {
        match decode_int(value, -2147483648, 2147483647) {
            Ok(x) => Ok(x as i32),
            Err(e) => Err(e),
        }
    }
}

impl Serialize for i64 {
    open spec fn encodes(&self, v: JValue) -> bool {
        v == int_json(*self as int) && -(MAX_EXACT as int) <= *self as int <= MAX_EXACT as int
    }

    open spec fn encodable(&self) -> bool {
        -(MAX_EXACT as int) <= *self as int <= MAX_EXACT as int
    }

    fn serialize(&self) -> (r: Result<Value, Error>) {
        if !(-(MAX_EXACT as i128) <= *self as i128 && *self as i128 <= MAX_EXACT as i128) {
            return Err(Error::custom("integer too large for JSON"));
        }
        Ok(Value::Number(Number::from_i64(*self as i64)))
    }
}

impl Deserialize for i64 {
    open spec fn decodes(v: JValue, x: i64) -> bool {
        int_in(v, -(MAX_EXACT as int), MAX_EXACT as int) == Some(x as int)
    }

    open spec fn decodable(v: JValue) -> bool {
        int_in(v, -(MAX_EXACT as int), MAX_EXACT as int) is Some
    }

    open spec fn decode_error(e: Error) -> bool {
        e is TypeError
    }

    fn deserialize(value: &Value) -> (r: Result<i64, Error>) {
        match decode_int(value, -(MAX_EXACT as i128), MAX_EXACT as i128) {
            Ok(x) => Ok(x as i64),
            Err(e) => Err(e),
        }
    }
}

impl Serialize for u8 {
    open spec fn encodes(&self, v: JValue) -> bool {
        v == int_json(*self as int)
    }

    open spec fn encodable(&self) -> bool {
        true
    }

    fn serialize(&self) -> (r: Result<Value, Error>) {
        Ok(Value::Number(Number::from_u64(*self as u64)))
    }
}

impl Deserialize for u8 {
    open spec fn decodes(v: JValue, x: u8) -> bool {
        int_in(v, 0, 255) == Some(x as int)
    }

    open spec fn decodable(v: JValue) -> bool {
        int_in(v, 0, 255) is Some
    }

    open spec fn decode_error(e: Error) -> bool {
        e is TypeError
    }

    fn deserialize(value: &Value) -> (r: Result<u8, Error>) {
        match decode_int(value, 0, 255) {
            Ok(x) => Ok(x as u8),
            Err(e) => Err(e),
        }
    }
}

impl Serialize for u16 {
    open spec fn encodes(&self, v: JValue) -> bool {
        v == int_json(*self as int)
    }

    open spec fn encodable(&self) -> bool {
        true
    }

    fn serialize(&self) -> (r: Result<Value, Error>) {
        Ok(Value::Number(Number::from_u64(*self as u64)))
    }
}

impl Deserialize for u16 {
    open spec fn decodes(v: JValue, x: u16) -> bool {
        int_in(v, 0, 65535) == Some(x as int)
    }

    open spec fn decodable(v: JValue) -> bool {
        int_in(v, 0, 65535) is Some
    }

    open spec fn decode_error(e: Error) -> bool {
        e is TypeError
    }

    fn deserialize(value: &Value) -> (r: Result<u16, Error>) {
        match decode_int(value, 0, 65535) {
            Ok(x) => Ok(x as u16),
            Err(e) => Err(e),
        }
    }
}

impl Serialize for u32 {
    open spec fn encodes(&self, v: JValue) -> bool {
        v == int_json(*self as int)
    }

    open spec fn encodable(&self) -> bool {
        true
    }

    fn serialize(&self) -> (r: Result<Value, Error>) {
        Ok(Value::Number(Number::from_u64(*self as u64)))
    }
}

impl Deserialize for u32 {
    open spec fn decodes(v: JValue, x: u32) -> bool {
        int_in(v, 0, 4294967295) == Some(x as int)
    }

    open spec fn decodable(v: JValue) -> bool {
        int_in(v, 0, 4294967295) is Some
    }

    open spec fn decode_error(e: Error) -> bool {
        e is TypeError
    }

    fn deserialize(value: &Value) -> (r: Result<u32, Error>) {
        match decode_int(value, 0, 4294967295) {
            Ok(x) => Ok(x as u32),
            Err(e) => Err(e),
        }
    }
}

impl Serialize for u64 {
    open spec fn encodes(&self, v: JValue) -> bool {
        v == int_json(*self as int) && 0 <= *self as int <= MAX_EXACT as int
    }

    open spec fn encodable(&self) -> bool {
        0 <= *self as int <= MAX_EXACT as int
    }

    fn serialize(&self) -> (r: Result<Value, Error>) {
        if !(0 <= *self as i128 && *self as i128 <= MAX_EXACT as i128) {
            return Err(Error::custom("integer too large for JSON"));
        }
        Ok(Value::Number(Number::from_u64(*self as u64)))
    }
}

impl Deserialize for u64 {
    open spec fn decodes(v: JValue, x: u64) -> bool {
        int_in(v, 0, MAX_EXACT as int) == Some(x as int)
    }

    open spec fn decodable(v: JValue) -> bool {
        int_in(v, 0, MAX_EXACT as int) is Some
    }

    open spec fn decode_error(e: Error) -> bool {
        e is TypeError
    }

    fn deserialize(value: &Value) -> (r: Result<u64, Error>) {
        match decode_int(value, 0, MAX_EXACT as i128) {
            Ok(x) => Ok(x as u64),
            Err(e) => Err(e),
        }
    }
}

impl Serialize for Number {
    open spec fn encodes(&self, v: JValue) -> bool {
        v == JValue::Number(*self)
    }

    open spec fn encodable(&self) -> bool {
        self.wf()
    }

    fn serialize(&self) -> (r: Result<Value, Error>) {
        if self.is_canonical() {
            Ok(Value::Number(*self))
        } else {
            Err(Error::custom("number is not canonical or not finite"))
        }
    }
}

impl Deserialize for Number {
    open spec fn decodes(v: JValue, x: Number) -> bool {
        v == JValue::Number(x)
    }

    open spec fn decodable(v: JValue) -> bool {
        v is Number
    }

    open spec fn decode_error(e: Error) -> bool {
        e is TypeError
    }

    fn deserialize(value: &Value) -> (r: Result<Number, Error>) {
        match value {
            Value::Number(n) => Ok(*n),
            _ => Err(Error::TypeError("expected number".to_string())),
        }
    }
}

impl Serialize for String {
    open spec fn encodes(&self, v: JValue) -> bool {
        v == JValue::Str(self@)
    }

    open spec fn encodable(&self) -> bool {
        true
    }

    fn serialize(&self) -> (r: Result<Value, Error>) {
        Ok(Value::String(self.clone()))
    }
}

impl Deserialize for String {
    open spec fn decodes(v: JValue, x: String) -> bool {
        v == JValue::Str(x@)
    }

    open spec fn decodable(v: JValue) -> bool {
        v is Str
    }

    open spec fn decode_error(e: Error) -> bool {
        e is TypeError
    }

    fn deserialize(value: &Value) -> (r: Result<String, Error>) {
        match value {
            Value::String(s) => Ok(s.clone()),
            _ => Err(Error::TypeError("expected string".to_string())),
        }
    }
}

impl<T: Serialize> Serialize for Option<T> {
    open spec fn encodes(&self, v: JValue) -> bool {
        match self {
            None => v == JValue::Null,
            Some(x) => x.encodes(v),
        }
    }

    open spec fn encodable(&self) -> bool {
        match self {
            None => true,
            Some(x) => x.encodable(),
        }
    }

    fn serialize(&self) -> (r: Result<Value, Error>) {
        match self {
            None => Ok(Value::Null),
            Some(x) => x.serialize(),
        }
    }
}

impl<T: Deserialize> Deserialize for Option<T> {
    open spec fn decodes(v: JValue, x: Option<T>) -> bool {
        if v is Null {
            x is None
        } else {
            x matches Some(y) && T::decodes(v, y)
        }
    }

    open spec fn decodable(v: JValue) -> bool {
        v is Null || T::decodable(v)
    }

    open spec fn decode_error(e: Error) -> bool {
        T::decode_error(e)
    }

    fn deserialize(value: &Value) -> (r: Result<Option<T>, Error>) {
        match value {
            Value::Null => Ok(None),
            _ => match T::deserialize(value) {
                Ok(x) => Ok(Some(x)),
                Err(e) => Err(e),
            },
        }
    }
}

impl<T: Serialize> Serialize for Vec<T> {
    open spec fn encodes(&self, v: JValue) -> bool {
        match v {
            JValue::Array(a) => a.len() == self.len() && forall|i: int|
                0 <= i < a.len() ==> self@[i].encodes(#[trigger] a[i]),
            _ => false,
        }
    }

    open spec fn encodable(&self) -> bool {
        forall|i: int| 0 <= i < self.len() ==> (#[trigger] self@[i]).encodable()
    }

    fn serialize(&self) -> (r: Result<Value, Error>) {
        let mut out: Vec<Value> = Vec::new();
        let mut i: usize = 0;
        while i < self.len()
            invariant
                i <= self.len(),
                out.len() == i,
                forall|j: int| 0 <= j < i ==> self@[j].encodes(#[trigger] model(out@[j])),
                forall|j: int| 0 <= j < i ==> (#[trigger] model(out@[j])).wf(),
            decreases self.len() - i,
        {
            match self[i].serialize() {
                Ok(v) => out.push(v),
                Err(e) => {
                    proof {
                        assert(!self@[i as int].encodable());
                    }
                    return Err(e);
                },
            }
            i += 1;
        }
        proof {
            lemma_model_items(out@);
        }
        Ok(Value::Array(out))
    }
}

/// Every element decodes.
pub open spec fn all_decodable<T: Deserialize>(a: Seq<JValue>) -> bool {
    forall|i: int| 0 <= i < a.len() ==> T::decodable(#[trigger] a[i])
}

/// Each element decodes to the item at its position.
pub open spec fn all_decode<T: Deserialize>(a: Seq<JValue>, x: Seq<T>) -> bool {
    a.len() == x.len() && forall|i: int| 0 <= i < a.len() ==> T::decodes(#[trigger] a[i], x[i])
}

impl<T: Deserialize> Deserialize for Vec<T> {
    open spec fn decodes(v: JValue, x: Vec<T>) -> bool {
        match v {
            JValue::Array(a) => all_decode::<T>(a, x@),
            _ => false,
        }
    }

    open spec fn decodable(v: JValue) -> bool {
        match v {
            JValue::Array(a) => all_decodable::<T>(a),
            _ => false,
        }
    }

    open spec fn decode_error(e: Error) -> bool {
        e is TypeError || T::decode_error(e)
    }

    fn deserialize(value: &Value) -> (r: Result<Vec<T>, Error>) {
        match value {
            Value::Array(a) => {
                proof {
                    lemma_model_items(a@);
                }
                let mut out: Vec<T> = Vec::new();
                let mut i: usize = 0;
                while i < a.len()
                    invariant
                        i <= a.len(),
                        out.len() == i,
                        value@ == JValue::Array(model_items(a@)),
                        value@.wf(),
                        model_items(a@).len() == a.len(),
                        forall|j: int| 0 <= j < a.len() ==> #[trigger] model_items(a@)[j] == model(a@[j]),
                        forall|j: int| 0 <= j < i ==> T::decodes(model(a@[j]), #[trigger] out@[j]),
                    decreases a.len() - i,
                {
                    proof {
                        let items = model_items(a@);
                        assert(JValue::Array(items).wf());
                        crate::value::lemma_array_wf(items, i as int);
                    }
                    match T::deserialize(&a[i]) {
                        Ok(x) => out.push(x),
                        Err(e) => {
                            proof {
                                let items = model_items(a@);
                                assert(!T::decodable(items[i as int]));
                                assert(!(forall|j: int| 0 <= j < items.len() ==> T::decodable(#[trigger] items[j])));
                                assert(value@ == JValue::Array(items));
                                assert(!all_decodable::<T>(items));
                            }
                            return Err(e);
                        },
                    }
                    i += 1;
                }
                Ok(out)
            },
            _ => Err(Error::TypeError("expected array".to_string())),
        }
    }
}

impl Serialize for Value {
    open spec fn encodes(&self, v: JValue) -> bool {
        v == self@
    }

    open spec fn encodable(&self) -> bool {
        self@.wf()
    }

    fn serialize(&self) -> (r: Result<Value, Error>) {
        if crate::value::check_wf(self) {
            Ok(self.clone())
        } else {
            Err(Error::custom("value holds a non-canonical number or unsorted object keys"))
        }
    }
}

impl Deserialize for Value {
    open spec fn decodes(v: JValue, x: Value) -> bool {
        x@ == v
    }

    open spec fn decodable(v: JValue) -> bool {
        true
    }

    open spec fn decode_error(e: Error) -> bool {
        false
    }

    fn deserialize(value: &Value) -> (r: Result<Value, Error>) {
        Ok(value.clone())
    }
}


/// Relies on `HashMap::insert`: a key whose text the map lacks is added with
/// its value, and nothing else changes.
#[verifier::external_body]
fn map_insert<V>(m: &mut std::collections::HashMap<String, V>, k: String, v: V)
    requires
        forall|k2: String| #[trigger] old(m)@.contains_key(k2) ==> k2@ != k@,
    ensures
        final(m)@ == old(m)@.insert(k, v),
{
    m.insert(k, v);
}

/// A map with one key per entry, whose text is the entry's key, and whose
/// value decodes from the entry's value.
pub open spec fn map_decoded_from<V: Deserialize>(m: Map<String, V>, e: Seq<(Seq<char>, JValue)>) -> bool {
    &&& m.dom().len() == e.len()
    &&& forall|k: String| #[trigger] m.contains_key(k) ==> (lookup(e, k@) matches Some(w) && V::decodes(w, m[k]))
    &&& forall|i: int| 0 <= i < e.len() ==> has_key_text(m, (#[trigger] e[i]).0)
}

/// Some key of `m` has the text `t`.
pub open spec fn has_key_text<V>(m: Map<String, V>, t: Seq<char>) -> bool {
    exists|k: String| #[trigger] m.contains_key(k) && k@ == t
}

/// `m` holds, for each of the first `i` entries of `e`, one key with the
/// entry's key text and a value decoded from the entry's value.
pub open spec fn decoded_prefix<V: Deserialize>(m: Map<String, V>, e: Seq<(Seq<char>, JValue)>, i: int) -> bool {
    &&& m.dom().finite()
    &&& m.dom().len() == i
    &&& forall|k: String| #[trigger] m.contains_key(k) ==> exists|j: int| 0 <= j < i && k@ == e[j].0 && V::decodes(e[j].1, m[k])
    &&& forall|j: int| 0 <= j < i ==> has_key_text(m, (#[trigger] e[j]).0)
}

proof fn lemma_decoded_step<V: Deserialize>(m: Map<String, V>, e: Seq<(Seq<char>, JValue)>, i: int, k: String, x: V)
    requires
        decoded_prefix(m, e, i),
        crate::value::keys_sorted(e),
        0 <= i < e.len(),
        k@ == e[i].0,
        V::decodes(e[i].1, x),
    ensures
        forall|k2: String| #[trigger] m.contains_key(k2) ==> k2@ != k@,
        decoded_prefix(m.insert(k, x), e, i + 1),
{
    assert forall|k2: String| #[trigger] m.contains_key(k2) implies k2@ != k@ by {
        let j = choose|j: int| 0 <= j < i && k2@ == e[j].0 && V::decodes(e[j].1, m[k2]);
        assert(crate::value::key_lt(e[j].0, e[i].0));
        crate::value::lemma_key_lt_irrefl(e[j].0, 0);
    }
    let n = m.insert(k, x);
    assert(!m.contains_key(k));
    assert(n.dom() =~= m.dom().insert(k));
    assert forall|k2: String| #[trigger] n.contains_key(k2) implies exists|j: int| 0 <= j < i + 1 && k2@ == e[j].0 && V::decodes(e[j].1, n[k2]) by {
        if k2 == k {
            assert(k2@ == e[i].0 && V::decodes(e[i].1, n[k2]));
        } else {
            assert(m.contains_key(k2));
            let j = choose|j: int| 0 <= j < i && k2@ == e[j].0 && V::decodes(e[j].1, m[k2]);
            assert(n[k2] == m[k2]);
        }
    }
    assert forall|j: int| 0 <= j < i + 1 implies has_key_text(n, (#[trigger] e[j]).0) by {
        if j == i {
            assert(n.contains_key(k));
        } else {
            assert(has_key_text(m, e[j].0));
            let k2 = choose|k2: String| #[trigger] m.contains_key(k2) && k2@ == e[j].0;
            assert(n.contains_key(k2));
        }
    }
}

proof fn lemma_decoded_all<V: Deserialize>(m: Map<String, V>, e: Seq<(Seq<char>, JValue)>)
    requires
        decoded_prefix(m, e, e.len() as int),
        crate::value::keys_sorted(e),
    ensures
        map_decoded_from(m, e),
{
    assert forall|k: String| #[trigger] m.contains_key(k) implies (lookup(e, k@) matches Some(w) && V::decodes(w, m[k])) by {
        let j = choose|j: int| 0 <= j < e.len() && k@ == e[j].0 && V::decodes(e[j].1, m[k]);
        crate::value::lemma_sorted_lookup(e, k@);
        assert(lookup(e, k@) == Some(e[j].1));
    }
    assert(m.dom().len() == e.len());
}

impl<V: Deserialize> Deserialize for std::collections::HashMap<String, V> {
    open spec fn decodes(v: JValue, x: std::collections::HashMap<String, V>) -> bool {
        match v {
            JValue::Object(e) => map_decoded_from(x@, e),
            _ => false,
        }
    }

    open spec fn decodable(v: JValue) -> bool {
        match v {
            JValue::Object(e) => forall|i: int| 0 <= i < e.len() ==> V::decodable(#[trigger] e[i].1),
            _ => false,
        }
    }

    open spec fn decode_error(e: Error) -> bool {
        e is TypeError || V::decode_error(e)
    }

    fn deserialize(value: &Value) -> (r: Result<std::collections::HashMap<String, V>, Error>) {
        match value {
            Value::Object(e) => {
                proof {
                    crate::value::lemma_model_entries(e@);
                }
                let ghost me = model_entries(e@);
                let mut out: std::collections::HashMap<String, V> = std::collections::HashMap::new();
                proof {
                    assert(out@.dom() =~= Set::<String>::empty());
                    if me.len() > 0 {
                        crate::value::lemma_object_wf(me, 0);
                    }
                }
                let mut i: usize = 0;
                while i < e.len()
                    invariant
                        i <= e.len(),
                        me == model_entries(e@),
                        value@ == JValue::Object(me),
                        value@.wf(),
                        crate::value::keys_sorted(me),
                        me.len() == e.len(),
                        forall|j: int| 0 <= j < e.len() ==> #[trigger] me[j] == (e@[j].0@, model(e@[j].1)),
                        decoded_prefix(out@, me, i as int),
                    decreases e.len() - i,
                {
                    proof {
                        crate::value::lemma_object_wf(me, i as int);
                    }
                    match V::deserialize(&e[i].1) {
                        Ok(x) => {
                            let k = e[i].0.clone();
                            proof {
                                lemma_decoded_step(out@, me, i as int, k, x);
                            }
                            map_insert(&mut out, k, x);
                        },
                        Err(err) => {
                            proof {
                                assert(!V::decodable(me[i as int].1));
                            }
                            return Err(err);
                        },
                    }
                    i += 1;
                }
                proof {
                    lemma_decoded_all(out@, me);
                }
                Ok(out)
            },
            _ => Err(Error::TypeError("expected object".to_string())),
        }
    }
}

/// Relies on `HashMap::iter`: each entry of the map once, in an order that
/// the map's hasher decides; keys are distinct, so their texts are too.
#[verifier::external_body]
fn map_entries<'a, V>(m: &'a std::collections::HashMap<String, V>) -> (r: Vec<(&'a String, &'a V)>)
    ensures
        r@.len() == m@.dom().len(),
        forall|i: int| 0 <= i < r@.len() ==> m@.contains_key(*(#[trigger] r@[i]).0) && m@[*r@[i].0] == *r@[i].1,
        forall|i: int, j: int| 0 <= i < j < r@.len() ==> (*r@[i].0)@ != (*r@[j].0)@,
        forall|k: String| #[trigger] m@.contains_key(k) ==> exists|i: int| 0 <= i < r@.len() && *r@[i].0 == k,
{
    m.iter().collect()
}

/// Object entries that hold, under each key's text, an encoding of the map's
/// value for that key, and nothing else.
pub open spec fn map_encoded_by<V: Serialize>(m: Map<String, V>, e: Seq<(Seq<char>, JValue)>) -> bool {
    &&& e.len() == m.dom().len()
    &&& forall|k: String| #[trigger] m.contains_key(k) ==> (lookup(e, k@) matches Some(w) && m[k].encodes(w))
}

pub open spec fn map_all_encodable<V: Serialize>(m: Map<String, V>) -> bool {
    forall|k: String| #[trigger] m.contains_key(k) ==> m[k].encodable()
}

impl<V: Serialize> Serialize for std::collections::HashMap<String, V> {
    /// An object with one entry per key, under the key's text.
    open spec fn encodes(&self, v: JValue) -> bool {
        match v {
            JValue::Object(e) => map_encoded_by(self@, e),
            _ => false,
        }
    }

    open spec fn encodable(&self) -> bool {
        map_all_encodable(self@)
    }

    fn serialize(&self) -> (r: Result<Value, Error>) {
        let entries = map_entries(self);
        proof {
            assert forall|a: int| 0 <= a < entries@.len() implies self@.contains_key(*(#[trigger] entries@[a]).0) && self@[*entries@[a].0] == *entries@[a].1 by {}
        }
        let mut out: Vec<(String, Value)> = Vec::new();
        proof {
            assert(model_entries(out@) =~= Seq::<(Seq<char>, JValue)>::empty());
        }
        let mut i: usize = 0;
        while i < entries.len()
            invariant
                i <= entries.len(),
                entries@.len() == self@.dom().len(),
                forall|a: int| 0 <= a < entries@.len() ==> self@.contains_key(*(#[trigger] entries@[a]).0) && self@[*entries@[a].0] == *entries@[a].1,
                forall|a: int, b: int| 0 <= a < b < entries@.len() ==> (*entries@[a].0)@ != (*entries@[b].0)@,
                crate::value::entries_wf(model_entries(out@)),
                model_entries(out@).len() == i,
                forall|a: int| 0 <= a < i ==> (lookup(model_entries(out@), (*(#[trigger] entries@[a]).0)@) matches Some(w) && (*entries@[a].1).encodes(w)),
                forall|k2: Seq<char>| #[trigger] lookup(model_entries(out@), k2) is Some ==> exists|a: int| 0 <= a < i && (*entries@[a].0)@ == k2,
            decreases entries.len() - i,
        {
            let (k, v) = entries[i];
            let x = match v.serialize() {
                Ok(x) => x,
                Err(err) => {
                    proof {
                        assert(self@.contains_key(*entries@[i as int].0));
                    }
                    return Err(err);
                },
            };
            let ghost before = model_entries(out@);
            let ghost kv = (*k)@;
            proof {
                if lookup(before, kv) is Some {
                    let a = choose|a: int| 0 <= a < i && (*entries@[a].0)@ == kv;
                    assert(false);
                }
                crate::value::lemma_put_new_len(before, kv, x@);
            }
            object_insert(&mut out, k.clone(), x);
            proof {
                assert forall|a: int| 0 <= a < i + 1 implies (lookup(model_entries(out@), (*(#[trigger] entries@[a]).0)@) matches Some(w) && (*entries@[a].1).encodes(w)) by {
                    if a < i {
                        assert((*entries@[a].0)@ != kv);
                    }
                }
                assert forall|k2: Seq<char>| #[trigger] lookup(model_entries(out@), k2) is Some implies exists|a: int| 0 <= a < i + 1 && (*entries@[a].0)@ == k2 by {
                    if k2 != kv {
                        assert(lookup(before, k2) is Some);
                    } else {
                        assert((*entries@[i as int].0)@ == k2);
                    }
                }
            }
            i += 1;
        }
        proof {
            assert forall|k: String| #[trigger] self@.contains_key(k) implies (lookup(model_entries(out@), k@) matches Some(w) && self@[k].encodes(w)) by {
                let a = choose|a: int| 0 <= a < entries@.len() && *entries@[a].0 == k;
            }
        }
        Ok(Value::Object(out))
    }
}

/// Encodes `value` and writes it in compact form.
pub fn to_string<T: Serialize>(value: &T) -> (r: Result<String, Error>)
    ensures
        r matches Ok(s) ==> exists|v: JValue| value.encodes(v) && v.wf() && s@ == compact(v),
        value.encodable() ==> r is Ok,
{
    let v = value.serialize()?;
    Ok(emit_compact(&v))
}

/// Encodes `value` and writes it indented.
pub fn to_string_pretty<T: Serialize>(value: &T) -> (r: Result<String, Error>)
    ensures
        r matches Ok(s) ==> exists|v: JValue| value.encodes(v) && v.wf() && s@ == pretty(v, Seq::empty()),
        value.encodable() ==> r is Ok,
{
    let v = value.serialize()?;
    Ok(emit_pretty(&v))
}

/// Parses `json` and decodes the value it holds.
pub fn from_str<T: Deserialize>(json: &str) -> (r: Result<T, Error>)
    ensures
        r matches Ok(x) ==> parse_text(json@) matches Ok(v) && T::decodes(v, x),
        r matches Err(e) ==> match parse_text(json@) {
            Ok(v) => !T::decodable(v) && T::decode_error(e),
            Err(f) => err_agrees(e, f),
        },
{
    let v = parse(json)?;
    T::deserialize(&v)
}


/// A number with a fractional part, or outside `[lo, hi]`, decodes into no
/// integer carrier.
pub proof fn lemma_integer_decoding(n: Number, lo: int, hi: int)
    requires
        n.wf(),
    ensures
        !n.is_integer() ==> int_in(JValue::Number(n), lo, hi) is None,
        n.is_integer() && !(lo <= n.int_value() <= hi) ==> int_in(JValue::Number(n), lo, hi) is None,
{
}

/// A 64-bit integer whose magnitude is above `2^53 - 1` has no encoding and
/// no decoding.
pub proof fn lemma_wide_integers(x: u64, y: i64, v: JValue)
    ensures
        x > MAX_EXACT ==> !x.encodes(v) && !<u64 as Deserialize>::decodes(v, x),
        (y > MAX_EXACT || y < -(MAX_EXACT as int)) ==> !y.encodes(v) && !<i64 as Deserialize>::decodes(v, y),
{
}

/// Every integer in a carrier's range decodes from its own encoding.
pub proof fn lemma_int_round_trip(x: int, lo: int, hi: int)
    requires
        lo <= x <= hi,
        -0x1_0000_0000_0000_0000 < lo,
        hi < 0x1_0000_0000_0000_0000,
    ensures
        int_in(int_json(x), lo, hi) == Some(x),
        int_json(x)->Number_0.wf() || x == 0,
{
    let a: int = if x < 0 { -x } else { x };
    crate::number::lemma_strip_zeros(a as nat, 0);
    let (m, e) = crate::number::strip_zeros(a as nat, 0);
    assert(crate::number::pow10(0) == 1);
    assert(m * crate::number::pow10(e) == a);
    if a != 0 {
        if e >= 20 {
            reveal_with_fuel(crate::number::pow10, 21);
            crate::number::lemma_pow10_mono(20, e);
            assert(m * crate::number::pow10(e) >= crate::number::pow10(e)) by (nonlinear_arith)
                requires
                    m >= 1,
            {}
        }
        assert(e < 20);
        crate::number::lemma_pow10_pos(e);
        assert(m <= a) by (nonlinear_arith)
            requires
                m * crate::number::pow10(e) == a,
                crate::number::pow10(e) >= 1,
        {}
    }
    let n = Number::of_int(x);
    assert(n.magnitude as int == m);
    assert(n.exponent as int == e);
    assert(n.is_integer());
    assert(n.int_value() == x);
    if a != 0 {
        assert(m < 0x1_0000_0000_0000_0000);
        crate::number::lemma_ndigits_u64(m);
    }
}


/// A boolean and a string decode from their own encodings.
pub proof fn lemma_scalar_round_trips(b: bool, t: String, v: JValue, w: JValue)
    ensures
        b.encodes(v) ==> <bool as Deserialize>::decodable(v) && <bool as Deserialize>::decodes(v, b),
        t.encodes(w) ==> <String as Deserialize>::decodable(w) && <String as Deserialize>::decodes(w, t),
{
}

/// An optional carrier decodes from its own encoding when its inner carrier
/// does and never encodes to null.
pub proof fn lemma_option_round_trip<T: Serialize + Deserialize>(x: Option<T>, v: JValue)
    requires
        forall|y: T, w: JValue| #[trigger] y.encodes(w) ==> !(w is Null) && T::decodes(w, y),
    ensures
        x.encodes(v) ==> <Option<T> as Deserialize>::decodes(v, x),
{
    match x {
        Some(y) => {
            if y.encodes(v) {
                assert(!(v is Null) && T::decodes(v, y));
            }
        },
        None => {},
    }
}

/// A sequence decodes from its own encoding when its element carrier does.
pub proof fn lemma_vec_round_trip<T: Serialize + Deserialize>(x: Vec<T>, v: JValue)
    requires
        forall|y: T, w: JValue| #[trigger] y.encodes(w) ==> T::decodes(w, y),
    ensures
        x.encodes(v) ==> <Vec<T> as Deserialize>::decodes(v, x),
{
    if x.encodes(v) {
        let a = v->Array_0;
        assert forall|i: int| 0 <= i < a.len() implies T::decodes(#[trigger] a[i], x@[i]) by {
            assert(x@[i].encodes(a[i]));
        }
    }
}

} // verus!
