//! The JSON value, its mathematical model, and objects kept as entries
//! sorted by key.
use vstd::prelude::*;
use crate::text::chars_of;

verus! {

broadcast use vstd::std_specs::vec::group_vec_axioms, vstd::seq::group_seq_axioms;

/// A finite decimal number: `(-1)^negative * magnitude * 10^exponent`.
#[derive(Debug, Clone, Copy, PartialEq, Eq)]
pub struct Number {
    pub negative: bool,
    pub magnitude: u64,
    pub exponent: i32,
}

/// A JSON value.
#[derive(Debug, PartialEq)]
pub enum Value {
    Null,
    Bool(bool),
    Number(Number),
    String(String),
    Array(Vec<Value>),
    /// Entries kept sorted by key, each key once (see `object_insert`), so
    /// that `==` ignores the order keys were given in and every lookup has a
    /// proved result; `HashMap` offers neither for `String` keys here.
    Object(Vec<(String, Value)>),
}

/// The mathematical model of a [`Value`].
pub enum JValue {
    Null,
    Bool(bool),
    Number(Number),
    Str(Seq<char>),
    Array(Seq<JValue>),
    Object(Seq<(Seq<char>, JValue)>),
}

pub open spec fn model(v: Value) -> JValue
    decreases v,
{
    match v {
        Value::Null => JValue::Null,
        Value::Bool(b) => JValue::Bool(b),
        Value::Number(n) => JValue::Number(n),
        Value::String(s) => JValue::Str(s@),
        Value::Array(a) => JValue::Array(model_items(a@)),
        Value::Object(o) => JValue::Object(model_entries(o@)),
    }
}

pub open spec fn model_items(s: Seq<Value>) -> Seq<JValue>
    decreases s,
{
    if s.len() == 0 {
        Seq::empty()
    } else {
        model_items(s.drop_last()).push(model(s.last()))
    }
}

pub open spec fn model_entries(s: Seq<(String, Value)>) -> Seq<(Seq<char>, JValue)>
    decreases s,
{
    if s.len() == 0 {
        Seq::empty()
    } else {
        model_entries(s.drop_last()).push((s.last().0@, model(s.last().1)))
    }
}

pub proof fn lemma_model_items(s: Seq<Value>)
    ensures
        model_items(s).len() == s.len(),
        forall|i: int| 0 <= i < s.len() ==> #[trigger] model_items(s)[i] == model(s[i]),
    decreases s.len(),
{
    if s.len() > 0 {
        lemma_model_items(s.drop_last());
    }
}

pub proof fn lemma_model_entries(s: Seq<(String, Value)>)
    ensures
        model_entries(s).len() == s.len(),
        forall|i: int|
            0 <= i < s.len() ==> #[trigger] model_entries(s)[i] == (s[i].0@, model(s[i].1)),
    decreases s.len(),
{
    if s.len() > 0 {
        lemma_model_entries(s.drop_last());
    }
}

/// Strict lexicographic order on keys, by code point, from position `i` on.
pub open spec fn key_lt_from(a: Seq<char>, b: Seq<char>, i: nat) -> bool
    decreases a.len() - i,
{
    if i >= a.len() {
        i < b.len()
    } else if i >= b.len() {
        false
    } else if a[i as int] != b[i as int] {
        a[i as int] < b[i as int]
    } else {
        key_lt_from(a, b, i + 1)
    }
}

/// Strict lexicographic order on keys, by code point.
pub open spec fn key_lt(a: Seq<char>, b: Seq<char>) -> bool {
    key_lt_from(a, b, 0)
}

pub proof fn lemma_key_lt_irrefl(a: Seq<char>, i: nat)
    ensures
        !key_lt_from(a, a, i),
    decreases a.len() - i,
{
    if i < a.len() {
        lemma_key_lt_irrefl(a, i + 1);
    }
}

pub proof fn lemma_key_lt_trans(a: Seq<char>, b: Seq<char>, c: Seq<char>, i: nat)
    requires
        key_lt_from(a, b, i),
        key_lt_from(b, c, i),
    ensures
        key_lt_from(a, c, i),
    decreases a.len() - i,
{
    if i < a.len() && i < b.len() && i < c.len() && a[i as int] == b[i as int] && b[i as int]
        == c[i as int] {
        lemma_key_lt_trans(a, b, c, i + 1);
    }
}

pub proof fn lemma_key_lt_total(a: Seq<char>, b: Seq<char>, i: nat)
    requires
        a != b,
        i <= a.len(),
        i <= b.len(),
        forall|j: int| 0 <= j < i ==> a[j] == b[j],
    ensures
        key_lt_from(a, b, i) || key_lt_from(b, a, i),
    decreases a.len() - i,
{
    if i == a.len() && i == b.len() {
        assert(a =~= b);
    } else if i < a.len() && i < b.len() && a[i as int] != b[i as int] {
        assert(a[i as int] < b[i as int] || b[i as int] < a[i as int]);
    } else if i < a.len() && i < b.len() && a[i as int] == b[i as int] {
        lemma_key_lt_total(a, b, i + 1);
    }
}

/// Three-way comparison of keys: negative, zero or positive as `a` sorts
/// before, equal to, or after `b`.
pub fn compare_keys(a: &str, b: &str) -> (r: i8)
    ensures
        r < 0 <==> key_lt(a@, b@),
        r == 0 <==> a@ == b@,
        r > 0 <==> key_lt(b@, a@),
{
    let x = chars_of(a);
    let y = chars_of(b);
    let mut i: usize = 0;
    while i < x.len() && i < y.len()
        invariant
            x@ == a@,
            y@ == b@,
            i <= x.len(),
            i <= y.len(),
            forall|j: int| 0 <= j < i ==> x@[j] == y@[j],
            key_lt_from(a@, b@, 0) == key_lt_from(a@, b@, i as nat),
            key_lt_from(b@, a@, 0) == key_lt_from(b@, a@, i as nat),
        decreases x.len() - i,
    {
        if x[i] != y[i] {
            proof {
                assert(a@ != b@ ==> true);
                if a@ == b@ {
                    assert(x@[i as int] == y@[i as int]);
                }
            }
            if x[i] < y[i] {
                return -1;
            } else {
                return 1;
            }
        }
        i += 1;
    }
    proof {
        lemma_key_lt_irrefl(a@, i as nat);
        if x.len() == y.len() {
            assert(a@ =~= b@);
        }
    }
    if x.len() < y.len() {
        -1
    } else if x.len() > y.len() {
        1
    } else {
        0
    }
}

/// Object entries whose keys are strictly increasing, hence unique.
pub open spec fn keys_sorted(e: Seq<(Seq<char>, JValue)>) -> bool {
    forall|i: int, j: int| 0 <= i < j < e.len() ==> key_lt(#[trigger] e[i].0, #[trigger] e[j].0)
}

/// `i` is the first position of key `k` among the entries.
pub open spec fn first_index(e: Seq<(Seq<char>, JValue)>, k: Seq<char>, i: int) -> bool {
    &&& 0 <= i < e.len()
    &&& e[i].0 == k
    &&& forall|j: int| 0 <= j < i ==> e[j].0 != k
}

/// The value stored under `k`, the first one where a key repeats.
pub open spec fn lookup(e: Seq<(Seq<char>, JValue)>, k: Seq<char>) -> Option<JValue> {
    if exists|i: int| first_index(e, k, i) {
        Some(e[choose|i: int| first_index(e, k, i)].1)
    } else {
        None
    }
}

pub proof fn lemma_lookup_at(e: Seq<(Seq<char>, JValue)>, k: Seq<char>, i: int)
    requires
        first_index(e, k, i),
    ensures
        lookup(e, k) == Some(e[i].1),
{
    let c = choose|c: int| first_index(e, k, c);
    assert(first_index(e, k, c));
    if c < i {
        assert(e[c].0 != k);
    }
    if i < c {
        assert(e[i].0 != k);
    }
}

pub proof fn lemma_lookup_none(e: Seq<(Seq<char>, JValue)>, k: Seq<char>)
    requires
        forall|j: int| 0 <= j < e.len() ==> e[j].0 != k,
    ensures
        lookup(e, k) is None,
{
}

/// In sorted entries a key stands at most once.
pub proof fn lemma_sorted_unique(e: Seq<(Seq<char>, JValue)>, i: int)
    requires
        keys_sorted(e),
        0 <= i < e.len(),
    ensures
        first_index(e, e[i].0, i),
        lookup(e, e[i].0) == Some(e[i].1),
{
    assert forall|j: int| 0 <= j < i implies e[j].0 != e[i].0 by {
        assert(key_lt(e[j].0, e[i].0));
        lemma_key_lt_irrefl(e[i].0, 0);
    }
    lemma_lookup_at(e, e[i].0, i);
}

impl JValue {
    /// Every number is canonical and finite, and every object's keys are
    /// sorted and unique.
    pub open spec fn wf(self) -> bool
        decreases self,
    {
        match self {
            JValue::Number(n) => n.wf(),
            JValue::Array(a) => forall|i: int| 0 <= i < a.len() ==> (#[trigger] a[i]).wf(),
            JValue::Object(e) => keys_sorted(e) && forall|i: int|
                0 <= i < e.len() ==> (#[trigger] e[i]).1.wf(),
            _ => true,
        }
    }
}

pub proof fn lemma_array_wf(a: Seq<JValue>, i: int)
    requires
        JValue::Array(a).wf(),
        0 <= i < a.len(),
    ensures
        a[i].wf(),
{
    let v = JValue::Array(a);
    assert(decreases_to!(v => v->Array_0));
    assert(decreases_to!(a => a[i]));
    assert(decreases_to!(v => a[i]));
}

pub proof fn lemma_object_wf(e: Seq<(Seq<char>, JValue)>, i: int)
    requires
        JValue::Object(e).wf(),
        0 <= i < e.len(),
    ensures
        e[i].1.wf(),
        keys_sorted(e),
{
    let v = JValue::Object(e);
    assert(decreases_to!(v => v->Object_0));
    assert(decreases_to!(e => e[i]));
    assert(decreases_to!(e[i] => e[i].1));
    assert(decreases_to!(v => e[i].1));
}

impl View for Value {
    type V = JValue;

    open spec fn view(&self) -> JValue {
        model(*self)
    }
}

} // verus!

verus! {

impl Clone for Value {
    /// A deep copy.
    fn clone(&self) -> (r: Self)
        ensures
            r@ == self@,
        decreases self,
    {
        match self {
            Value::Null => Value::Null,
            Value::Bool(b) => Value::Bool(*b),
            Value::Number(n) => Value::Number(*n),
            Value::String(s) => Value::String(s.clone()),
            Value::Array(a) => {
                let mut out: Vec<Value> = Vec::new();
                let mut i: usize = 0;
                proof {
                    assert forall|j: int| 0 <= j < a.len() implies decreases_to!(*self => a@[j]) by {
                        assert(decreases_to!(*self => self->Array_0));
                        assert(decreases_to!(*a => a@));
                        assert(decreases_to!(a@ => a@[j]));
                    }
                }
                while i < a.len()
                    invariant
                        forall|j: int| 0 <= j < a.len() ==> decreases_to!(*self => a@[j]),
                        i <= a.len(),
                        out.len() == i,
                        forall|j: int| 0 <= j < i ==> #[trigger] model(out@[j]) == model(a@[j]),
                    decreases a.len() - i,
                {
                    out.push(a[i].clone());
                    i += 1;
                }
                proof {
                    lemma_model_items(out@);
                    lemma_model_items(a@);
                    assert(model_items(out@) =~= model_items(a@));
                }
                Value::Array(out)
            },
            Value::Object(o) => {
                let mut out: Vec<(String, Value)> = Vec::new();
                let mut i: usize = 0;
                proof {
                    assert forall|j: int| 0 <= j < o.len() implies decreases_to!(*self => o@[j].1) by {
                        assert(decreases_to!(*self => self->Object_0));
                        assert(decreases_to!(*o => o@));
                        assert(decreases_to!(o@ => o@[j]));
                        assert(decreases_to!(o@[j] => o@[j].1));
                    }
                }
                while i < o.len()
                    invariant
                        forall|j: int| 0 <= j < o.len() ==> decreases_to!(*self => o@[j].1),
                        i <= o.len(),
                        out.len() == i,
                        forall|j: int|
                            0 <= j < i ==> #[trigger] out@[j].0@ == o@[j].0@ && model(out@[j].1)
                                == model(o@[j].1),
                    decreases o.len() - i,
                {
                    let v = o[i].1.clone();
                    out.push((o[i].0.clone(), v));
                    i += 1;
                }
                proof {
                    lemma_model_entries(out@);
                    lemma_model_entries(o@);
                    assert(model_entries(out@) =~= model_entries(o@));
                }
                Value::Object(out)
            },
        }
    }
}

impl Default for Value {
    fn default() -> (r: Value)
        ensures
            r@ == JValue::Null,
    {
        Value::Null
    }
}

/// The position of the first entry with key `k`, if any.
pub fn find_key(e: &Vec<(String, Value)>, k: &str) -> (r: Option<usize>)
    ensures
        r matches Some(i) ==> first_index(model_entries(e@), k@, i as int),
        r is None ==> forall|j: int| 0 <= j < e.len() ==> e@[j].0@ != k@,
{
    proof {
        lemma_model_entries(e@);
    }
    let mut i: usize = 0;
    while i < e.len()
        invariant
            i <= e.len(),
            forall|j: int| 0 <= j < i ==> e@[j].0@ != k@,
        decreases e.len() - i,
    {
        if compare_keys(e[i].0.as_str(), k) == 0 {
            proof {
                lemma_model_entries(e@);
                assert forall|j: int| 0 <= j < i implies model_entries(e@)[j].0 != k@ by {
                    assert(e@[j].0@ != k@);
                }
            }
            return Some(i);
        }
        i += 1;
    }
    None
}

/// Entries with sorted keys and well-formed values.
pub open spec fn entries_wf(e: Seq<(Seq<char>, JValue)>) -> bool {
    keys_sorted(e) && forall|i: int| 0 <= i < e.len() ==> (#[trigger] e[i]).1.wf()
}

/// In sorted entries, what `lookup` gives is the value at the key's one place.
pub proof fn lemma_sorted_lookup(e: Seq<(Seq<char>, JValue)>, k: Seq<char>)
    requires
        keys_sorted(e),
    ensures
        (exists|j: int| 0 <= j < e.len() && e[j].0 == k) ==> lookup(e, k) is Some,
        forall|j: int| 0 <= j < e.len() && e[j].0 == k ==> lookup(e, k) == Some(#[trigger] e[j].1),
        (forall|j: int| 0 <= j < e.len() ==> e[j].0 != k) ==> lookup(e, k) is None,
{
    assert forall|j: int| 0 <= j < e.len() && e[j].0 == k implies lookup(e, k) == Some(
        #[trigger] e[j].1,
    ) by {
        lemma_sorted_unique(e, j);
    }
    if exists|j: int| 0 <= j < e.len() && e[j].0 == k {
        let j = choose|j: int| 0 <= j < e.len() && e[j].0 == k;
        lemma_sorted_unique(e, j);
    }
}

/// How many leading entries have a key that sorts before `k`.
pub open spec fn ins_pos(e: Seq<(Seq<char>, JValue)>, k: Seq<char>) -> nat
    decreases e.len(),
{
    if e.len() == 0 || !key_lt(e[0].0, k) {
        0
    } else {
        1 + ins_pos(e.drop_first(), k)
    }
}

/// Sorted entries with `v` put under `k`: the entry with that key replaced,
/// or a new one at its place in the order.
pub open spec fn obj_put(e: Seq<(Seq<char>, JValue)>, k: Seq<char>, v: JValue) -> Seq<
    (Seq<char>, JValue),
> {
    let i = ins_pos(e, k) as int;
    if i < e.len() && e[i].0 == k {
        e.update(i, (k, v))
    } else {
        e.insert(i, (k, v))
    }
}

pub proof fn lemma_ins_pos(e: Seq<(Seq<char>, JValue)>, k: Seq<char>, i: int)
    requires
        0 <= i <= e.len(),
        forall|j: int| 0 <= j < i ==> key_lt(#[trigger] e[j].0, k),
        i < e.len() ==> !key_lt(e[i].0, k),
    ensures
        ins_pos(e, k) == i,
    decreases i,
{
    if i > 0 {
        let t = e.drop_first();
        assert forall|j: int| 0 <= j < i - 1 implies key_lt(#[trigger] t[j].0, k) by {
            assert(t[j] == e[j + 1]);
        }
        if i - 1 < t.len() {
            assert(t[i - 1] == e[i]);
        }
        lemma_ins_pos(t, k, i - 1);
    }
}

pub proof fn lemma_ins_pos_props(e: Seq<(Seq<char>, JValue)>, k: Seq<char>)
    ensures
        ins_pos(e, k) <= e.len(),
        forall|j: int| 0 <= j < ins_pos(e, k) ==> key_lt(#[trigger] e[j].0, k),
        ins_pos(e, k) < e.len() ==> !key_lt(e[ins_pos(e, k) as int].0, k),
    decreases e.len(),
{
    if e.len() > 0 && key_lt(e[0].0, k) {
        let t = e.drop_first();
        lemma_ins_pos_props(t, k);
        assert forall|j: int| 0 <= j < ins_pos(e, k) implies key_lt(#[trigger] e[j].0, k) by {
            if j > 0 {
                assert(e[j] == t[j - 1]);
            }
        }
        if ins_pos(e, k) < e.len() {
            assert(e[ins_pos(e, k) as int] == t[ins_pos(t, k) as int]);
        }
    }
}

/// Putting a value under a key in sorted entries keeps them sorted, and
/// changes what `lookup` gives for that key alone.
pub proof fn lemma_obj_put(e: Seq<(Seq<char>, JValue)>, k: Seq<char>, v: JValue)
    requires
        keys_sorted(e),
    ensures
        keys_sorted(obj_put(e, k, v)),
        forall|k2: Seq<char>|
            #[trigger] lookup(obj_put(e, k, v), k2) == if k2 == k {
                Some(v)
            } else {
                lookup(e, k2)
            },
        entries_wf(e) && v.wf() ==> entries_wf(obj_put(e, k, v)),
{
    lemma_ins_pos_props(e, k);
    let i = ins_pos(e, k) as int;
    let nm = obj_put(e, k, v);
    if i < e.len() && e[i].0 == k {
        assert(nm == e.update(i, (k, v)));
        assert forall|a: int, b: int| 0 <= a < b < nm.len() implies key_lt(
            #[trigger] nm[a].0,
            #[trigger] nm[b].0,
        ) by {
            assert(nm[a].0 == e[a].0);
            assert(nm[b].0 == e[b].0);
        }
        lemma_sorted_lookup(nm, k);
        assert(nm[i].1 == v);
        assert(lookup(nm, k) == Some(v));
        assert forall|k2: Seq<char>| #[trigger] lookup(nm, k2) == if k2 == k {
            Some(v)
        } else {
            lookup(e, k2)
        } by {
            lemma_sorted_lookup(e, k2);
            lemma_sorted_lookup(nm, k2);
            if k2 != k {
                if exists|j: int| 0 <= j < e.len() && e[j].0 == k2 {
                    let j = choose|j: int| 0 <= j < e.len() && e[j].0 == k2;
                    assert(nm[j] == e[j]);
                    assert(lookup(e, k2) == Some(e[j].1));
                    assert(lookup(nm, k2) == Some(nm[j].1));
                } else {
                    assert forall|j: int| 0 <= j < nm.len() implies nm[j].0 != k2 by {
                        if j != i {
                            assert(nm[j] == e[j]);
                        }
                    }
                }
            }
        }
        if entries_wf(e) && v.wf() {
            assert forall|j: int| 0 <= j < nm.len() implies (#[trigger] nm[j]).1.wf() by {
                if j != i {
                    assert(nm[j] == e[j]);
                }
            }
        }
    } else {
        assert(nm == e.insert(i, (k, v)));
        if i < e.len() {
            lemma_key_lt_total(e[i].0, k, 0);
            assert forall|j: int| i <= j < e.len() implies key_lt(k, #[trigger] e[j].0) by {
                if j > i {
                    assert(key_lt(e[i].0, e[j].0));
                    lemma_key_lt_trans(k, e[i].0, e[j].0, 0);
                }
            }
        }
        assert forall|a: int, b: int| 0 <= a < b < nm.len() implies key_lt(
            #[trigger] nm[a].0,
            #[trigger] nm[b].0,
        ) by {
            if a < i && b > i {
                assert(key_lt(e[a].0, k));
                assert(key_lt(k, e[b - 1].0));
                lemma_key_lt_trans(e[a].0, k, e[b - 1].0, 0);
            } else if a < i && b < i {
                assert(key_lt(e[a].0, e[b].0));
            } else if a > i {
                assert(key_lt(e[a - 1].0, e[b - 1].0));
            }
        }
        lemma_sorted_lookup(nm, k);
        assert(nm[i].0 == k);
        assert(nm[i].1 == v);
        assert(lookup(nm, k) == Some(v));
        assert forall|k2: Seq<char>| #[trigger] lookup(nm, k2) == if k2 == k {
            Some(v)
        } else {
            lookup(e, k2)
        } by {
            lemma_sorted_lookup(e, k2);
            lemma_sorted_lookup(nm, k2);
            if k2 != k {
                if exists|j: int| 0 <= j < e.len() && e[j].0 == k2 {
                    let j = choose|j: int| 0 <= j < e.len() && e[j].0 == k2;
                    assert(lookup(e, k2) == Some(e[j].1));
                    if j < i {
                        assert(nm[j] == e[j]);
                        assert(lookup(nm, k2) == Some(nm[j].1));
                    } else {
                        assert(nm[j + 1] == e[j]);
                        assert(lookup(nm, k2) == Some(nm[j + 1].1));
                    }
                } else {
                    assert forall|j: int| 0 <= j < nm.len() implies nm[j].0 != k2 by {
                        if j < i {
                            assert(nm[j] == e[j]);
                        } else if j > i {
                            assert(nm[j] == e[j - 1]);
                        }
                    }
                }
            }
        }
        if entries_wf(e) && v.wf() {
            assert forall|j: int| 0 <= j < nm.len() implies (#[trigger] nm[j]).1.wf() by {
                if j < i {
                    assert(nm[j] == e[j]);
                } else if j > i {
                    assert(nm[j] == e[j - 1]);
                }
            }
        }
    }
}

/// Putting a value under a key that sorted entries lack adds one entry.
pub proof fn lemma_put_new_len(e: Seq<(Seq<char>, JValue)>, k: Seq<char>, v: JValue)
    requires
        keys_sorted(e),
        lookup(e, k) is None,
    ensures
        obj_put(e, k, v).len() == e.len() + 1,
{
    lemma_ins_pos_props(e, k);
    let i = ins_pos(e, k) as int;
    if i < e.len() && e[i].0 == k {
        lemma_sorted_lookup(e, k);
    }
}

/// Puts `v` under key `k` in sorted object entries, replacing the value that
/// was there.
pub fn object_insert(e: &mut Vec<(String, Value)>, k: String, v: Value)
    requires
        keys_sorted(model_entries(old(e)@)),
    ensures
        model_entries(final(e)@) == obj_put(model_entries(old(e)@), k@, v@),
        keys_sorted(model_entries(final(e)@)),
        forall|k2: Seq<char>|
            #[trigger] lookup(model_entries(final(e)@), k2) == if k2 == k@ {
                Some(v@)
            } else {
                lookup(model_entries(old(e)@), k2)
            },
        entries_wf(model_entries(old(e)@)) && v@.wf() ==> entries_wf(model_entries(final(e)@)),
{
    let ghost me = model_entries(e@);
    proof {
        lemma_model_entries(e@);
    }
    let mut i: usize = 0;
    while i < e.len() && compare_keys(e[i].0.as_str(), k.as_str()) < 0
        invariant
            i <= e.len(),
            me == model_entries(e@),
            me.len() == e.len(),
            forall|j: int| 0 <= j < i ==> key_lt(#[trigger] me[j].0, k@),
            forall|j: int| 0 <= j < e.len() ==> #[trigger] me[j] == (e@[j].0@, model(e@[j].1)),
        decreases e.len() - i,
    {
        i += 1;
    }
    let ghost vm = v@;
    let ghost kk = k@;
    proof {
        if i < e.len() {
            assert(!key_lt(me[i as int].0, kk));
        }
        lemma_ins_pos(me, kk, i as int);
        lemma_obj_put(me, kk, vm);
    }
    if i < e.len() && compare_keys(e[i].0.as_str(), k.as_str()) == 0 {
        e.set(i, (k, v));
        proof {
            lemma_model_entries(e@);
            assert(model_entries(e@) =~= obj_put(me, kk, vm));
        }
    } else {
        e.insert(i, (k, v));
        proof {
            lemma_model_entries(e@);
            assert(model_entries(e@) =~= obj_put(me, kk, vm));
        }
    }
}

/// Keys in increasing order from each entry to the next are in increasing
/// order throughout.
pub proof fn lemma_adjacent_sorted(e: Seq<(Seq<char>, JValue)>)
    requires
        forall|i: int| 0 < i < e.len() ==> key_lt(#[trigger] e[i - 1].0, e[i].0),
    ensures
        keys_sorted(e),
{
    assert forall|i: int, j: int| 0 <= i < j < e.len() implies key_lt(#[trigger] e[i].0, #[trigger] e[j].0) by {
        lemma_adjacent_chain(e, i, j);
    }
}

proof fn lemma_adjacent_chain(e: Seq<(Seq<char>, JValue)>, i: int, j: int)
    requires
        forall|k: int| 0 < k < e.len() ==> key_lt(#[trigger] e[k - 1].0, e[k].0),
        0 <= i < j < e.len(),
    ensures
        key_lt(e[i].0, e[j].0),
    decreases j - i,
{
    assert(key_lt(e[j - 1].0, e[j].0));
    if j - i > 1 {
        lemma_adjacent_chain(e, i, j - 1);
        lemma_key_lt_trans(e[i].0, e[j - 1].0, e[j].0, 0);
    }
}

/// Whether `v` is well formed: canonical numbers, objects with sorted keys.
pub fn check_wf(v: &Value) -> (r: bool)
    ensures
        r == v@.wf(),
    decreases v,
{
    match v {
        Value::Number(n) => n.is_canonical(),
        Value::Array(a) => {
            proof {
                lemma_model_items(a@);
                assert forall|j: int| 0 <= j < a.len() implies decreases_to!(*v => a@[j]) by {
                    assert(decreases_to!(*v => v->Array_0));
                    assert(decreases_to!(*a => a@));
                    assert(decreases_to!(a@ => a@[j]));
                }
            }
            let mut i: usize = 0;
            while i < a.len()
                invariant
                    i <= a.len(),
                    model_items(a@).len() == a.len(),
                    v@ == JValue::Array(model_items(a@)),
                    forall|j: int| 0 <= j < a.len() ==> #[trigger] model_items(a@)[j] == model(a@[j]),
                    forall|j: int| 0 <= j < a.len() ==> decreases_to!(*v => a@[j]),
                    forall|j: int| 0 <= j < i ==> (#[trigger] model(a@[j])).wf(),
                decreases a.len() - i,
            {
                if !check_wf(&a[i]) {
                    proof {
                        if v@.wf() {
                            lemma_array_wf(model_items(a@), i as int);
                        }
                    }
                    return false;
                }
                i += 1;
            }
            true
        },
        Value::Object(e) => {
            proof {
                lemma_model_entries(e@);
                assert forall|j: int| 0 <= j < e.len() implies decreases_to!(*v => e@[j].1) by {
                    assert(decreases_to!(*v => v->Object_0));
                    assert(decreases_to!(*e => e@));
                    assert(decreases_to!(e@ => e@[j]));
                    assert(decreases_to!(e@[j] => e@[j].1));
                }
            }
            let ghost m = model_entries(e@);
            let mut i: usize = 0;
            while i < e.len()
                invariant
                    i <= e.len(),
                    m == model_entries(e@),
                    m.len() == e.len(),
                    v@ == JValue::Object(m),
                    forall|j: int| 0 <= j < e.len() ==> #[trigger] m[j] == (e@[j].0@, model(e@[j].1)),
                    forall|j: int| 0 <= j < e.len() ==> decreases_to!(*v => e@[j].1),
                    forall|j: int| 0 <= j < i ==> (#[trigger] m[j]).1.wf(),
                    forall|j: int| 0 < j < i ==> key_lt(#[trigger] m[j - 1].0, m[j].0),
                decreases e.len() - i,
            {
                if !check_wf(&e[i].1) {
                    proof {
                        if v@.wf() {
                            lemma_object_wf(m, i as int);
                        }
                    }
                    return false;
                }
                if i > 0 && compare_keys(e[i - 1].0.as_str(), e[i].0.as_str()) >= 0 {
                    proof {
                        if v@.wf() {
                            lemma_object_wf(m, i as int);
                            assert(key_lt(m[i - 1].0, m[i as int].0));
                        }
                    }
                    return false;
                }
                i += 1;
            }
            proof {
                lemma_adjacent_sorted(m);
            }
            true
        },
        _ => true,
    }
}

/// Copies of the elements of an array.
pub fn clone_items(a: &Vec<Value>) -> (r: Vec<Value>)
    ensures
        model_items(r@) == model_items(a@),
{
    let mut out: Vec<Value> = Vec::new();
    let mut i: usize = 0;
    while i < a.len()
        invariant
            i <= a.len(),
            out.len() == i,
            forall|j: int| 0 <= j < i ==> #[trigger] model(out@[j]) == model(a@[j]),
        decreases a.len() - i,
    {
        out.push(a[i].clone());
        i += 1;
    }
    proof {
        lemma_model_items(out@);
        lemma_model_items(a@);
        assert(model_items(out@) =~= model_items(a@));
    }
    out
}

impl Value {
    pub fn is_null(&self) -> (r: bool)
        ensures
            r == (self@ is Null),
    {
        matches!(self, Value::Null)
    }

    pub fn is_bool(&self) -> (r: bool)
        ensures
            r == (self@ is Bool),
    {
        matches!(self, Value::Bool(_))
    }

    pub fn is_number(&self) -> (r: bool)
        ensures
            r == (self@ is Number),
    {
        matches!(self, Value::Number(_))
    }

    pub fn is_string(&self) -> (r: bool)
        ensures
            r == (self@ is Str),
    {
        matches!(self, Value::String(_))
    }

    pub fn is_array(&self) -> (r: bool)
        ensures
            r == (self@ is Array),
    {
        matches!(self, Value::Array(_))
    }

    pub fn is_object(&self) -> (r: bool)
        ensures
            r == (self@ is Object),
    {
        matches!(self, Value::Object(_))
    }

    /// The boolean, when the value is one.
    pub fn as_bool(&self) -> (r: Option<bool>)
        ensures
            r == (match self@ {
                JValue::Bool(b) => Some(b),
                _ => None,
            }),
    {
        match self {
            Value::Bool(b) => Some(*b),
            _ => None,
        }
    }

    /// The number, when the value is one.
    pub fn as_number(&self) -> (r: Option<Number>)
        ensures
            r == (match self@ {
                JValue::Number(n) => Some(n),
                _ => None,
            }),
    {
        match self {
            Value::Number(n) => Some(*n),
            _ => None,
        }
    }

    /// The text, when the value is a string.
    pub fn as_str(&self) -> (r: Option<&str>)
        ensures
            r is Some <==> self@ is Str,
            r matches Some(s) ==> self@ == JValue::Str(s@),
    {
        match self {
            Value::String(s) => Some(s.as_str()),
            _ => None,
        }
    }

    /// The elements, when the value is an array.
    pub fn as_array(&self) -> (r: Option<&Vec<Value>>)
        ensures
            r is Some <==> self@ is Array,
            r matches Some(a) ==> self@ == JValue::Array(model_items(a@)),
    {
        match self {
            Value::Array(a) => Some(a),
            _ => None,
        }
    }

    /// The entries, when the value is an object.
    pub fn as_object(&self) -> (r: Option<&Vec<(String, Value)>>)
        ensures
            r is Some <==> self@ is Object,
            r matches Some(e) ==> self@ == JValue::Object(model_entries(e@)),
    {
        match self {
            Value::Object(e) => Some(e),
            _ => None,
        }
    }

    /// The elements, for changing, when the value is an array; the value
    /// then holds whatever the elements become.
    pub fn as_array_mut(&mut self) -> (r: Option<&mut Vec<Value>>)
        ensures
            r is Some <==> old(self)@ is Array,
            r matches Some(a) ==> old(self)@ == JValue::Array(model_items(a@)) && final(self)@ == JValue::Array(model_items(final(a)@)),
            r is None ==> final(self)@ == old(self)@,
    {
        match self {
            Value::Array(a) => Some(a),
            _ => None,
        }
    }

    /// The entries, for changing, when the value is an object; the value then
    /// holds whatever the entries become (`object_insert` keeps them sorted).
    pub fn as_object_mut(&mut self) -> (r: Option<&mut Vec<(String, Value)>>)
        ensures
            r is Some <==> old(self)@ is Object,
            r matches Some(e) ==> old(self)@ == JValue::Object(model_entries(e@)) && final(self)@ == JValue::Object(model_entries(final(e)@)),
            r is None ==> final(self)@ == old(self)@,
    {
        match self {
            Value::Object(e) => Some(e),
            _ => None,
        }
    }

    /// The value under key `k`, when the value is an object holding it.
    pub fn get(&self, k: &str) -> (r: Option<&Value>)
        ensures
            r == None::<&Value> <==> !(self@ matches JValue::Object(e) && lookup(e, k@) is Some),
            r matches Some(v) ==> (self@ matches JValue::Object(e) && lookup(e, k@) == Some(
                v@,
            )),
    {
        match self {
            Value::Object(e) => {
                proof {
                    lemma_model_entries(e@);
                }
                match find_key(e, k) {
                    Some(i) => {
                        proof {
                            lemma_lookup_at(model_entries(e@), k@, i as int);
                        }
                        Some(&e[i].1)
                    },
                    None => {
                        proof {
                            lemma_lookup_none(model_entries(e@), k@);
                        }
                        None
                    },
                }
            },
            _ => None,
        }
    }

    /// The element at position `i`, when the value is an array that long.
    pub fn get_index(&self, i: usize) -> (r: Option<&Value>)
        ensures
            r == None::<&Value> <==> !(self@ matches JValue::Array(a) && i < a.len()),
            r matches Some(v) ==> (self@ matches JValue::Array(a) && i < a.len() && a[i as int]
                == v@),
    {
        match self {
            Value::Array(a) => {
                proof {
                    lemma_model_items(a@);
                }
                if i < a.len() {
                    Some(&a[i])
                } else {
                    None
                }
            },
            _ => None,
        }
    }
}

} // verus!
