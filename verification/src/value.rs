//! The tree value type that the differ and the patcher operate on.
//!
//! A `Value` is a JSON-like tagged union: null, boolean, integer number,
//! string, ordered sequence, or key-ordered map.  Its mathematical model is
//! `JVal`, whose containers are `Seq`s, so that equality of models is
//! extensional and independent of allocation details.
use vstd::prelude::*;

verus! {

/// Mathematical model of a tree value: the same shape as `Value`, with
/// sequences in place of vectors and unbounded integers in place of `i64`.
#[verifier::ext_equal]
pub enum JVal {
    Null,
    Bool(bool),
    Int(int),
    Str(Seq<char>),
    Arr(Seq<JVal>),
    Obj(Seq<(Seq<char>, JVal)>),
}

/// A JSON-like tree value: the input and output type of the differ and the
/// patcher.  Objects keep their entries in insertion order.
#[derive(Debug, PartialEq)]
pub enum Value {
    Null,
    Bool(bool),
    Number(i64),
    Text(String),
    Array(Vec<Value>),
    Object(Vec<(String, Value)>),
}

impl Value {
    /// The mathematical model of this value.
    pub open spec fn model(self) -> JVal
        decreases self,
    {
        match self {
            Value::Null => JVal::Null,
            Value::Bool(b) => JVal::Bool(b),
            Value::Number(n) => JVal::Int(n as int),
            Value::Text(s) => JVal::Str(s@),
            Value::Array(a) => JVal::Arr(
                Seq::new(
                    a@.len(),
                    |i: int|
                        if 0 <= i < a@.len() {
                            a@[i].model()
                        } else {
                            JVal::Null
                        },
                ),
            ),
            Value::Object(o) => JVal::Obj(
                Seq::new(
                    o@.len(),
                    |i: int|
                        if 0 <= i < o@.len() {
                            (o@[i].0@, o@[i].1.model())
                        } else {
                            (Seq::empty(), JVal::Null)
                        },
                ),
            ),
        }
    }
}

impl View for Value {
    type V = JVal;

    open spec fn view(&self) -> JVal {
        self.model()
    }
}

/// A leaf is any value that is not an array and not an object.
pub open spec fn is_leaf(j: JVal) -> bool {
    match j {
        JVal::Arr(_) => false,
        JVal::Obj(_) => false,
        _ => true,
    }
}

impl Value {
    /// True if this value is a leaf (not an array, not an object).
    pub fn is_leaf(&self) -> (r: bool)
        ensures
            r == is_leaf(self@),
    {
        match self {
            Value::Array(_) => false,
            Value::Object(_) => false,
            _ => true,
        }
    }

    /// A structurally independent copy with the same model.
    #[verifier::loop_isolation(false)]
    pub fn deep_clone(&self) -> (r: Value)
        ensures
            r@ == self@,
        decreases *self,
    {
        match self {
            Value::Null => Value::Null,
            Value::Bool(b) => Value::Bool(*b),
            Value::Number(n) => Value::Number(*n),
            Value::Text(s) => Value::Text(clone_string(s)),
            Value::Array(a) => {
                let mut out: Vec<Value> = Vec::new();
                let mut i: usize = 0;
                while i < a.len()
                    invariant
                        i <= a.len(),
                        out@.len() == i as int,
                        forall|k: int| 0 <= k < i ==> out@[k]@ == #[trigger] a@[k]@,
                    decreases a.len() - i,
                {
                    out.push(a[i].deep_clone());
                    i = i + 1;
                }
                let r = Value::Array(out);
                proof {
                    let s1 = r@->Arr_0;
                    let s2 = self@->Arr_0;
                    assert(s1.len() == s2.len());
                    assert forall|k: int| 0 <= k < s1.len() implies s1[k] == s2[k] by {
                        assert(out@[k]@ == a@[k]@);
                    }
                    assert(s1 =~= s2);
                    assert(r@ =~= self@);
                }
                r
            },
            Value::Object(o) => {
                let mut out: Vec<(String, Value)> = Vec::new();
                let mut i: usize = 0;
                while i < o.len()
                    invariant
                        i <= o.len(),
                        out@.len() == i as int,
                        forall|k: int| 0 <= k < i ==> #[trigger] out@[k].0@ == o@[k].0@ && out@[k].1@
                            == o@[k].1@,
                    decreases o.len() - i,
                {
                    let pair = &o[i];
                    out.push((clone_string(&pair.0), pair.1.deep_clone()));
                    i = i + 1;
                }
                let r = Value::Object(out);
                proof {
                    let s1 = r@->Obj_0;
                    let s2 = self@->Obj_0;
                    assert(s1.len() == s2.len());
                    assert(forall|k: int| 0 <= k < s1.len() ==> s1[k].0 == s2[k].0 && s1[k].1 == s2[k].1);
                    assert(s1 =~= s2);
                    assert(r@ =~= self@);
                }
                r
            },
        }
    }
}

/// A copy of a string with the same characters.
pub fn clone_string(s: &String) -> (r: String)
    ensures
        r@ == s@,
{
    s.clone()
}

/// Deep equality of two values: true exactly when their models are equal.
#[verifier::loop_isolation(false)]
pub fn value_eq(a: &Value, b: &Value) -> (r: bool)
    ensures
        r == (a@ == b@),
    decreases *a,
{
    match a {
        Value::Null => match b {
            Value::Null => true,
            _ => false,
        },
        Value::Bool(x) => match b {
            Value::Bool(y) => x == y,
            _ => false,
        },
        Value::Number(x) => match b {
            Value::Number(y) => x == y,
            _ => false,
        },
        Value::Text(x) => match b {
            Value::Text(y) => crate::text::str_eq(x.as_str(), y.as_str()),
            _ => false,
        },
        Value::Array(x) => match b {
            Value::Array(y) => {
                if x.len() != y.len() {
                    proof {
                        assert(a@->Arr_0.len() == x@.len());
                        assert(b@->Arr_0.len() == y@.len());
                    }
                    return false;
                }
                let mut i: usize = 0;
                while i < x.len()
                    invariant
                        i <= x.len(),
                        forall|k: int| 0 <= k < i ==> #[trigger] x@[k]@ == y@[k]@,
                    decreases x.len() - i,
                {
                    if !value_eq(&x[i], &y[i]) {
                        proof {
                            assert(a@->Arr_0[i as int] != b@->Arr_0[i as int]);
                        }
                        return false;
                    }
                    i = i + 1;
                }
                proof {
                    assert forall|k: int| 0 <= k < a@->Arr_0.len() implies a@->Arr_0[k] == b@->Arr_0[k] by {
                        assert(x@[k]@ == y@[k]@);
                    }
                    assert(a@->Arr_0 =~= b@->Arr_0);
                }
                true
            },
            _ => false,
        },
        Value::Object(x) => match b {
            Value::Object(y) => {
                if x.len() != y.len() {
                    proof {
                        assert(a@->Obj_0.len() == x@.len());
                        assert(b@->Obj_0.len() == y@.len());
                    }
                    return false;
                }
                let mut i: usize = 0;
                while i < x.len()
                    invariant
                        i <= x.len(),
                        forall|k: int| 0 <= k < i ==> #[trigger] x@[k].0@ == y@[k].0@,
                        forall|k: int| 0 <= k < i ==> #[trigger] x@[k].1@ == y@[k].1@,
                    decreases x.len() - i,
                {
                    let px = &x[i];
                    let py = &y[i];
                    if !crate::text::str_eq(px.0.as_str(), py.0.as_str()) {
                        proof {
                            assert(a@->Obj_0[i as int].0 != b@->Obj_0[i as int].0);
                        }
                        return false;
                    }
                    if !value_eq(&px.1, &py.1) {
                        proof {
                            assert(a@->Obj_0[i as int].1 != b@->Obj_0[i as int].1);
                        }
                        return false;
                    }
                    proof {
                        assert(x@[i as int].0@ == y@[i as int].0@);
                        assert(x@[i as int].1@ == y@[i as int].1@);
                    }
                    i = i + 1;
                }
                proof {
                    assert forall|k: int| 0 <= k < a@->Obj_0.len() implies a@->Obj_0[k] == b@->Obj_0[k] by {
                        assert(x@[k].0@ == y@[k].0@ && x@[k].1@ == y@[k].1@);
                        assert(a@->Obj_0[k] =~= b@->Obj_0[k]);
                    }
                    assert(a@->Obj_0 =~= b@->Obj_0);
                }
                true
            },
            _ => false,
        },
    }
}

/// The models of a sequence of values.
pub open spec fn seq_model(s: Seq<Value>) -> Seq<JVal> {
    Seq::new(
        s.len(),
        |i: int|
            if 0 <= i < s.len() {
                s[i]@
            } else {
                JVal::Null
            },
    )
}

/// The models of a sequence of object entries.
pub open spec fn entries_model(s: Seq<(String, Value)>) -> Seq<(Seq<char>, JVal)> {
    Seq::new(
        s.len(),
        |i: int|
            if 0 <= i < s.len() {
                (s[i].0@, s[i].1@)
            } else {
                (Seq::empty(), JVal::Null)
            },
    )
}

/// The model of an array value is the array of the element models.
pub proof fn lemma_array_view(val: Value)
    requires
        val is Array,
    ensures
        val@ == JVal::Arr(seq_model(val->Array_0@)),
{
    assert(val@->Arr_0 =~= seq_model(val->Array_0@));
}

/// The model of an object value is the sequence of the entry models.
pub proof fn lemma_object_view(val: Value)
    requires
        val is Object,
    ensures
        val@ == JVal::Obj(entries_model(val->Object_0@)),
{
    assert(val@->Obj_0 =~= entries_model(val->Object_0@));
}

/// The position of the first entry with the given key, or the length when
/// there is none.
pub open spec fn find_key_from(o: Seq<(Seq<char>, JVal)>, key: Seq<char>, i: int) -> int
    decreases o.len() - i,
{
    if !(0 <= i < o.len()) {
        o.len() as int
    } else if o[i].0 == key {
        i
    } else {
        find_key_from(o, key, i + 1)
    }
}

/// The position of the first entry with the given key, or the length when
/// there is none.
pub open spec fn find_key(o: Seq<(Seq<char>, JVal)>, key: Seq<char>) -> int {
    find_key_from(o, key, 0)
}

/// `find_key_from` stays between its start and the length, and tells the
/// truth: the entry it points at carries the key, and no earlier one does.
pub proof fn lemma_find_key_from(o: Seq<(Seq<char>, JVal)>, key: Seq<char>, i: int)
    requires
        0 <= i <= o.len(),
    ensures
        i <= find_key_from(o, key, i) <= o.len(),
        find_key_from(o, key, i) < o.len() ==> o[find_key_from(o, key, i)].0 == key,
        forall|k: int| i <= k < find_key_from(o, key, i) ==> o[k].0 != key,
    decreases o.len() - i,
{
    if 0 <= i < o.len() && o[i].0 != key {
        lemma_find_key_from(o, key, i + 1);
    }
}

/// The index of the first entry with the given key, if any.
#[verifier::loop_isolation(false)]
pub fn object_key_index(entries: &Vec<(String, Value)>, key: &str) -> (r: Option<usize>)
    ensures
        ({
            let pos = find_key(entries_model(entries@), key@);
            match r {
                Some(i) => i as int == pos && pos < entries@.len(),
                None => pos == entries@.len(),
            }
        }),
{
    proof {
        lemma_find_key_from(entries_model(entries@), key@, 0);
    }
    let mut i: usize = 0;
    while i < entries.len()
        invariant
            i <= entries@.len(),
            forall|k: int| 0 <= k < i ==> #[trigger] entries_model(entries@)[k].0 != key@,
        decreases entries@.len() - i,
    {
        if crate::text::str_eq(entries[i].0.as_str(), key) {
            proof {
                let m = entries_model(entries@);
                assert(m[i as int].0 == key@);
                assert(find_key_from(m, key@, 0) == i as int) by {
                    lemma_find_key_range(m, key@, 0, i as int);
                }
            }
            return Some(i);
        }
        i = i + 1;
    }
    proof {
        let m = entries_model(entries@);
        lemma_find_key_range(m, key@, 0, m.len() as int);
    }
    None
}

/// If no entry before `stop` carries the key, the search from `i` reaches at
/// least `stop`; and if `stop` carries it, the search ends exactly there.
pub proof fn lemma_find_key_range(o: Seq<(Seq<char>, JVal)>, key: Seq<char>, i: int, stop: int)
    requires
        0 <= i <= stop <= o.len(),
        forall|k: int| i <= k < stop ==> #[trigger] o[k].0 != key,
    ensures
        stop < o.len() && o[stop].0 == key ==> find_key_from(o, key, i) == stop,
        stop == o.len() ==> find_key_from(o, key, i) == o.len(),
    decreases stop - i,
{
    if i < stop {
        lemma_find_key_range(o, key, i + 1, stop);
    }
}

/// Inserting into a sequence of values inserts the model.
pub proof fn lemma_seq_model_insert(s: Seq<Value>, i: int, v: Value)
    requires
        0 <= i <= s.len(),
    ensures
        seq_model(s.insert(i, v)) == seq_model(s).insert(i, v@),
{
    s.insert_ensures(i, v);
    seq_model(s).insert_ensures(i, v@);
    assert(seq_model(s.insert(i, v)) =~= seq_model(s).insert(i, v@));
}

/// Removing from a sequence of values removes from the model.
pub proof fn lemma_seq_model_remove(s: Seq<Value>, i: int)
    requires
        0 <= i < s.len(),
    ensures
        seq_model(s.remove(i)) == seq_model(s).remove(i),
{
    s.remove_ensures(i);
    seq_model(s).remove_ensures(i);
    assert(seq_model(s.remove(i)) =~= seq_model(s).remove(i));
}

/// Pushing onto a sequence of values pushes the model.
pub proof fn lemma_seq_model_push(s: Seq<Value>, v: Value)
    ensures
        seq_model(s.push(v)) == seq_model(s).push(v@),
{
    assert(seq_model(s.push(v)) =~= seq_model(s).push(v@));
}

/// Updating a sequence of values updates the model.
pub proof fn lemma_seq_model_update(s: Seq<Value>, i: int, v: Value)
    requires
        0 <= i < s.len(),
    ensures
        seq_model(s.update(i, v)) == seq_model(s).update(i, v@),
{
    assert(seq_model(s.update(i, v)) =~= seq_model(s).update(i, v@));
}

/// Inserting an entry inserts its model.
pub proof fn lemma_entries_model_insert(s: Seq<(String, Value)>, i: int, e: (String, Value))
    requires
        0 <= i <= s.len(),
    ensures
        entries_model(s.insert(i, e)) == entries_model(s).insert(i, (e.0@, e.1@)),
{
    s.insert_ensures(i, e);
    entries_model(s).insert_ensures(i, (e.0@, e.1@));
    assert(entries_model(s.insert(i, e)) =~= entries_model(s).insert(i, (e.0@, e.1@)));
}

/// Removing an entry removes its model.
pub proof fn lemma_entries_model_remove(s: Seq<(String, Value)>, i: int)
    requires
        0 <= i < s.len(),
    ensures
        entries_model(s.remove(i)) == entries_model(s).remove(i),
{
    s.remove_ensures(i);
    entries_model(s).remove_ensures(i);
    assert(entries_model(s.remove(i)) =~= entries_model(s).remove(i));
}

/// Pushing an entry pushes its model.
pub proof fn lemma_entries_model_push(s: Seq<(String, Value)>, e: (String, Value))
    ensures
        entries_model(s.push(e)) == entries_model(s).push((e.0@, e.1@)),
{
    assert(entries_model(s.push(e)) =~= entries_model(s).push((e.0@, e.1@)));
}

/// Updating an entry updates its model.
pub proof fn lemma_entries_model_update(s: Seq<(String, Value)>, i: int, e: (String, Value))
    requires
        0 <= i < s.len(),
    ensures
        entries_model(s.update(i, e)) == entries_model(s).update(i, (e.0@, e.1@)),
{
    assert(entries_model(s.update(i, e)) =~= entries_model(s).update(i, (e.0@, e.1@)));
}

/// A structurally independent copy of a vector of values.
#[verifier::loop_isolation(false)]
pub fn clone_elems(a: &Vec<Value>) -> (r: Vec<Value>)
    ensures
        seq_model(r@) == seq_model(a@),
{
    let mut out: Vec<Value> = Vec::new();
    let mut i: usize = 0;
    while i < a.len()
        invariant
            i <= a.len(),
            out@.len() == i as int,
            forall|k: int| 0 <= k < i ==> out@[k]@ == #[trigger] a@[k]@,
        decreases a.len() - i,
    {
        out.push(a[i].deep_clone());
        i = i + 1;
    }
    proof {
        assert(seq_model(out@) =~= seq_model(a@));
    }
    out
}

/// A structurally independent copy of a vector of object entries.
#[verifier::loop_isolation(false)]
pub fn clone_entries(o: &Vec<(String, Value)>) -> (r: Vec<(String, Value)>)
    ensures
        entries_model(r@) == entries_model(o@),
{
    let mut out: Vec<(String, Value)> = Vec::new();
    let mut i: usize = 0;
    while i < o.len()
        invariant
            i <= o.len(),
            out@.len() == i as int,
            forall|k: int| 0 <= k < i ==> #[trigger] out@[k].0@ == o@[k].0@,
            forall|k: int| 0 <= k < i ==> #[trigger] out@[k].1@ == o@[k].1@,
        decreases o.len() - i,
    {
        let pair = &o[i];
        out.push((clone_string(&pair.0), pair.1.deep_clone()));
        i = i + 1;
    }
    proof {
        assert(entries_model(out@) =~= entries_model(o@));
    }
    out
}

/// The object with the given key bound to the given value: an existing
/// entry keeps its place and its key, a new entry goes to the end.
pub open spec fn obj_set(o: Seq<(Seq<char>, JVal)>, key: Seq<char>, v: JVal) -> Seq<
    (Seq<char>, JVal),
> {
    let p = find_key(o, key);
    if p < o.len() {
        o.update(p, (o[p].0, v))
    } else {
        o.push((key, v))
    }
}

/// A value counts as empty when it is null, the empty string, an empty
/// array, or an empty object.  Booleans and numbers are never empty.
pub open spec fn is_empty_val(j: JVal) -> bool {
    match j {
        JVal::Null => true,
        JVal::Str(s) => s.len() == 0,
        JVal::Arr(a) => a.len() == 0,
        JVal::Obj(o) => o.len() == 0,
        _ => false,
    }
}

/// True exactly when the value is empty in the sense of `is_empty_val`.
pub fn value_is_empty(v: &Value) -> (r: bool)
    ensures
        r == is_empty_val(v@),
{
    match v {
        Value::Null => true,
        Value::Text(s) => s.as_str().unicode_len() == 0,
        Value::Array(a) => a.len() == 0,
        Value::Object(o) => o.len() == 0,
        _ => false,
    }
}

} // verus!
