//! The patcher: replays a sequence of deltas onto a base value.
//!
//! Every delta addresses a leaf by its path expression.  The replay walks
//! the analysed path: a leading `$` segment is skipped, intermediate
//! segments descend into the tree (creating empty containers under an add),
//! and the final segment performs the operation — an upsert or removal on
//! an object key, or an indexed insert, overwrite or removal inside a
//! (possibly nested) array.  A failing delta aborts the whole replay and
//! the base is handed back unchanged.
use crate::delta::{Delta, DeltaModel, Operation};
use crate::errors::ProcessError;
use crate::text::str_eq;
use crate::utils::{
    analyse_path, insert_element, change_element, remove_element, remove_empty_levels,
    path_wf, spec_analyse, spec_change_el, spec_insert_el, spec_prune, spec_remove_el,
    PathItemModel,
};
use crate::value::{
    clone_elems, clone_entries, clone_string, entries_model, find_key, lemma_array_view,
    lemma_entries_model_insert, lemma_entries_model_push, lemma_entries_model_remove,
    lemma_object_view, obj_set, object_key_index, seq_model, JVal, Value,
};
use vstd::prelude::*;

verus! {

/// Options for one patch invocation.  `force` permits an add to overwrite an
/// already populated array slot; `omit_empty` prunes containers left empty.
#[derive(Debug, Clone, Copy, PartialEq, Eq, Structural)]
pub struct PatchOptions {
    pub force: bool,
    pub omit_empty: bool,
}

impl PatchOptions {
    /// Both options off.
    pub fn new() -> (r: Self)
        ensures
            r.force == false,
            r.omit_empty == false,
    {
        PatchOptions { force: false, omit_empty: false }
    }

    /// The same options with `force` set as given.
    pub fn force(self, force: bool) -> (r: Self)
        ensures
            r.force == force,
            r.omit_empty == self.omit_empty,
    {
        PatchOptions { force, omit_empty: self.omit_empty }
    }

    /// The same options with `omit_empty` set as given.
    pub fn omit_empty(self, omit_empty: bool) -> (r: Self)
        ensures
            r.force == self.force,
            r.omit_empty == omit_empty,
    {
        PatchOptions { force: self.force, omit_empty }
    }
}

impl Default for PatchOptions {
    /// Both options off.
    fn default() -> (r: Self)
        ensures
            r.force == false,
            r.omit_empty == false,
    {
        PatchOptions::new()
    }
}

/// What applying the operation at the analysed segments from `i` on does to
/// the current value.  A `$` segment is skipped.  At the final segment the
/// operation runs: on an array cursor a non-array segment appends a fresh
/// `{key: value}` object and an array segment is a structural error; on an
/// object cursor an array segment delegates to the array-dimension
/// mutators on the named field and a plain segment upserts or removes the
/// key; a leaf cursor is a structural error.  An intermediate segment
/// descends, creating an empty object or array when the member is absent.
pub open spec fn spec_set_items(
    cur: JVal,
    items: Seq<PathItemModel>,
    i: int,
    value: JVal,
    op: Operation,
    options: PatchOptions,
) -> Result<JVal, ProcessError>
    decreases items.len() - i, 1int, 0int,
{
    if !(0 <= i < items.len()) {
        Ok(cur)
    } else {
        let it = items[i];
        if it.key == seq!['$'] {
            spec_set_items(cur, items, i + 1, value, op, options)
        } else if it.is_last {
            match cur {
                JVal::Arr(a) => if !it.is_array {
                    Ok(JVal::Arr(a.push(JVal::Obj(seq![(it.key, value)]))))
                } else {
                    Err(ProcessError::StructuralMismatch)
                },
                JVal::Obj(o) => if it.is_array {
                    let p = find_key(o, it.key);
                    match op {
                        Operation::Add => {
                            if p < o.len() && !(o[p].1 is Arr) {
                                Err(ProcessError::StructuralMismatch)
                            } else {
                                let arr = if p < o.len() {
                                    o[p].1->Arr_0
                                } else {
                                    Seq::empty()
                                };
                                match spec_insert_el(arr, it.indices, 0, value, options.force) {
                                    Ok(sub) => Ok(JVal::Obj(obj_set(o, it.key, JVal::Arr(sub)))),
                                    Err(e) => Err(e),
                                }
                            }
                        },
                        Operation::Change => {
                            if p < o.len() && o[p].1 is Arr {
                                match spec_change_el(o[p].1->Arr_0, it.indices, 0, value) {
                                    Ok(sub) => Ok(JVal::Obj(obj_set(o, it.key, JVal::Arr(sub)))),
                                    Err(e) => Err(e),
                                }
                            } else {
                                Err(ProcessError::StructuralMismatch)
                            }
                        },
                        Operation::Delete => {
                            if p < o.len() && o[p].1 is Arr {
                                match spec_remove_el(
                                    o[p].1->Arr_0,
                                    it.indices,
                                    0,
                                    options.omit_empty,
                                ) {
                                    Ok(sub) => Ok(JVal::Obj(obj_set(o, it.key, JVal::Arr(sub)))),
                                    Err(e) => Err(e),
                                }
                            } else {
                                Err(ProcessError::StructuralMismatch)
                            }
                        },
                    }
                } else {
                    match op {
                        Operation::Delete => {
                            let p = find_key(o, it.key);
                            if p < o.len() {
                                Ok(JVal::Obj(o.remove(p)))
                            } else {
                                Ok(cur)
                            }
                        },
                        _ => Ok(JVal::Obj(obj_set(o, it.key, value))),
                    }
                },
                _ => Err(ProcessError::StructuralMismatch),
            }
        } else {
            match cur {
                JVal::Obj(o) => {
                    let p = find_key(o, it.key);
                    if it.is_array {
                        if p < o.len() && !(o[p].1 is Arr) {
                            Err(ProcessError::StructuralMismatch)
                        } else {
                            let arr = if p < o.len() {
                                o[p].1->Arr_0
                            } else {
                                Seq::empty()
                            };
                            match spec_descend(arr, it.indices, 0, items, i, value, op, options) {
                                Ok(sub) => Ok(JVal::Obj(obj_set(o, it.key, JVal::Arr(sub)))),
                                Err(e) => Err(e),
                            }
                        }
                    } else {
                        if p < o.len() {
                            match spec_set_items(o[p].1, items, i + 1, value, op, options) {
                                Ok(nv) => Ok(JVal::Obj(o.update(p, (o[p].0, nv)))),
                                Err(e) => Err(e),
                            }
                        } else {
                            match spec_set_items(
                                JVal::Obj(Seq::empty()),
                                items,
                                i + 1,
                                value,
                                op,
                                options,
                            ) {
                                Ok(nv) => Ok(JVal::Obj(o.push((it.key, nv)))),
                                Err(e) => Err(e),
                            }
                        }
                    }
                },
                _ => Err(ProcessError::StructuralMismatch),
            }
        }
    }
}

/// Descends through the bracket indexes of an intermediate segment, one
/// array level per index, then continues with the remaining segments at the
/// element the last index reaches.  Under an add, an index at the append
/// position grows the array by one placeholder: an empty object at the
/// innermost level, an empty array above it.  Any other index past the end
/// is out of bounds, and descending into a non-array is a structural error.
pub open spec fn spec_descend(
    arr: Seq<JVal>,
    idxs: Seq<usize>,
    d: int,
    items: Seq<PathItemModel>,
    i: int,
    value: JVal,
    op: Operation,
    options: PatchOptions,
) -> Result<Seq<JVal>, ProcessError>
    decreases items.len() - i, 0int, idxs.len() - d,
{
    if !(0 <= i < items.len()) {
        Err(ProcessError::StructuralMismatch)
    } else if !(0 <= d < idxs.len()) {
        Err(ProcessError::StructuralMismatch)
    } else {
        let idx = idxs[d] as int;
        if idx < arr.len() {
            if d == idxs.len() - 1 {
                match spec_set_items(arr[idx], items, i + 1, value, op, options) {
                    Ok(nv) => Ok(arr.update(idx, nv)),
                    Err(e) => Err(e),
                }
            } else {
                match arr[idx] {
                    JVal::Arr(inner) => match spec_descend(
                        inner,
                        idxs,
                        d + 1,
                        items,
                        i,
                        value,
                        op,
                        options,
                    ) {
                        Ok(sub) => Ok(arr.update(idx, JVal::Arr(sub))),
                        Err(e) => Err(e),
                    },
                    _ => Err(ProcessError::StructuralMismatch),
                }
            }
        } else if idx == arr.len() && op == Operation::Add {
            if d == idxs.len() - 1 {
                match spec_set_items(JVal::Obj(Seq::empty()), items, i + 1, value, op, options) {
                    Ok(nv) => Ok(arr.push(nv)),
                    Err(e) => Err(e),
                }
            } else {
                match spec_descend(Seq::empty(), idxs, d + 1, items, i, value, op, options) {
                    Ok(sub) => Ok(arr.push(JVal::Arr(sub))),
                    Err(e) => Err(e),
                }
            }
        } else {
            Err(ProcessError::IndexOutOfBounds)
        }
    }
}

/// What applying one delta at the given path does to the value.
pub open spec fn spec_set_by_path(
    root: JVal,
    path: Seq<char>,
    value: JVal,
    op: Operation,
    options: PatchOptions,
) -> Result<JVal, ProcessError> {
    spec_set_items(root, spec_analyse(path), 0, value, op, options)
}

/// The object with the given key bound to the given value.
fn obj_upsert(entries: &Vec<(String, Value)>, key: &str, v: Value) -> (r: Vec<(String, Value)>)
    ensures
        entries_model(r@) == obj_set(entries_model(entries@), key@, v@),
{
    let mut out = clone_entries(entries);
    match object_key_index(entries, key) {
        Some(p) => {
            let ghost cloned = out@;
            let removed = out.remove(p);
            let ghost after_rm = out@;
            out.insert(p, (removed.0, v));
            proof {
                lemma_entries_model_remove(cloned, p as int);
                lemma_entries_model_insert(after_rm, p as int, (removed.0, v));
                assert(entries_model(out@) =~= obj_set(entries_model(entries@), key@, v@));
            }
        },
        None => {
            let ghost cloned = out@;
            let entry = (String::from_str(key), v);
            out.push(entry);
            proof {
                lemma_entries_model_push(cloned, entry);
                assert(entries_model(out@) =~= obj_set(entries_model(entries@), key@, v@));
            }
        },
    }
    out
}

/// Applies the analysed segments from position `i` on, building the new
/// value; the current value is left untouched.
#[verifier::loop_isolation(false)]
fn set_items_exec(
    cur: &Value,
    items: &Vec<crate::utils::PathItem>,
    i: usize,
    value: &Value,
    op: Operation,
    options: PatchOptions,
) -> (r: Result<Value, ProcessError>)
    requires
        i <= items@.len(),
    ensures
        ({
            let s = spec_set_items(
                cur@,
                items@.map_values(|p: crate::utils::PathItem| p@),
                i as int,
                value@,
                op,
                options,
            );
            match r {
                Ok(nv) => s == Ok::<JVal, ProcessError>(nv@),
                Err(e) => s == Err::<JVal, ProcessError>(e),
            }
        }),
    decreases items@.len() - i, 1int, 0int,
{
    let ghost m = items@.map_values(|p: crate::utils::PathItem| p@);
    if i >= items.len() {
        return Ok(cur.deep_clone());
    }
    let it = &items[i];
    proof {
        assert(m[i as int] == it@);
    }
    if str_eq(it.key.as_str(), "$") {
        proof {
            reveal_strlit("$");
            assert("$"@ =~= seq!['$']);
        }
        return set_items_exec(cur, items, i + 1, value, op, options);
    }
    proof {
        reveal_strlit("$");
        assert("$"@ =~= seq!['$']);
    }
    if it.is_last {
        match cur {
            Value::Array(a) => {
                proof {
                    lemma_array_view(*cur);
                }
                if !it.is_array {
                    let mut out = clone_elems(a);
                    let ghost pre = out@;
                    let mut entry_vec: Vec<(String, Value)> = Vec::new();
                    entry_vec.push((clone_string(&it.key), value.deep_clone()));
                    let obj = Value::Object(entry_vec);
                    proof {
                        lemma_object_view(obj);
                        assert(obj@->Obj_0 =~= seq![(it@.key, value@)]);
                    }
                    out.push(obj);
                    let result = Value::Array(out);
                    proof {
                        lemma_array_view(result);
                        crate::value::lemma_seq_model_push(pre, obj);
                        assert(result@->Arr_0 =~= cur@->Arr_0.push(
                            JVal::Obj(seq![(it@.key, value@)]),
                        ));
                    }
                    Ok(result)
                } else {
                    Err(ProcessError::StructuralMismatch)
                }
            },
            Value::Object(o) => {
                proof {
                    lemma_object_view(*cur);
                }
                if it.is_array {
                    let found = object_key_index(o, it.key.as_str());
                    match op {
                        Operation::Add => {
                            let mut base: Vec<Value> = match found {
                                Some(p) => match &o[p].1 {
                                    Value::Array(b) => {
                                        proof {
                                            lemma_array_view(o@[p as int].1);
                                        }
                                        clone_elems(b)
                                    },
                                    _ => {
                                        return Err(ProcessError::StructuralMismatch);
                                    },
                                },
                                None => Vec::new(),
                            };
                            proof {
                                assert(seq_model(Seq::<Value>::empty()) =~= Seq::<
                                    JVal,
                                >::empty());
                            }
                            let res = insert_element(
                                &mut base,
                                it.indices.as_slice(),
                                value.deep_clone(),
                                options,
                            );
                            match res {
                                Ok(()) => {
                                    let arr_val = Value::Array(base);
                                    proof {
                                        lemma_array_view(arr_val);
                                    }
                                    let out = obj_upsert(o, it.key.as_str(), arr_val);
                                    let result = Value::Object(out);
                                    proof {
                                        lemma_object_view(result);
                                    }
                                    Ok(result)
                                },
                                Err(e) => Err(e),
                            }
                        },
                        Operation::Change => {
                            match found {
                                Some(p) => match &o[p].1 {
                                    Value::Array(b) => {
                                        proof {
                                            lemma_array_view(o@[p as int].1);
                                        }
                                        let mut base = clone_elems(b);
                                        let res = change_element(
                                            &mut base,
                                            it.indices.as_slice(),
                                            value.deep_clone(),
                                        );
                                        match res {
                                            Ok(()) => {
                                                let arr_val = Value::Array(base);
                                                proof {
                                                    lemma_array_view(arr_val);
                                                }
                                                let out = obj_upsert(
                                                    o,
                                                    it.key.as_str(),
                                                    arr_val,
                                                );
                                                let result = Value::Object(out);
                                                proof {
                                                    lemma_object_view(result);
                                                }
                                                Ok(result)
                                            },
                                            Err(e) => Err(e),
                                        }
                                    },
                                    _ => Err(ProcessError::StructuralMismatch),
                                },
                                None => Err(ProcessError::StructuralMismatch),
                            }
                        },
                        Operation::Delete => {
                            match found {
                                Some(p) => match &o[p].1 {
                                    Value::Array(b) => {
                                        proof {
                                            lemma_array_view(o@[p as int].1);
                                        }
                                        let mut base = clone_elems(b);
                                        let res = remove_element(
                                            &mut base,
                                            it.indices.as_slice(),
                                            options,
                                        );
                                        match res {
                                            Ok(()) => {
                                                let arr_val = Value::Array(base);
                                                proof {
                                                    lemma_array_view(arr_val);
                                                }
                                                let out = obj_upsert(
                                                    o,
                                                    it.key.as_str(),
                                                    arr_val,
                                                );
                                                let result = Value::Object(out);
                                                proof {
                                                    lemma_object_view(result);
                                                }
                                                Ok(result)
                                            },
                                            Err(e) => Err(e),
                                        }
                                    },
                                    _ => Err(ProcessError::StructuralMismatch),
                                },
                                None => Err(ProcessError::StructuralMismatch),
                            }
                        },
                    }
                } else {
                    match op {
                        Operation::Delete => {
                            match object_key_index(o, it.key.as_str()) {
                                Some(p) => {
                                    let mut out = clone_entries(o);
                                    let ghost cloned = out@;
                                    let removed = out.remove(p);
                                    let result = Value::Object(out);
                                    proof {
                                        lemma_entries_model_remove(cloned, p as int);
                                        lemma_object_view(result);
                                    }
                                    Ok(result)
                                },
                                None => Ok(cur.deep_clone()),
                            }
                        },
                        _ => {
                            let out = obj_upsert(o, it.key.as_str(), value.deep_clone());
                            let result = Value::Object(out);
                            proof {
                                lemma_object_view(result);
                            }
                            Ok(result)
                        },
                    }
                }
            },
            _ => Err(ProcessError::StructuralMismatch),
        }
    } else {
        match cur {
            Value::Object(o) => {
                proof {
                    lemma_object_view(*cur);
                }
                let found = object_key_index(o, it.key.as_str());
                if it.is_array {
                    let base: Vec<Value> = match found {
                        Some(p) => match &o[p].1 {
                            Value::Array(b) => {
                                proof {
                                    lemma_array_view(o@[p as int].1);
                                }
                                clone_elems(b)
                            },
                            _ => {
                                return Err(ProcessError::StructuralMismatch);
                            },
                        },
                        None => Vec::new(),
                    };
                    proof {
                        assert(seq_model(Seq::<Value>::empty()) =~= Seq::<JVal>::empty());
                    }
                    match descend_exec(&base, &it.indices, 0, items, i, value, op, options) {
                        Ok(sub) => {
                            let arr_val = Value::Array(sub);
                            proof {
                                lemma_array_view(arr_val);
                            }
                            let out = obj_upsert(o, it.key.as_str(), arr_val);
                            let result = Value::Object(out);
                            proof {
                                lemma_object_view(result);
                            }
                            Ok(result)
                        },
                        Err(e) => Err(e),
                    }
                } else {
                    match found {
                        Some(p) => {
                            match set_items_exec(&o[p].1, items, i + 1, value, op, options) {
                                Ok(nv) => {
                                    let mut out = clone_entries(o);
                                    let ghost cloned = out@;
                                    let removed = out.remove(p);
                                    let ghost after_rm = out@;
                                    out.insert(p, (removed.0, nv));
                                    let result = Value::Object(out);
                                    proof {
                                        lemma_entries_model_remove(cloned, p as int);
                                        lemma_entries_model_insert(
                                            after_rm,
                                            p as int,
                                            (removed.0, nv),
                                        );
                                        lemma_object_view(result);
                                        assert(entries_model(out@) =~= entries_model(
                                            o@,
                                        ).update(p as int, (entries_model(o@)[p as int].0, nv@)));
                                    }
                                    Ok(result)
                                },
                                Err(e) => Err(e),
                            }
                        },
                        None => {
                            let placeholder = Value::Object(Vec::new());
                            proof {
                                lemma_object_view(placeholder);
                                assert(placeholder@->Obj_0 =~= Seq::<(Seq<char>, JVal)>::empty());
                            }
                            match set_items_exec(&placeholder, items, i + 1, value, op, options) {
                                Ok(nv) => {
                                    let mut out = clone_entries(o);
                                    let ghost cloned = out@;
                                    let entry = (clone_string(&it.key), nv);
                                    out.push(entry);
                                    let result = Value::Object(out);
                                    proof {
                                        lemma_entries_model_push(cloned, entry);
                                        lemma_object_view(result);
                                        assert(entries_model(out@) =~= entries_model(o@).push(
                                            (it@.key, entry.1@),
                                        ));
                                    }
                                    Ok(result)
                                },
                                Err(e) => Err(e),
                            }
                        },
                    }
                }
            },
            _ => Err(ProcessError::StructuralMismatch),
        }
    }
}

/// Descends through the bracket indexes of an intermediate segment,
/// building the new array contents; the given array is left untouched.
#[verifier::loop_isolation(false)]
fn descend_exec(
    arr: &Vec<Value>,
    idxs: &Vec<usize>,
    d: usize,
    items: &Vec<crate::utils::PathItem>,
    i: usize,
    value: &Value,
    op: Operation,
    options: PatchOptions,
) -> (r: Result<Vec<Value>, ProcessError>)
    requires
        i < items@.len(),
        d <= idxs@.len(),
    ensures
        ({
            let s = spec_descend(
                seq_model(arr@),
                idxs@,
                d as int,
                items@.map_values(|p: crate::utils::PathItem| p@),
                i as int,
                value@,
                op,
                options,
            );
            match r {
                Ok(nv) => s == Ok::<Seq<JVal>, ProcessError>(seq_model(nv@)),
                Err(e) => s == Err::<Seq<JVal>, ProcessError>(e),
            }
        }),
    decreases items@.len() - i, 0int, idxs@.len() - d,
{
    let total = items.len();
    proof {
        assert(total == items@.len());
    }
    if d >= idxs.len() {
        return Err(ProcessError::StructuralMismatch);
    }
    let idx = idxs[d];
    if idx < arr.len() {
        if d == idxs.len() - 1 {
            match set_items_exec(&arr[idx], items, i + 1, value, op, options) {
                Ok(nv) => {
                    let mut out = clone_elems(arr);
                    let ghost cloned = out@;
                    let removed = out.remove(idx);
                    let ghost after_rm = out@;
                    out.insert(idx, nv);
                    proof {
                        crate::value::lemma_seq_model_remove(cloned, idx as int);
                        crate::value::lemma_seq_model_insert(after_rm, idx as int, nv);
                        assert(seq_model(out@) =~= seq_model(arr@).update(idx as int, nv@));
                    }
                    Ok(out)
                },
                Err(e) => Err(e),
            }
        } else {
            match &arr[idx] {
                Value::Array(inner) => {
                    proof {
                        lemma_array_view(arr@[idx as int]);
                    }
                    match descend_exec(inner, idxs, d + 1, items, i, value, op, options) {
                        Ok(sub) => {
                            let sub_val = Value::Array(sub);
                            proof {
                                lemma_array_view(sub_val);
                            }
                            let mut out = clone_elems(arr);
                            let ghost cloned = out@;
                            let removed = out.remove(idx);
                            let ghost after_rm = out@;
                            out.insert(idx, sub_val);
                            proof {
                                crate::value::lemma_seq_model_remove(cloned, idx as int);
                                crate::value::lemma_seq_model_insert(
                                    after_rm,
                                    idx as int,
                                    out@[idx as int],
                                );
                                assert(seq_model(out@) =~= seq_model(arr@).update(
                                    idx as int,
                                    JVal::Arr(seq_model(sub@)),
                                ));
                            }
                            Ok(out)
                        },
                        Err(e) => Err(e),
                    }
                },
                _ => Err(ProcessError::StructuralMismatch),
            }
        }
    } else if idx == arr.len() && op == Operation::Add {
        if d == idxs.len() - 1 {
            let placeholder = Value::Object(Vec::new());
            proof {
                lemma_object_view(placeholder);
                assert(placeholder@->Obj_0 =~= Seq::<(Seq<char>, JVal)>::empty());
            }
            match set_items_exec(&placeholder, items, i + 1, value, op, options) {
                Ok(nv) => {
                    let mut out = clone_elems(arr);
                    let ghost cloned = out@;
                    out.push(nv);
                    proof {
                        crate::value::lemma_seq_model_push(cloned, out@[cloned.len() as int]);
                        assert(seq_model(out@) =~= seq_model(arr@).push(
                            seq_model(out@)[cloned.len() as int],
                        ));
                    }
                    Ok(out)
                },
                Err(e) => Err(e),
            }
        } else {
            let empty: Vec<Value> = Vec::new();
            proof {
                assert(seq_model(empty@) =~= Seq::<JVal>::empty());
            }
            match descend_exec(&empty, idxs, d + 1, items, i, value, op, options) {
                Ok(sub) => {
                    let sub_val = Value::Array(sub);
                    proof {
                        lemma_array_view(sub_val);
                    }
                    let mut out = clone_elems(arr);
                    let ghost cloned = out@;
                    out.push(sub_val);
                    proof {
                        crate::value::lemma_seq_model_push(cloned, out@[cloned.len() as int]);
                        assert(seq_model(out@) =~= seq_model(arr@).push(
                            seq_model(out@)[cloned.len() as int],
                        ));
                    }
                    Ok(out)
                },
                Err(e) => Err(e),
            }
        }
    } else {
        Err(ProcessError::IndexOutOfBounds)
    }
}

/// Applies one operation at the given path, rewriting the value in place.
/// On an error the value is unchanged.
pub fn set_by_path(
    json: &mut Value,
    path: &str,
    value: &Value,
    operation: Operation,
    options: PatchOptions,
) -> (r: Result<(), ProcessError>)
    requires
        path_wf(path@),
    ensures
        ({
            let s = spec_set_by_path(old(json)@, path@, value@, operation, options);
            match r {
                Ok(()) => s == Ok::<JVal, ProcessError>(final(json)@),
                Err(e) => s == Err::<JVal, ProcessError>(e) && final(json)@ == old(json)@,
            }
        }),
{
    let items = analyse_path(path);
    match set_items_exec(json, &items, 0, value, operation, options) {
        Ok(nv) => {
            *json = nv;
            Ok(())
        },
        Err(e) => Err(e),
    }
}

/// What replaying the deltas from position `i` on does to the base value:
/// each delta's new value is applied at its path, later deltas seeing the
/// effect of earlier ones; the first failure aborts the replay.
pub open spec fn spec_apply_deltas(
    base: JVal,
    deltas: Seq<DeltaModel>,
    i: int,
    options: PatchOptions,
) -> Result<JVal, ProcessError>
    decreases deltas.len() - i,
{
    if !(0 <= i < deltas.len()) {
        Ok(base)
    } else {
        match spec_set_by_path(base, deltas[i].path, deltas[i].new, deltas[i].op, options) {
            Ok(nxt) => spec_apply_deltas(nxt, deltas, i + 1, options),
            Err(e) => Err(e),
        }
    }
}

/// What a whole patch run returns: the deltas replayed in order, then,
/// with `omit_empty` on, the pruning pass.
pub open spec fn spec_patch(base: JVal, deltas: Seq<DeltaModel>, options: PatchOptions) -> Result<
    JVal,
    ProcessError,
> {
    match spec_apply_deltas(base, deltas, 0, options) {
        Ok(v) => Ok(
            if options.omit_empty {
                spec_prune(v)
            } else {
                v
            },
        ),
        Err(e) => Err(e),
    }
}

/// Every delta path can be analysed.
pub open spec fn all_paths_wf(deltas: Seq<Delta>) -> bool {
    forall|k: int| 0 <= k < deltas.len() ==> path_wf((#[trigger] deltas[k])@.path)
}

/// Replays the deltas onto a copy of the base, in order; the first failing
/// delta aborts the replay and surfaces its error.  With `omit_empty` on,
/// containers left empty are pruned afterwards.  The base itself is never
/// changed.
#[verifier::loop_isolation(false)]
pub fn try_patch(base: &Value, deltas: &Vec<Delta>, options: PatchOptions) -> (r: Result<
    Value,
    ProcessError,
>)
    requires
        all_paths_wf(deltas@),
    ensures
        ({
            let s = spec_patch(base@, deltas@.map_values(|d: Delta| d@), options);
            match r {
                Ok(v) => s == Ok::<JVal, ProcessError>(v@),
                Err(e) => s == Err::<JVal, ProcessError>(e),
            }
        }),
{
    let ghost m = deltas@.map_values(|d: Delta| d@);
    let mut current = base.deep_clone();
    let mut k: usize = 0;
    while k < deltas.len()
        invariant
            k <= deltas@.len(),
            spec_apply_deltas(base@, m, 0, options) == spec_apply_deltas(
                current@,
                m,
                k as int,
                options,
            ),
        decreases deltas@.len() - k,
    {
        let d = &deltas[k];
        proof {
            assert(m[k as int] == d@);
        }
        let res = set_by_path(&mut current, d.path.as_str(), &d.new_value, d.operation, options);
        match res {
            Ok(()) => {},
            Err(e) => {
                return Err(e);
            },
        }
        k = k + 1;
    }
    if options.omit_empty {
        remove_empty_levels(&mut current);
    }
    Ok(current)
}

/// Replays the deltas onto a copy of the base and returns the patched tree.
/// The caller owes deltas that replay cleanly; `try_patch` reports a
/// failing delta instead.
pub fn patch(base: Value, deltas: &Vec<Delta>, options: PatchOptions) -> (r: Value)
    requires
        all_paths_wf(deltas@),
        spec_patch(base@, deltas@.map_values(|d: Delta| d@), options) is Ok,
    ensures
        Ok::<JVal, ProcessError>(r@) == spec_patch(
            base@,
            deltas@.map_values(|d: Delta| d@),
            options,
        ),
{
    match try_patch(&base, deltas, options) {
        Ok(v) => v,
        Err(_) => {
            proof {
                assert(false);
            }
            base
        },
    }
}

} // verus!
