//! The differ: walks two values and emits one delta per differing leaf path.
//!
//! Two passes share one set of already classified paths.  The first pass
//! walks the left tree: a leaf whose path resolves in the right tree to a
//! different value yields a change, one whose path does not resolve yields a
//! delete.  The second pass walks the right tree the same way and yields an
//! add for every leaf path the first pass never saw.
use crate::delta::{delta_wf, Delta, DeltaModel, Operation};
use crate::text::{spec_dec_u64, str_contains_char, str_eq, usize_to_string};
use crate::utils::{scan_indices, spec_indices, spec_key, split_dots, split_string};
use crate::value::{
    find_key, lemma_array_view, lemma_object_view, object_key_index, value_eq, JVal, Value,
};
use vstd::prelude::*;

verus! {

/// The first entry of the object with the given key, if the value is an
/// object that has one.
pub open spec fn obj_member(cur: JVal, key: Seq<char>) -> Option<JVal> {
    match cur {
        JVal::Obj(o) => {
            let p = find_key(o, key);
            if p < o.len() {
                Some(o[p].1)
            } else {
                None
            }
        },
        _ => None,
    }
}

/// Descends through one array level per index; anything but an array, or an
/// index beyond the length, resolves to nothing.
pub open spec fn descend_indices(cur: JVal, idxs: Seq<usize>, pos: int) -> Option<JVal>
    decreases idxs.len() - pos,
{
    if !(0 <= pos < idxs.len()) {
        Some(cur)
    } else {
        match cur {
            JVal::Arr(a) => if (idxs[pos] as int) < a.len() {
                descend_indices(a[idxs[pos] as int], idxs, pos + 1)
            } else {
                None
            },
            _ => None,
        }
    }
}

/// Resolves the segments from position `i` on against the current value.
/// A leading `$` segment addresses the current value itself; any other
/// segment addresses an object member by its key; bracket indexes then
/// descend through arrays.
pub open spec fn resolve_segments(cur: JVal, segs: Seq<Seq<char>>, i: int) -> Option<JVal>
    decreases segs.len() - i,
{
    if !(0 <= i < segs.len()) {
        Some(cur)
    } else {
        let seg = segs[i];
        let base = if i == 0 && spec_key(seg) == seq!['$'] {
            Some(cur)
        } else {
            obj_member(cur, spec_key(seg))
        };
        match base {
            None => None,
            Some(b) => match descend_indices(b, spec_indices(seg), 0) {
                None => None,
                Some(nxt) => resolve_segments(nxt, segs, i + 1),
            },
        }
    }
}

/// The first value the path expression reaches in the tree, if any.
pub open spec fn spec_lookup(root: JVal, path: Seq<char>) -> Option<JVal> {
    resolve_segments(root, split_dots(path), 0)
}

/// The path of an object member: `$.key` at the root, `.key` appended
/// below it (with no dot when the key itself carries a bracket).
pub open spec fn spec_child_path_key(path: Seq<char>, key: Seq<char>) -> Seq<char> {
    if path.len() == 0 {
        seq!['$', '.'] + key
    } else if key.contains('[') {
        path + key
    } else {
        path + seq!['.'] + key
    }
}

/// The path of an array element: `$[i]` at the root, `[i]` appended below.
pub open spec fn spec_child_path_index(path: Seq<char>, i: int) -> Seq<char> {
    if path.len() == 0 {
        seq!['$', '['] + spec_dec_u64(i as nat) + seq![']']
    } else {
        path + seq!['['] + spec_dec_u64(i as nat) + seq![']']
    }
}

/// The differ's working state: the deltas emitted so far and every leaf
/// path already classified, in the order it was first reached.
#[verifier::ext_equal]
pub struct DiffState {
    pub deltas: Seq<DeltaModel>,
    pub paths: Seq<Seq<char>>,
}

/// Classifies one leaf.  A path seen before contributes nothing.  Otherwise
/// the same path is resolved against the other tree: a hit with an equal
/// value yields no delta, a hit with a different value yields a change, and
/// a miss yields a delete on the forward pass or an add on the reverse one.
pub open spec fn spec_process_leaf(
    leaf: JVal,
    other: JVal,
    path: Seq<char>,
    reverse: bool,
    st: DiffState,
) -> DiffState {
    if st.paths.contains(path) {
        st
    } else {
        let deltas = match spec_lookup(other, path) {
            Some(v) => if v == leaf {
                st.deltas
            } else {
                st.deltas.push(
                    DeltaModel { op: Operation::Change, path, old: leaf, new: v },
                )
            },
            None => if reverse {
                st.deltas.push(DeltaModel { op: Operation::Add, path, old: JVal::Null, new: leaf })
            } else {
                st.deltas.push(
                    DeltaModel { op: Operation::Delete, path, old: leaf, new: JVal::Null },
                )
            },
        };
        DiffState { deltas, paths: st.paths.push(path) }
    }
}

/// Walks one value depth first, object entries and array elements in order,
/// classifying every leaf against the other tree.
pub open spec fn spec_walk(node: JVal, other: JVal, path: Seq<char>, reverse: bool, st: DiffState)
    -> DiffState
    decreases node, 0int,
{
    match node {
        JVal::Obj(entries) => spec_walk_obj(entries, other, path, reverse, st, 0),
        JVal::Arr(elems) => spec_walk_arr(elems, other, path, reverse, st, 0),
        _ => spec_process_leaf(node, other, path, reverse, st),
    }
}

/// Walks the object entries from position `i` on.
pub open spec fn spec_walk_obj(
    entries: Seq<(Seq<char>, JVal)>,
    other: JVal,
    path: Seq<char>,
    reverse: bool,
    st: DiffState,
    i: int,
) -> DiffState
    decreases entries, entries.len() - i,
{
    if !(0 <= i < entries.len()) {
        st
    } else {
        let st1 = spec_walk(
            entries[i].1,
            other,
            spec_child_path_key(path, entries[i].0),
            reverse,
            st,
        );
        spec_walk_obj(entries, other, path, reverse, st1, i + 1)
    }
}

/// Walks the array elements from position `i` on.
pub open spec fn spec_walk_arr(
    elems: Seq<JVal>,
    other: JVal,
    path: Seq<char>,
    reverse: bool,
    st: DiffState,
    i: int,
) -> DiffState
    decreases elems, elems.len() - i,
{
    if !(0 <= i < elems.len()) {
        st
    } else {
        let st1 = spec_walk(elems[i], other, spec_child_path_index(path, i), reverse, st);
        spec_walk_arr(elems, other, path, reverse, st1, i + 1)
    }
}

/// Both passes of the diff: first the left tree against the right, then the
/// right tree against the left, sharing the set of classified paths.
pub open spec fn spec_diff(left: JVal, right: JVal) -> DiffState {
    let st0 = DiffState { deltas: Seq::empty(), paths: Seq::empty() };
    let st1 = spec_walk(left, right, Seq::empty(), false, st0);
    spec_walk(right, left, Seq::empty(), true, st1)
}

/// Descends through arrays, one index per level.
#[verifier::loop_isolation(false)]
fn descend_indices_exec<'a>(cur: &'a Value, idxs: &Vec<usize>) -> (r: Option<&'a Value>)
    ensures
        ({
            match r {
                Some(v) => descend_indices(cur@, idxs@, 0) == Some(v@),
                None => descend_indices(cur@, idxs@, 0) is None,
            }
        }),
{
    let mut node = cur;
    let mut pos: usize = 0;
    while pos < idxs.len()
        invariant
            pos <= idxs@.len(),
            descend_indices(cur@, idxs@, 0) == descend_indices(node@, idxs@, pos as int),
        decreases idxs@.len() - pos,
    {
        match node {
            Value::Array(a) => {
                proof {
                    lemma_array_view(*node);
                }
                let i = idxs[pos];
                if i < a.len() {
                    node = &a[i];
                    pos = pos + 1;
                } else {
                    return None;
                }
            },
            _ => {
                return None;
            },
        }
    }
    Some(node)
}

/// The first entry of the object with the given key, if any.
fn obj_member_exec<'a>(cur: &'a Value, key: &str) -> (r: Option<&'a Value>)
    ensures
        ({
            match r {
                Some(v) => obj_member(cur@, key@) == Some(v@),
                None => obj_member(cur@, key@) is None,
            }
        }),
{
    match cur {
        Value::Object(entries) => {
            proof {
                lemma_object_view(*cur);
            }
            match object_key_index(entries, key) {
                Some(i) => Some(&entries[i].1),
                None => None,
            }
        },
        _ => None,
    }
}

/// Resolves a path expression against a tree: the value it reaches, if any.
#[verifier::loop_isolation(false)]
pub fn lookup_path<'a>(root: &'a Value, path: &str) -> (r: Option<&'a Value>)
    ensures
        ({
            match r {
                Some(v) => spec_lookup(root@, path@) == Some(v@),
                None => spec_lookup(root@, path@) is None,
            }
        }),
{
    let segments = split_string(path);
    let total = segments.len();
    let mut cur = root;
    let mut i: usize = 0;
    while i < total
        invariant
            i <= total,
            spec_lookup(root@, path@) == resolve_segments(
                cur@,
                split_dots(path@),
                i as int,
            ),
        decreases total - i,
    {
        let seg = &segments[i];
        proof {
            assert(split_dots(path@)[i as int] == seg@);
        }
        let key = crate::utils::get_key(seg.as_str());
        let idxs = scan_indices(seg.as_str());
        let is_root_marker = i == 0 && str_eq(key.as_str(), "$");
        proof {
            reveal_strlit("$");
            assert("$"@ =~= seq!['$']);
        }
        let base: &Value = if is_root_marker {
            cur
        } else {
            match obj_member_exec(cur, key.as_str()) {
                Some(v) => v,
                None => {
                    return None;
                },
            }
        };
        match descend_indices_exec(base, &idxs) {
            Some(nxt) => {
                cur = nxt;
                i = i + 1;
            },
            None => {
                return None;
            },
        }
    }
    Some(cur)
}

/// The path of an object member below the given path.
fn child_path_key(path: &str, key: &str) -> (r: String)
    ensures
        r@ == spec_child_path_key(path@, key@),
{
    let mut out = String::new();
    if path.unicode_len() == 0 {
        out.append("$.");
        out.append(key);
        proof {
            reveal_strlit("$.");
            assert("$."@ =~= seq!['$', '.']);
            assert(out@ =~= spec_child_path_key(path@, key@));
        }
    } else if str_contains_char(key, '[') {
        out.append(path);
        out.append(key);
        proof {
            assert(out@ =~= spec_child_path_key(path@, key@));
        }
    } else {
        out.append(path);
        out.append(".");
        out.append(key);
        proof {
            reveal_strlit(".");
            assert("."@ =~= seq!['.']);
            assert(out@ =~= spec_child_path_key(path@, key@));
        }
    }
    out
}

/// The path of an array element below the given path.
fn child_path_index(path: &str, i: usize) -> (r: String)
    ensures
        r@ == spec_child_path_index(path@, i as int),
{
    let mut out = String::new();
    if path.unicode_len() == 0 {
        out.append("$[");
        proof {
            reveal_strlit("$[");
            assert("$["@ =~= seq!['$', '[']);
        }
    } else {
        out.append(path);
        out.append("[");
        proof {
            reveal_strlit("[");
            assert("["@ =~= seq!['[']);
        }
    }
    let digits = usize_to_string(i);
    out.append(digits.as_str());
    out.append("]");
    proof {
        reveal_strlit("]");
        assert("]"@ =~= seq![']']);
        assert(out@ =~= spec_child_path_index(path@, i as int));
    }
    out
}

/// True if some string in the vector has exactly these characters.
fn contains_string(v: &Vec<String>, s: &str) -> (r: bool)
    ensures
        r == v@.map_values(|x: String| x@).contains(s@),
{
    let mut i: usize = 0;
    while i < v.len()
        invariant
            i <= v@.len(),
            forall|k: int| 0 <= k < i ==> #[trigger] v@[k]@ != s@,
        decreases v@.len() - i,
    {
        if str_eq(v[i].as_str(), s) {
            proof {
                assert(v@.map_values(|x: String| x@)[i as int] == s@);
            }
            return true;
        }
        i = i + 1;
    }
    proof {
        let m = v@.map_values(|x: String| x@);
        assert forall|k: int| 0 <= k < m.len() implies m[k] != s@ by {
            assert(v@[k]@ != s@);
        }
    }
    false
}

/// The state the delta and path vectors stand for.
pub open spec fn state_of(deltas: Seq<Delta>, paths: Seq<String>) -> DiffState {
    DiffState {
        deltas: deltas.map_values(|d: Delta| d@),
        paths: paths.map_values(|p: String| p@),
    }
}

/// Every delta in the vector carries the fingerprint of its own fields.
pub open spec fn all_wf(deltas: Seq<Delta>) -> bool {
    forall|k: int| 0 <= k < deltas.len() ==> delta_wf(#[trigger] deltas[k])
}

/// One walk pass over `node`, accumulating deltas and classified paths.
#[verifier::loop_isolation(false)]
fn walk_exec(
    node: &Value,
    other: &Value,
    path: &String,
    reverse: bool,
    deltas: &mut Vec<Delta>,
    paths: &mut Vec<String>,
)
    requires
        all_wf(old(deltas)@),
    ensures
        ({
            let st1 = spec_walk(node@, other@, path@, reverse, state_of(old(deltas)@, old(paths)@));
            state_of(final(deltas)@, final(paths)@) == st1
        }),
        all_wf(final(deltas)@),
    decreases *node,
{
    match node {
        Value::Object(entries) => {
            proof {
                lemma_object_view(*node);
            }
            let ghost m = node@->Obj_0;
            let ghost st0 = state_of(deltas@, paths@);
            let mut i: usize = 0;
            while i < entries.len()
                invariant
                    i <= entries@.len(),
                    all_wf(deltas@),
                    spec_walk_obj(m, other@, path@, reverse, st0, 0) == spec_walk_obj(
                        m,
                        other@,
                        path@,
                        reverse,
                        state_of(deltas@, paths@),
                        i as int,
                    ),
                decreases entries@.len() - i,
            {
                let pair = &entries[i];
                let np = child_path_key(path.as_str(), pair.0.as_str());
                proof {
                    assert(m[i as int].0 == pair.0@);
                    assert(m[i as int].1 == pair.1@);
                }
                walk_exec(&pair.1, other, &np, reverse, deltas, paths);
                i = i + 1;
            }
        },
        Value::Array(elems) => {
            proof {
                lemma_array_view(*node);
            }
            let ghost m = node@->Arr_0;
            let ghost st0 = state_of(deltas@, paths@);
            let mut i: usize = 0;
            while i < elems.len()
                invariant
                    i <= elems@.len(),
                    all_wf(deltas@),
                    spec_walk_arr(m, other@, path@, reverse, st0, 0) == spec_walk_arr(
                        m,
                        other@,
                        path@,
                        reverse,
                        state_of(deltas@, paths@),
                        i as int,
                    ),
                decreases elems@.len() - i,
            {
                let np = child_path_index(path.as_str(), i);
                proof {
                    assert(m[i as int] == elems@[i as int]@);
                }
                walk_exec(&elems[i], other, &np, reverse, deltas, paths);
                i = i + 1;
            }
        },
        _ => {
            if contains_string(paths, path.as_str()) {
                return ;
            }
            let found = lookup_path(other, path.as_str());
            let ghost pre_deltas = deltas@;
            match found {
                Some(v) => {
                    if !value_eq(node, v) {
                        let d = Delta::new(
                            Operation::Change,
                            crate::value::clone_string(path),
                            node.deep_clone(),
                            v.deep_clone(),
                        );
                        deltas.push(d);
                        proof {
                            assert(deltas@.map_values(|x: Delta| x@) =~= pre_deltas.map_values(
                                |x: Delta| x@,
                            ).push(
                                DeltaModel {
                                    op: Operation::Change,
                                    path: path@,
                                    old: node@,
                                    new: v@,
                                },
                            ));
                        }
                    }
                },
                None => {
                    if reverse {
                        let d = Delta::new(
                            Operation::Add,
                            crate::value::clone_string(path),
                            Value::Null,
                            node.deep_clone(),
                        );
                        deltas.push(d);
                        proof {
                            assert(deltas@.map_values(|x: Delta| x@) =~= pre_deltas.map_values(
                                |x: Delta| x@,
                            ).push(
                                DeltaModel {
                                    op: Operation::Add,
                                    path: path@,
                                    old: JVal::Null,
                                    new: node@,
                                },
                            ));
                        }
                    } else {
                        let d = Delta::new(
                            Operation::Delete,
                            crate::value::clone_string(path),
                            node.deep_clone(),
                            Value::Null,
                        );
                        deltas.push(d);
                        proof {
                            assert(deltas@.map_values(|x: Delta| x@) =~= pre_deltas.map_values(
                                |x: Delta| x@,
                            ).push(
                                DeltaModel {
                                    op: Operation::Delete,
                                    path: path@,
                                    old: node@,
                                    new: JVal::Null,
                                },
                            ));
                        }
                    }
                },
            }
            let ghost pre_paths = paths@;
            paths.push(crate::value::clone_string(path));
            proof {
                assert(paths@.map_values(|x: String| x@) =~= pre_paths.map_values(
                    |x: String| x@,
                ).push(path@));
            }
        },
    }
}

/// Runs both diff passes: every leaf of the left tree against the right
/// tree, then every leaf of the right tree against the left one, sharing
/// the classified paths.  Returns the deltas and the classified paths.
pub fn diff_values(left: &Value, right: &Value) -> (r: (Vec<Delta>, Vec<String>))
    ensures
        state_of(r.0@, r.1@) == spec_diff(left@, right@),
        all_wf(r.0@),
{
    let mut deltas: Vec<Delta> = Vec::new();
    let mut paths: Vec<String> = Vec::new();
    let root_path = String::new();
    proof {
        assert(state_of(Seq::<Delta>::empty(), Seq::<String>::empty()) =~= DiffState {
            deltas: Seq::empty(),
            paths: Seq::empty(),
        });
        assert(deltas@.map_values(|x: Delta| x@) =~= Seq::<DeltaModel>::empty());
        assert(paths@.map_values(|x: String| x@) =~= Seq::<Seq<char>>::empty());
    }
    walk_exec(left, right, &root_path, false, &mut deltas, &mut paths);
    walk_exec(right, left, &root_path, true, &mut deltas, &mut paths);
    (deltas, paths)
}

/// Compares two values and keeps the resulting deltas.
#[derive(Debug, PartialEq)]
pub struct Differ {
    pub deltas: Vec<Delta>,
    pub left: Value,
    pub right: Value,
}

/// The first position in the delta sequence carrying the given path, or the
/// length when there is none.
pub open spec fn find_delta_from(ds: Seq<DeltaModel>, path: Seq<char>, i: int) -> int
    decreases ds.len() - i,
{
    if !(0 <= i < ds.len()) {
        ds.len() as int
    } else if ds[i].path == path {
        i
    } else {
        find_delta_from(ds, path, i + 1)
    }
}

/// `find_delta_from` stays in range and tells the truth.
pub proof fn lemma_find_delta_from(ds: Seq<DeltaModel>, path: Seq<char>, i: int)
    requires
        0 <= i <= ds.len(),
    ensures
        i <= find_delta_from(ds, path, i) <= ds.len(),
        find_delta_from(ds, path, i) < ds.len() ==> ds[find_delta_from(ds, path, i)].path == path,
        forall|k: int| i <= k < find_delta_from(ds, path, i) ==> ds[k].path != path,
    decreases ds.len() - i,
{
    if 0 <= i < ds.len() && ds[i].path != path {
        lemma_find_delta_from(ds, path, i + 1);
    }
}

/// If no delta before `stop` carries the path, the search from `i` reaches
/// at least `stop`; if `stop` carries it, the search ends exactly there.
pub proof fn lemma_find_delta_range(ds: Seq<DeltaModel>, path: Seq<char>, i: int, stop: int)
    requires
        0 <= i <= stop <= ds.len(),
        forall|k: int| i <= k < stop ==> #[trigger] ds[k].path != path,
    ensures
        stop < ds.len() && ds[stop].path == path ==> find_delta_from(ds, path, i) == stop,
        stop == ds.len() ==> find_delta_from(ds, path, i) == ds.len(),
    decreases stop - i,
{
    if i < stop {
        lemma_find_delta_range(ds, path, i + 1, stop);
    }
}

impl Default for Differ {
    /// A differ over two null trees, with no deltas computed yet.
    fn default() -> (d: Differ)
        ensures
            d.left@ == JVal::Null,
            d.right@ == JVal::Null,
            d.deltas@.len() == 0,
    {
        Differ { deltas: Vec::new(), left: Value::Null, right: Value::Null }
    }
}

impl Differ {
    /// A differ over the two given trees, with no deltas computed yet.
    pub fn new_from_json_values(a: Value, b: Value) -> (d: Differ)
        ensures
            d.left@ == a@,
            d.right@ == b@,
            d.deltas@.len() == 0,
    {
        Differ { left: a, right: b, deltas: Vec::new() }
    }

    /// Returns the deltas between the two values.
    pub fn get_deltas(&self) -> (r: &Vec<Delta>)
        ensures
            r@ == self.deltas@,
    {
        &self.deltas
    }

    /// Returns the first delta for the given path.
    pub fn get_delta_by_path(&self, path: &str) -> (r: Option<&Delta>)
        ensures
            ({
                let ds = self.deltas@.map_values(|d: Delta| d@);
                let pos = find_delta_from(ds, path@, 0);
                match r {
                    Some(d) => pos < ds.len() && d@ == ds[pos],
                    None => pos == ds.len(),
                }
            }),
    {
        proof {
            lemma_find_delta_from(self.deltas@.map_values(|d: Delta| d@), path@, 0);
        }
        let mut i: usize = 0;
        while i < self.deltas.len()
            invariant
                i <= self.deltas@.len(),
                forall|k: int| 0 <= k < i ==> #[trigger] self.deltas@[k]@.path != path@,
            decreases self.deltas@.len() - i,
        {
            if str_eq(self.deltas[i].path.as_str(), path) {
                proof {
                    let ds = self.deltas@.map_values(|d: Delta| d@);
                    lemma_find_delta_range(ds, path@, 0, i as int);
                }
                return Some(&self.deltas[i]);
            }
            i = i + 1;
        }
        proof {
            let ds = self.deltas@.map_values(|d: Delta| d@);
            lemma_find_delta_range(ds, path@, 0, ds.len() as int);
        }
        None
    }

    /// True if some delta classifies the given path with the given
    /// operation.
    pub fn has_path_changed(&self, path: &str, operation: Operation) -> (r: bool)
        ensures
            r == exists|k: int|
                0 <= k < self.deltas@.len() && (#[trigger] self.deltas@[k])@.path == path@
                    && self.deltas@[k]@.op == operation,
    {
        let mut i: usize = 0;
        while i < self.deltas.len()
            invariant
                i <= self.deltas@.len(),
                forall|k: int|
                    0 <= k < i ==> !((#[trigger] self.deltas@[k])@.path == path@
                        && self.deltas@[k]@.op == operation),
            decreases self.deltas@.len() - i,
        {
            let d = &self.deltas[i];
            if str_eq(d.path.as_str(), path) && d.operation == operation {
                return true;
            }
            i = i + 1;
        }
        false
    }

    /// True if the two values differ anywhere.
    pub fn has_changes(&self) -> (r: bool)
        ensures
            r == (self.deltas@.len() > 0),
    {
        self.deltas.len() > 0
    }

    /// Computes the deltas between the two trees and keeps them.
    pub fn diff(&mut self)
        ensures
            final(self).left == old(self).left,
            final(self).right == old(self).right,
            final(self).deltas@.map_values(|d: Delta| d@) == spec_diff(
                old(self).left@,
                old(self).right@,
            ).deltas,
            all_wf(final(self).deltas@),
    {
        let (deltas, _paths) = diff_values(&self.left, &self.right);
        self.deltas = deltas;
    }
}

} // verus!
