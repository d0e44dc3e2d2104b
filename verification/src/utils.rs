//! Path analysis, the delta fingerprint, and the array-dimension mutators.
use crate::delta::{operation_label, Delta};
use crate::errors::ProcessError;
use crate::patcher::PatchOptions;
use crate::render::render_val;
use crate::value::{
    is_empty_val, lemma_array_view, lemma_seq_model_insert, lemma_seq_model_push,
    lemma_seq_model_remove, seq_model, JVal, Value,
};
use std::collections::hash_map::DefaultHasher;
use std::hash::{Hash, Hasher};
use vstd::prelude::*;

verus! {

/// The 64-bit digest that std's `DefaultHasher` produces for the four
/// strings fed in this order.  It depends on the characters alone.
pub uninterp spec fn fingerprint(
    op: Seq<char>,
    path: Seq<char>,
    old_rendered: Seq<char>,
    new_rendered: Seq<char>,
) -> u64;

/// Relies on std's `DefaultHasher` (SipHash with fixed keys) and the `Hash`
/// impl of `str`: hashing the same four strings in the same order always
/// yields the same digest, on every machine and in every process.
#[verifier::external_body]
fn fingerprint_parts(op: &str, path: &str, old_rendered: &str, new_rendered: &str) -> (r: u64)
    ensures
        r == fingerprint(op@, path@, old_rendered@, new_rendered@),
{
    let mut state = DefaultHasher::new();
    op.hash(&mut state);
    path.hash(&mut state);
    old_rendered.hash(&mut state);
    new_rendered.hash(&mut state);
    state.finish()
}

/// The fingerprint of a delta's describing fields: operation name, path,
/// and the compact JSON text of the old and the new value.
pub fn calculate_hash(delta: &Delta) -> (r: u64)
    ensures
        r == fingerprint(
            crate::delta::spec_op_label(delta.operation),
            delta.path@,
            crate::render::spec_render(delta.old_value@),
            crate::render::spec_render(delta.new_value@),
        ),
{
    let op = operation_label(&delta.operation);
    let old_rendered = render_val(&delta.old_value);
    let new_rendered = render_val(&delta.new_value);
    fingerprint_parts(op, delta.path.as_str(), old_rendered.as_str(), new_rendered.as_str())
}

/// True for a decimal digit character.
pub open spec fn is_digit(c: char) -> bool {
    48 <= c as u32 <= 57
}

/// The numeric value of a digit character.
pub open spec fn digit_val(c: char) -> nat {
    (c as u32 - 48) as nat
}

/// The numeric value of a digit string, most significant digit first.
pub open spec fn digits_val(ds: Seq<char>) -> nat
    decreases ds.len(),
{
    if ds.len() == 0 {
        0
    } else {
        digits_val(ds.drop_last()) * 10 + digit_val(ds.last())
    }
}

/// The first position at or after `i` that is not a digit (the end of the
/// digit run starting at `i`).
pub open spec fn digit_run_end(s: Seq<char>, i: int) -> int
    decreases s.len() - i,
{
    if 0 <= i < s.len() && is_digit(s[i]) {
        digit_run_end(s, i + 1)
    } else {
        i
    }
}

/// True if a complete bracket group `[digits]` starts at position `i`.
pub open spec fn group_at(s: Seq<char>, i: int) -> bool {
    &&& 0 <= i < s.len()
    &&& s[i] == '['
    &&& digit_run_end(s, i + 1) > i + 1
    &&& digit_run_end(s, i + 1) < s.len()
    &&& s[digit_run_end(s, i + 1)] == ']'
}

/// The digits of the bracket group starting at `i`.
pub open spec fn group_digits(s: Seq<char>, i: int) -> Seq<char> {
    s.subrange(i + 1, digit_run_end(s, i + 1))
}

/// The array indexes named by the bracket groups of a path segment, found by
/// a left-to-right scan over non-overlapping `[digits]` groups.  A group
/// whose value does not fit in a machine size is dropped.
pub open spec fn scan_groups(s: Seq<char>, i: int) -> Seq<usize>
    decreases s.len() - i,
{
    if !(0 <= i < s.len()) {
        Seq::empty()
    } else if group_at(s, i) {
        let v = digits_val(group_digits(s, i));
        let rest = scan_groups(s, digit_run_end(s, i + 1) + 1);
        if v <= usize::MAX as nat {
            seq![v as usize] + rest
        } else {
            rest
        }
    } else {
        scan_groups(s, i + 1)
    }
}

/// All array indexes of a path segment.
pub open spec fn spec_indices(s: Seq<char>) -> Seq<usize> {
    scan_groups(s, 0)
}

/// The first position at or after `i` holding the given character, or the
/// length when there is none.
pub open spec fn first_pos(s: Seq<char>, c: char, i: int) -> int
    decreases s.len() - i,
{
    if !(0 <= i < s.len()) {
        s.len() as int
    } else if s[i] == c {
        i
    } else {
        first_pos(s, c, i + 1)
    }
}

/// `first_pos` stays between its start and the length.
pub proof fn lemma_first_pos_bounds(s: Seq<char>, c: char, i: int)
    requires
        0 <= i <= s.len(),
    ensures
        i <= first_pos(s, c, i) <= s.len(),
    decreases s.len() - i,
{
    if i < s.len() && s[i] != c {
        lemma_first_pos_bounds(s, c, i + 1);
    }
}

/// The field name of a path segment: everything before the first `[`.
pub open spec fn spec_key(s: Seq<char>) -> Seq<char> {
    s.subrange(0, first_pos(s, '[', 0))
}

/// The segments of a path, split on every dot.
pub open spec fn split_dots_from(s: Seq<char>, start: int) -> Seq<Seq<char>>
    decreases s.len() - start,
    via split_dots_from_dec
{
    if !(0 <= start <= s.len()) {
        Seq::empty()
    } else {
        let p = first_pos(s, '.', start);
        if p == s.len() {
            seq![s.subrange(start, p)]
        } else {
            seq![s.subrange(start, p)] + split_dots_from(s, p + 1)
        }
    }
}

#[via_fn]
proof fn split_dots_from_dec(s: Seq<char>, start: int) {
    if 0 <= start <= s.len() {
        lemma_first_pos_bounds(s, '.', start);
    }
}

/// The segments of a path, split on every dot.
pub open spec fn split_dots(s: Seq<char>) -> Seq<Seq<char>> {
    split_dots_from(s, 0)
}

/// A segment is well-formed when a `[` in it is backed by at least one
/// complete bracket group that fits in a machine size.  On any other
/// segment the path analysis has no defined answer.
pub open spec fn seg_wf(s: Seq<char>) -> bool {
    s.contains('[') ==> spec_indices(s).len() >= 1
}

/// A path is analysable when each of its dot-separated segments is.
pub open spec fn path_wf(s: Seq<char>) -> bool {
    forall|i: int| 0 <= i < split_dots(s).len() ==> seg_wf(#[trigger] split_dots(s)[i])
}

/// A bracket-free string has no groups.
pub proof fn lemma_no_bracket_no_groups(s: Seq<char>, i: int)
    requires
        !s.contains('['),
    ensures
        scan_groups(s, i) == Seq::<usize>::empty(),
    decreases s.len() - i,
{
    if 0 <= i < s.len() {
        assert(s[i] != '[');
        lemma_no_bracket_no_groups(s, i + 1);
    }
}

/// The position of the first occurrence of `c` at or after `from`, or the
/// length when there is none.
fn find_char_from(s: &str, c: char, from: usize) -> (p: usize)
    requires
        from <= s@.len(),
    ensures
        p == first_pos(s@, c, from as int),
        from <= p <= s@.len(),
{
    let len = s.unicode_len();
    let mut i: usize = from;
    while i < len
        invariant
            len == s@.len(),
            from <= i <= len,
            first_pos(s@, c, from as int) == first_pos(s@, c, i as int),
        ensures
            from <= i <= len,
            first_pos(s@, c, from as int) == i as int,
        decreases len - i,
    {
        if s.get_char(i) == c {
            proof {
                assert(first_pos(s@, c, i as int) == i as int);
            }
            break;
        }
        i = i + 1;
    }
    i
}

/// The dot-separated segments of a path.
pub fn split_string(s: &str) -> (r: Vec<String>)
    ensures
        r@.map_values(|x: String| x@) == split_dots(s@),
{
    let len = s.unicode_len();
    let mut done: Vec<String> = Vec::new();
    let mut start: usize = 0;
    loop
        invariant_except_break
            split_dots(s@) == done@.map_values(|x: String| x@) + split_dots_from(
                s@,
                start as int,
            ),
        invariant
            len == s@.len(),
            start <= len,
        ensures
            done@.map_values(|x: String| x@) == split_dots(s@),
        decreases len - start,
    {
        let p = find_char_from(s, '.', start);
        let seg = s.substring_char(start, p);
        done.push(String::from_str(seg));
        proof {
            assert(done@.map_values(|x: String| x@).drop_last() =~= done@.drop_last().map_values(
                |x: String| x@,
            ));
        }
        if p == len {
            proof {
                assert(split_dots(s@) =~= done@.map_values(|x: String| x@));
            }
            break;
        }
        start = p + 1;
        proof {
            assert(split_dots(s@) =~= done@.map_values(|x: String| x@) + split_dots_from(
                s@,
                start as int,
            ));
        }
    }
    done
}

/// The field name of a path segment: everything before the first bracket.
pub fn get_key(key: &str) -> (r: String)
    ensures
        r@ == spec_key(key@),
{
    let p = find_char_from(key, '[', 0);
    let head = key.substring_char(0, p);
    String::from_str(head)
}

/// One analysed path segment: the field name with any bracket suffix
/// stripped, whether the segment carries bracket indexes, the indexes
/// themselves (outer to inner), and whether this is the final segment.
/// The indexes are empty exactly when the segment is not an array segment.
#[derive(Debug)]
pub struct PathItem {
    pub key: String,
    pub is_array: bool,
    pub indices: Vec<usize>,
    pub is_last: bool,
}

/// Mathematical model of a `PathItem`.
#[verifier::ext_equal]
pub struct PathItemModel {
    pub key: Seq<char>,
    pub is_array: bool,
    pub indices: Seq<usize>,
    pub is_last: bool,
}

impl View for PathItem {
    type V = PathItemModel;

    open spec fn view(&self) -> PathItemModel {
        PathItemModel {
            key: self.key@,
            is_array: self.is_array,
            indices: self.indices@,
            is_last: self.is_last,
        }
    }
}

/// The analysed form of one segment of a path.
pub open spec fn spec_item(seg: Seq<char>, is_last: bool) -> PathItemModel {
    PathItemModel {
        key: spec_key(seg),
        is_array: spec_indices(seg).len() > 0,
        indices: spec_indices(seg),
        is_last,
    }
}

/// The analysed form of a whole path: one item per dot-separated segment.
pub open spec fn spec_analyse(path: Seq<char>) -> Seq<PathItemModel> {
    Seq::new(
        split_dots(path).len(),
        |i: int| spec_item(split_dots(path)[i], i == split_dots(path).len() - 1),
    )
}

impl PathItem {
    /// Builds one path item, stripping the bracket suffix off the key.
    pub fn new(path: String, is_array: bool, indices: Vec<usize>, is_last: bool) -> (r: Self)
        ensures
            r@.key == spec_key(path@),
            r@.is_array == is_array,
            r@.indices == indices@,
            r@.is_last == is_last,
    {
        PathItem { key: get_key(path.as_str()), is_array, indices, is_last }
    }
}

/// Whether a path segment carries bracket indexes; how many beyond the
/// first; and the indexes themselves, outer to inner.
pub fn is_multi_dimensional_array(json_path: &str) -> (r: (bool, usize, Vec<usize>))
    requires
        seg_wf(json_path@),
    ensures
        r.2@ == spec_indices(json_path@),
        r.0 == (spec_indices(json_path@).len() > 0),
        r.1 as int == if spec_indices(json_path@).len() > 0 {
            spec_indices(json_path@).len() - 1
        } else {
            0
        },
{
    if !crate::text::str_contains_char(json_path, '[') {
        proof {
            lemma_no_bracket_no_groups(json_path@, 0);
        }
        return (false, 0, Vec::new());
    }
    let indices = scan_indices(json_path);
    let n = indices.len();
    let is_multi = n > 0;
    (is_multi, n - 1, indices)
}

/// True exactly when the path can be analysed: every dot-separated
/// segment that contains a bracket carries at least one complete group.
#[verifier::loop_isolation(false)]
pub fn path_is_wf(path: &str) -> (r: bool)
    ensures
        r == path_wf(path@),
{
    let segments = split_string(path);
    let total = segments.len();
    let mut idx: usize = 0;
    while idx < total
        invariant
            idx <= total,
            forall|k: int| 0 <= k < idx ==> seg_wf(#[trigger] split_dots(path@)[k]),
        decreases total - idx,
    {
        let seg = &segments[idx];
        proof {
            assert(split_dots(path@)[idx as int] == seg@);
        }
        if crate::text::str_contains_char(seg.as_str(), '[') {
            let indices = scan_indices(seg.as_str());
            if indices.len() == 0 {
                proof {
                    assert(!seg_wf(split_dots(path@)[idx as int]));
                }
                return false;
            }
        } else {
            proof {
                lemma_no_bracket_no_groups(seg@, 0);
            }
        }
        idx = idx + 1;
    }
    proof {
        assert(segments@.map_values(|x: String| x@).len() == segments@.len());
    }
    true
}

/// Splits a path on dots and analyses every segment.
#[verifier::loop_isolation(false)]
pub fn analyse_path(json_path: &str) -> (r: Vec<PathItem>)
    requires
        path_wf(json_path@),
    ensures
        r@.map_values(|p: PathItem| p@) == spec_analyse(json_path@),
{
    let segments = split_string(json_path);
    let total = segments.len();
    let mut items: Vec<PathItem> = Vec::new();
    let mut idx: usize = 0;
    while idx < total
        invariant
            idx <= total,
            items@.len() == idx as int,
            forall|k: int| 0 <= k < idx ==> #[trigger] items@[k]@ == spec_analyse(json_path@)[k],
        decreases total - idx,
    {
        let seg = &segments[idx];
        proof {
            assert(split_dots(json_path@)[idx as int] == seg@);
        }
        let (is_array, _, indices) = is_multi_dimensional_array(seg.as_str());
        let item = PathItem::new(crate::value::clone_string(seg), is_array, indices, idx
            == total - 1);
        items.push(item);
        idx = idx + 1;
    }
    proof {
        let lhs = items@.map_values(|p: PathItem| p@);
        let rhs = spec_analyse(json_path@);
        assert(segments@.map_values(|x: String| x@).len() == segments@.len());
        assert(lhs.len() == rhs.len());
        assert forall|k: int| 0 <= k < lhs.len() implies lhs[k] == rhs[k] by {
            assert(items@[k]@ == spec_analyse(json_path@)[k]);
        }
        assert(lhs =~= rhs);
    }
    items
}

/// Scans one digit run starting at `from`, accumulating its value.
/// Returns the end of the run, the value, and whether the value fits.
fn scan_digit_run(s: &str, from: usize) -> (r: (usize, usize, bool))
    requires
        from <= s@.len(),
    ensures
        r.0 == digit_run_end(s@, from as int),
        r.2 == (digits_val(s@.subrange(from as int, r.0 as int)) <= usize::MAX as nat),
        r.2 ==> r.1 as nat == digits_val(s@.subrange(from as int, r.0 as int)),
{
    let len = s.unicode_len();
    let mut k: usize = from;
    let mut acc: usize = 0;
    let mut fits: bool = true;
    while k < len
        invariant
            len == s@.len(),
            from <= k <= len,
            digit_run_end(s@, from as int) == digit_run_end(s@, k as int),
            fits == (digits_val(s@.subrange(from as int, k as int)) <= usize::MAX as nat),
            fits ==> acc as nat == digits_val(s@.subrange(from as int, k as int)),
        ensures
            from <= k <= len,
            digit_run_end(s@, from as int) == k as int,
            fits == (digits_val(s@.subrange(from as int, k as int)) <= usize::MAX as nat),
            fits ==> acc as nat == digits_val(s@.subrange(from as int, k as int)),
        decreases len - k,
    {
        let c = s.get_char(k);
        if !(c as u32 >= 48 && c as u32 <= 57) {
            proof {
                assert(!is_digit(s@[k as int]));
                assert(digit_run_end(s@, k as int) == k as int);
            }
            break;
        }
        let d: usize = (c as u32 - 48) as usize;
        proof {
            let pre = s@.subrange(from as int, k as int);
            let cur = s@.subrange(from as int, k + 1int);
            assert(cur.drop_last() =~= pre);
            assert(cur.last() == s@[k as int]);
        }
        if fits {
            let stepped = acc.checked_mul(10);
            match stepped {
                Some(base) => {
                    let summed = base.checked_add(d);
                    match summed {
                        Some(v) => {
                            acc = v;
                        },
                        None => {
                            fits = false;
                        },
                    }
                },
                None => {
                    proof {
                        assert(acc * 10 + d as nat > usize::MAX as nat);
                    }
                    fits = false;
                },
            }
        }
        k = k + 1;
    }
    (k, acc, fits)
}

/// Collects the array indexes of one path segment: every complete
/// `[digits]` bracket group, scanned left to right, dropping values that do
/// not fit in a machine size.
#[verifier::loop_isolation(false)]
pub fn scan_indices(s: &str) -> (r: Vec<usize>)
    ensures
        r@ == spec_indices(s@),
{
    let len = s.unicode_len();
    let mut out: Vec<usize> = Vec::new();
    let mut p: usize = 0;
    while p < len
        invariant
            p <= len,
            spec_indices(s@) == out@ + scan_groups(s@, p as int),
        decreases len - p,
    {
        if s.get_char(p) == '[' {
            let (run_end, v, fits) = scan_digit_run(s, p + 1);
            if run_end > p + 1 && run_end < len && s.get_char(run_end) == ']' {
                proof {
                    assert(group_at(s@, p as int));
                    assert(group_digits(s@, p as int) =~= s@.subrange(
                        p + 1int,
                        run_end as int,
                    ));
                }
                if fits {
                    out.push(v);
                    proof {
                        assert(spec_indices(s@) =~= out@ + scan_groups(
                            s@,
                            run_end + 1int,
                        ));
                    }
                } else {
                    proof {
                        assert(spec_indices(s@) =~= out@ + scan_groups(
                            s@,
                            run_end + 1int,
                        ));
                    }
                }
                p = run_end + 1;
            } else {
                proof {
                    assert(!group_at(s@, p as int));
                }
                p = p + 1;
            }
        } else {
            proof {
                assert(!group_at(s@, p as int));
            }
            p = p + 1;
        }
    }
    proof {
        assert(spec_indices(s@) =~= out@);
    }
    out
}

/// What inserting at the given index list does to an array of models.
/// At the last index the value is inserted, shifting later elements right;
/// an occupied slot is a conflict unless `force` is on, and a slot past the
/// one-past-the-end position is out of bounds.  At an earlier index the walk
/// descends into the nested array there, appending an empty placeholder
/// array when the index is the append position; a non-array element at that
/// position is overwritten with the value.
pub open spec fn spec_insert_el(
    a: Seq<JVal>,
    idxs: Seq<usize>,
    pos: int,
    value: JVal,
    force: bool,
) -> Result<Seq<JVal>, ProcessError>
    decreases idxs.len() - pos,
{
    if !(0 <= pos < idxs.len()) {
        Ok(a)
    } else {
        let i = idxs[pos] as int;
        if pos == idxs.len() - 1 {
            if i < a.len() && !force {
                Err(ProcessError::Conflict)
            } else if i > a.len() {
                Err(ProcessError::IndexOutOfBounds)
            } else {
                Ok(a.insert(i, value))
            }
        } else {
            if i > a.len() {
                Err(ProcessError::IndexOutOfBounds)
            } else if i == a.len() {
                match spec_insert_el(Seq::empty(), idxs, pos + 1, value, force) {
                    Ok(sub) => Ok(a.push(JVal::Arr(sub))),
                    Err(e) => Err(e),
                }
            } else {
                match a[i] {
                    JVal::Arr(inner) => match spec_insert_el(inner, idxs, pos + 1, value, force) {
                        Ok(sub) => Ok(a.update(i, JVal::Arr(sub))),
                        Err(e) => Err(e),
                    },
                    _ => Ok(a.update(i, value)),
                }
            }
        }
    }
}

/// What overwriting at the given index list does to an array of models.
/// Any index beyond the current length is out of bounds.  At the last index
/// the element is overwritten; at an earlier index the walk descends into
/// the nested array there, or overwrites a non-array element.
pub open spec fn spec_change_el(a: Seq<JVal>, idxs: Seq<usize>, pos: int, value: JVal) -> Result<
    Seq<JVal>,
    ProcessError,
>
    decreases idxs.len() - pos,
{
    if !(0 <= pos < idxs.len()) {
        Ok(a)
    } else {
        let i = idxs[pos] as int;
        if i >= a.len() {
            Err(ProcessError::IndexOutOfBounds)
        } else if pos == idxs.len() - 1 {
            Ok(a.update(i, value))
        } else {
            match a[i] {
                JVal::Arr(inner) => match spec_change_el(inner, idxs, pos + 1, value) {
                    Ok(sub) => Ok(a.update(i, JVal::Arr(sub))),
                    Err(e) => Err(e),
                },
                _ => Ok(a.update(i, value)),
            }
        }
    }
}

/// What removing at the given index list does to an array of models.
/// Any index beyond the current length is out of bounds.  At the last index
/// the element is removed; at an earlier index the walk descends into the
/// nested array there (a non-array element is removed outright), and with
/// `omit_empty` on, a nested array about to lose its sole element is removed
/// whole.
pub open spec fn spec_remove_el(
    a: Seq<JVal>,
    idxs: Seq<usize>,
    pos: int,
    omit_empty: bool,
) -> Result<Seq<JVal>, ProcessError>
    decreases idxs.len() - pos,
{
    if !(0 <= pos < idxs.len()) {
        Ok(a)
    } else {
        let i = idxs[pos] as int;
        if i >= a.len() {
            Err(ProcessError::IndexOutOfBounds)
        } else if pos == idxs.len() - 1 {
            Ok(a.remove(i))
        } else {
            match a[i] {
                JVal::Arr(inner) => if pos == idxs.len() - 2 && inner.len() == 1 && omit_empty {
                    Ok(a.remove(i))
                } else {
                    match spec_remove_el(inner, idxs, pos + 1, omit_empty) {
                        Ok(sub) => Ok(a.update(i, JVal::Arr(sub))),
                        Err(e) => Err(e),
                    }
                },
                _ => Ok(a.remove(i)),
            }
        }
    }
}

fn insert_element_at(
    array: &mut Vec<Value>,
    indices: &[usize],
    pos: usize,
    value: Value,
    force: bool,
) -> (r: Result<(), ProcessError>)
    requires
        pos <= indices@.len(),
    ensures
        ({
            let s = spec_insert_el(seq_model(old(array)@), indices@, pos as int, value@, force);
            match r {
                Ok(()) => s == Ok::<Seq<JVal>, ProcessError>(seq_model(final(array)@)),
                Err(e) => s == Err::<Seq<JVal>, ProcessError>(e) && seq_model(final(array)@)
                    == seq_model(old(array)@),
            }
        }),
    decreases indices@.len() - pos,
{
    if pos >= indices.len() {
        return Ok(());
    }
    let i = indices[pos];
    if pos == indices.len() - 1 {
        if i < array.len() && !force {
            return Err(ProcessError::Conflict);
        }
        if i > array.len() {
            return Err(ProcessError::IndexOutOfBounds);
        }
        let ghost before = array@;
        array.insert(i, value);
        proof {
            lemma_seq_model_insert(before, i as int, value);
        }
        Ok(())
    } else {
        if i > array.len() {
            return Err(ProcessError::IndexOutOfBounds);
        }
        if i == array.len() {
            let mut inner: Vec<Value> = Vec::new();
            let res = insert_element_at(&mut inner, indices, pos + 1, value, force);
            match res {
                Ok(()) => {
                    let ghost before = array@;
                    proof {
                        assert(seq_model(Seq::<Value>::empty()) =~= Seq::<JVal>::empty());
                    }
                    let sub = Value::Array(inner);
                    proof {
                        lemma_array_view(sub);
                    }
                    array.push(sub);
                    proof {
                        lemma_seq_model_push(before, Value::Array(inner));
                    }
                    Ok(())
                },
                Err(e) => {
                    proof {
                        assert(seq_model(Seq::<Value>::empty()) =~= Seq::<JVal>::empty());
                    }
                    Err(e)
                },
            }
        } else {
            let ghost before = array@;
            let elem = array.remove(i);
            proof {
                if elem is Array {
                    lemma_array_view(elem);
                }
            }
            match elem {
                Value::Array(mut inner) => {
                    let res = insert_element_at(&mut inner, indices, pos + 1, value, force);
                    let restored = Value::Array(inner);
                    proof {
                        lemma_array_view(restored);
                    }
                    array.insert(i, restored);
                    proof {
                        lemma_seq_model_remove(before, i as int);
                        lemma_seq_model_insert(before.remove(i as int), i as int, restored);
                        assert(seq_model(before).remove(i as int).insert(i as int, restored@)
                            =~= seq_model(before).update(i as int, restored@));
                    }
                    match res {
                        Ok(()) => Ok(()),
                        Err(e) => {
                            proof {
                                assert(seq_model(before).update(i as int, restored@)
                                    =~= seq_model(before));
                            }
                            Err(e)
                        },
                    }
                },
                _ => {
                    array.insert(i, value);
                    proof {
                        lemma_seq_model_remove(before, i as int);
                        lemma_seq_model_insert(before.remove(i as int), i as int, value);
                        assert(seq_model(before).remove(i as int).insert(i as int, value@)
                            =~= seq_model(before).update(i as int, value@));
                    }
                    Ok(())
                },
            }
        }
    }
}

/// Inserts a value into a (possibly nested) array at the given index list.
/// On an error the array's contents are unchanged.
pub fn insert_element(
    array: &mut Vec<Value>,
    indices: &[usize],
    value: Value,
    options: PatchOptions,
) -> (r: Result<(), ProcessError>)
    ensures
        ({
            let s = spec_insert_el(seq_model(old(array)@), indices@, 0, value@, options.force);
            match r {
                Ok(()) => s == Ok::<Seq<JVal>, ProcessError>(seq_model(final(array)@)),
                Err(e) => s == Err::<Seq<JVal>, ProcessError>(e) && seq_model(final(array)@)
                    == seq_model(old(array)@),
            }
        }),
{
    insert_element_at(array, indices, 0, value, options.force)
}

fn change_element_at(array: &mut Vec<Value>, indices: &[usize], pos: usize, value: Value) -> (r:
    Result<(), ProcessError>)
    requires
        pos <= indices@.len(),
    ensures
        ({
            let s = spec_change_el(seq_model(old(array)@), indices@, pos as int, value@);
            match r {
                Ok(()) => s == Ok::<Seq<JVal>, ProcessError>(seq_model(final(array)@)),
                Err(e) => s == Err::<Seq<JVal>, ProcessError>(e) && seq_model(final(array)@)
                    == seq_model(old(array)@),
            }
        }),
    decreases indices@.len() - pos,
{
    if pos >= indices.len() {
        return Ok(());
    }
    let i = indices[pos];
    if i >= array.len() {
        return Err(ProcessError::IndexOutOfBounds);
    }
    let ghost before = array@;
    if pos == indices.len() - 1 {
        let elem = array.remove(i);
        array.insert(i, value);
        proof {
            lemma_seq_model_remove(before, i as int);
            lemma_seq_model_insert(before.remove(i as int), i as int, value);
            assert(seq_model(before).remove(i as int).insert(i as int, value@) =~= seq_model(
                before,
            ).update(i as int, value@));
        }
        Ok(())
    } else {
        let elem = array.remove(i);
        proof {
            if elem is Array {
                lemma_array_view(elem);
            }
        }
        match elem {
            Value::Array(mut inner) => {
                let res = change_element_at(&mut inner, indices, pos + 1, value);
                let restored = Value::Array(inner);
                proof {
                    lemma_array_view(restored);
                }
                array.insert(i, restored);
                proof {
                    lemma_seq_model_remove(before, i as int);
                    lemma_seq_model_insert(before.remove(i as int), i as int, restored);
                    assert(seq_model(before).remove(i as int).insert(i as int, restored@)
                        =~= seq_model(before).update(i as int, restored@));
                }
                match res {
                    Ok(()) => Ok(()),
                    Err(e) => {
                        proof {
                            assert(seq_model(before).update(i as int, restored@) =~= seq_model(
                                before,
                            ));
                        }
                        Err(e)
                    },
                }
            },
            _ => {
                array.insert(i, value);
                proof {
                    lemma_seq_model_remove(before, i as int);
                    lemma_seq_model_insert(before.remove(i as int), i as int, value);
                    assert(seq_model(before).remove(i as int).insert(i as int, value@)
                        =~= seq_model(before).update(i as int, value@));
                }
                Ok(())
            },
        }
    }
}

/// Overwrites the value of a (possibly nested) array slot at the given
/// index list.  On an error the array's contents are unchanged.
pub fn change_element(array: &mut Vec<Value>, indices: &[usize], value: Value) -> (r: Result<
    (),
    ProcessError,
>)
    ensures
        ({
            let s = spec_change_el(seq_model(old(array)@), indices@, 0, value@);
            match r {
                Ok(()) => s == Ok::<Seq<JVal>, ProcessError>(seq_model(final(array)@)),
                Err(e) => s == Err::<Seq<JVal>, ProcessError>(e) && seq_model(final(array)@)
                    == seq_model(old(array)@),
            }
        }),
{
    change_element_at(array, indices, 0, value)
}

fn remove_element_at(array: &mut Vec<Value>, indices: &[usize], pos: usize, omit_empty: bool) -> (r:
    Result<(), ProcessError>)
    requires
        pos <= indices@.len(),
    ensures
        ({
            let s = spec_remove_el(seq_model(old(array)@), indices@, pos as int, omit_empty);
            match r {
                Ok(()) => s == Ok::<Seq<JVal>, ProcessError>(seq_model(final(array)@)),
                Err(e) => s == Err::<Seq<JVal>, ProcessError>(e) && seq_model(final(array)@)
                    == seq_model(old(array)@),
            }
        }),
    decreases indices@.len() - pos,
{
    if pos >= indices.len() {
        return Ok(());
    }
    let i = indices[pos];
    if i >= array.len() {
        return Err(ProcessError::IndexOutOfBounds);
    }
    let ghost before = array@;
    if pos == indices.len() - 1 {
        let removed = array.remove(i);
        proof {
            lemma_seq_model_remove(before, i as int);
        }
        Ok(())
    } else {
        let elem = array.remove(i);
        proof {
            if elem is Array {
                lemma_array_view(elem);
            }
        }
        match elem {
            Value::Array(mut inner) => {
                if pos + 2 == indices.len() && inner.len() == 1 && omit_empty {
                    proof {
                        lemma_seq_model_remove(before, i as int);
                    }
                    return Ok(());
                }
                let res = remove_element_at(&mut inner, indices, pos + 1, omit_empty);
                let restored = Value::Array(inner);
                proof {
                    lemma_array_view(restored);
                }
                array.insert(i, restored);
                proof {
                    lemma_seq_model_remove(before, i as int);
                    lemma_seq_model_insert(before.remove(i as int), i as int, restored);
                    assert(seq_model(before).remove(i as int).insert(i as int, restored@)
                        =~= seq_model(before).update(i as int, restored@));
                }
                match res {
                    Ok(()) => Ok(()),
                    Err(e) => {
                        proof {
                            assert(seq_model(before).update(i as int, restored@) =~= seq_model(
                                before,
                            ));
                        }
                        Err(e)
                    },
                }
            },
            _ => {
                proof {
                    lemma_seq_model_remove(before, i as int);
                }
                Ok(())
            },
        }
    }
}

/// Removes the element of a (possibly nested) array slot at the given index
/// list.  On an error the array's contents are unchanged.
pub fn remove_element(array: &mut Vec<Value>, indices: &[usize], options: PatchOptions) -> (r:
    Result<(), ProcessError>)
    ensures
        ({
            let s = spec_remove_el(seq_model(old(array)@), indices@, 0, options.omit_empty);
            match r {
                Ok(()) => s == Ok::<Seq<JVal>, ProcessError>(seq_model(final(array)@)),
                Err(e) => s == Err::<Seq<JVal>, ProcessError>(e) && seq_model(final(array)@)
                    == seq_model(old(array)@),
            }
        }),
{
    remove_element_at(array, indices, 0, options.omit_empty)
}

/// The pruned form of a value: children are pruned first, then every child
/// that ended up empty (null, empty string, empty array, empty object) is
/// dropped.  Pruning can cascade: a container whose children all vanish is
/// itself empty and vanishes from its own parent.
pub open spec fn spec_prune(j: JVal) -> JVal
    decreases j, 0int,
{
    match j {
        JVal::Arr(a) => JVal::Arr(spec_prune_items(a)),
        JVal::Obj(o) => JVal::Obj(spec_prune_entries(o)),
        _ => j,
    }
}

/// The pruned elements of an array: each element pruned, empty ones dropped.
pub open spec fn spec_prune_items(a: Seq<JVal>) -> Seq<JVal>
    decreases a, a.len(),
{
    if a.len() == 0 {
        Seq::empty()
    } else {
        let rest = spec_prune_items(a.drop_last());
        let p = spec_prune(a.last());
        if is_empty_val(p) {
            rest
        } else {
            rest.push(p)
        }
    }
}

/// The pruned entries of an object: each value pruned, empty ones dropped.
pub open spec fn spec_prune_entries(o: Seq<(Seq<char>, JVal)>) -> Seq<(Seq<char>, JVal)>
    decreases o, o.len(),
{
    if o.len() == 0 {
        Seq::empty()
    } else {
        let rest = spec_prune_entries(o.drop_last());
        let p = spec_prune(o.last().1);
        if is_empty_val(p) {
            rest
        } else {
            rest.push((o.last().0, p))
        }
    }
}

/// No member of any container, at any depth, is empty.
pub open spec fn no_empty_members(j: JVal) -> bool
    decreases j, 0int,
{
    match j {
        JVal::Arr(a) => items_have_no_empty(a),
        JVal::Obj(o) => entries_have_no_empty(o),
        _ => true,
    }
}

/// No element is empty, and none holds an empty member below it.
pub open spec fn items_have_no_empty(a: Seq<JVal>) -> bool
    decreases a, a.len(),
{
    if a.len() == 0 {
        true
    } else {
        &&& !is_empty_val(a.last())
        &&& no_empty_members(a.last())
        &&& items_have_no_empty(a.drop_last())
    }
}

/// No entry's value is empty, and none holds an empty member below it.
pub open spec fn entries_have_no_empty(o: Seq<(Seq<char>, JVal)>) -> bool
    decreases o, o.len(),
{
    if o.len() == 0 {
        true
    } else {
        &&& !is_empty_val(o.last().1)
        &&& no_empty_members(o.last().1)
        &&& entries_have_no_empty(o.drop_last())
    }
}

#[verifier::loop_isolation(false)]
fn prune_value(v: &Value) -> (r: Value)
    ensures
        r@ == spec_prune(v@),
    decreases *v,
{
    match v {
        Value::Array(a) => {
            let ghost m = v@->Arr_0;
            let mut out: Vec<Value> = Vec::new();
            let mut i: usize = 0;
            while i < a.len()
                invariant
                    i <= a.len(),
                    m.len() == a@.len(),
                    forall|k: int| 0 <= k < a@.len() ==> m[k] == #[trigger] a@[k]@,
                    seq_model(out@) == spec_prune_items(m.take(i as int)),
                decreases a.len() - i,
            {
                let p = prune_value(&a[i]);
                proof {
                    let t = m.take(i + 1int);
                    assert(t.drop_last() =~= m.take(i as int));
                    assert(t.last() == m[i as int]);
                }
                if !crate::value::value_is_empty(&p) {
                    let ghost before = out@;
                    out.push(p);
                    proof {
                        lemma_seq_model_push(before, p);
                    }
                }
                i = i + 1;
            }
            let r = Value::Array(out);
            proof {
                lemma_array_view(r);
                assert(m.take(a@.len() as int) =~= m);
            }
            r
        },
        Value::Object(o) => {
            let ghost m = v@->Obj_0;
            let mut out: Vec<(String, Value)> = Vec::new();
            let mut i: usize = 0;
            while i < o.len()
                invariant
                    i <= o.len(),
                    m.len() == o@.len(),
                    forall|k: int| 0 <= k < o@.len() ==> m[k].0 == #[trigger] o@[k].0@,
                    forall|k: int| 0 <= k < o@.len() ==> m[k].1 == #[trigger] o@[k].1@,
                    crate::value::entries_model(out@) == spec_prune_entries(m.take(i as int)),
                decreases o.len() - i,
            {
                let pair = &o[i];
                let p = prune_value(&pair.1);
                proof {
                    let t = m.take(i + 1int);
                    assert(t.drop_last() =~= m.take(i as int));
                    assert(t.last() == m[i as int]);
                }
                if !crate::value::value_is_empty(&p) {
                    let ghost before = out@;
                    let entry = (crate::value::clone_string(&pair.0), p);
                    out.push(entry);
                    proof {
                        crate::value::lemma_entries_model_push(before, entry);
                    }
                }
                i = i + 1;
            }
            let r = Value::Object(out);
            proof {
                crate::value::lemma_object_view(r);
                assert(m.take(o@.len() as int) =~= m);
            }
            r
        },
        _ => {
            let r = v.deep_clone();
            r
        },
    }
}

/// Rewrites the value in place to its pruned form: empty members are
/// dropped at every level, children before parents.
pub fn remove_empty_levels(json: &mut Value)
    ensures
        final(json)@ == spec_prune(old(json)@),
{
    let pruned = prune_value(json);
    *json = pruned;
}

} // verus!
