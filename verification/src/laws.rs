//! Properties that hold across the differ and the patcher, stated and
//! proved over the same spec functions the public contracts use.
use crate::delta::{delta_wf, Delta, DeltaModel};
use crate::differ::{all_wf, spec_diff};
use crate::patcher::{spec_apply_deltas, spec_patch, PatchOptions};
use crate::utils::{
    entries_have_no_empty, first_pos, items_have_no_empty, no_empty_members, spec_prune,
    spec_prune_entries, spec_prune_items,
};
use crate::value::{is_empty_val, JVal};
use vstd::prelude::*;

verus! {

/// Two deltas with equal operation, path, old value and new value carry
/// equal fingerprints: the fingerprint is a function of those four fields
/// alone.
pub proof fn lemma_hash_deterministic(d1: Delta, d2: Delta)
    requires
        delta_wf(d1),
        delta_wf(d2),
        d1.operation == d2.operation,
        d1.path@ == d2.path@,
        d1.old_value@ == d2.old_value@,
        d1.new_value@ == d2.new_value@,
    ensures
        d1.hash@ == d2.hash@,
{
}

/// Two diff runs over the same pair of trees agree delta for delta, on
/// every field and on every fingerprint: the diff is a function of the two
/// trees alone.
pub proof fn lemma_diff_deterministic(run1: Seq<Delta>, run2: Seq<Delta>, left: JVal, right: JVal)
    requires
        run1.map_values(|d: Delta| d@) == spec_diff(left, right).deltas,
        run2.map_values(|d: Delta| d@) == spec_diff(left, right).deltas,
        all_wf(run1),
        all_wf(run2),
    ensures
        run1.len() == run2.len(),
        forall|k: int| 0 <= k < run1.len() ==> #[trigger] run1[k]@ == run2[k]@,
        forall|k: int| 0 <= k < run1.len() ==> #[trigger] run1[k].hash@ == run2[k].hash@,
{
    assert(run1.map_values(|d: Delta| d@).len() == run1.len());
    assert(run2.map_values(|d: Delta| d@).len() == run2.len());
    assert forall|k: int| 0 <= k < run1.len() implies #[trigger] run1[k]@ == run2[k]@ by {
        assert(run1.map_values(|d: Delta| d@)[k] == run1[k]@);
        assert(run2.map_values(|d: Delta| d@)[k] == run2[k]@);
    }
    assert forall|k: int| 0 <= k < run1.len() implies #[trigger] run1[k].hash@ == run2[k].hash@ by {
        assert(run1[k]@ == run2[k]@);
        assert(delta_wf(run1[k]));
        assert(delta_wf(run2[k]));
    }
}

/// Replaying no deltas reproduces the base tree exactly (without the
/// pruning pass).
pub proof fn lemma_patch_nothing_is_identity(base: JVal, options: PatchOptions)
    requires
        !options.omit_empty,
    ensures
        spec_patch(base, Seq::empty(), options) == Ok::<JVal, crate::errors::ProcessError>(base),
{
}

/// After pruning, no member of any container, at any depth, is empty:
/// pruning can cascade, so a parent left empty by its children's removal is
/// itself removed from its own parent.
pub proof fn lemma_prune_leaves_no_empty_members(j: JVal)
    ensures
        no_empty_members(spec_prune(j)),
    decreases j, 0int,
{
    match j {
        JVal::Arr(a) => {
            lemma_prune_items_clean(a);
        },
        JVal::Obj(o) => {
            lemma_prune_entries_clean(o);
        },
        _ => {},
    }
}

proof fn lemma_prune_items_clean(a: Seq<JVal>)
    ensures
        items_have_no_empty(spec_prune_items(a)),
    decreases a, a.len(),
{
    if a.len() > 0 {
        lemma_prune_items_clean(a.drop_last());
        lemma_prune_leaves_no_empty_members(a.last());
        let rest = spec_prune_items(a.drop_last());
        let p = spec_prune(a.last());
        if !is_empty_val(p) {
            assert(rest.push(p).drop_last() =~= rest);
            assert(rest.push(p).last() == p);
        }
    }
}

proof fn lemma_prune_entries_clean(o: Seq<(Seq<char>, JVal)>)
    ensures
        entries_have_no_empty(spec_prune_entries(o)),
    decreases o, o.len(),
{
    if o.len() > 0 {
        lemma_prune_entries_clean(o.drop_last());
        lemma_prune_leaves_no_empty_members(o.last().1);
        let rest = spec_prune_entries(o.drop_last());
        let p = spec_prune(o.last().1);
        if !is_empty_val(p) {
            assert(rest.push((o.last().0, p)).drop_last() =~= rest);
            assert(rest.push((o.last().0, p)).last() == (o.last().0, p));
        }
    }
}

/// A character absent from a string is never found.
proof fn lemma_first_pos_not_found(s: Seq<char>, c: char, x: int)
    requires
        0 <= x <= s.len(),
        !s.contains(c),
    ensures
        first_pos(s, c, x) == s.len(),
    decreases s.len() - x,
{
    if x < s.len() {
        assert(s[x] != c);
        lemma_first_pos_not_found(s, c, x + 1);
    }
}

/// Searching past the first part of a concatenation searches the second.
proof fn lemma_first_pos_shift(s1: Seq<char>, s2: Seq<char>, c: char, y: int)
    requires
        0 <= y <= s2.len(),
    ensures
        first_pos(s1 + s2, c, s1.len() + y) == s1.len() + first_pos(s2, c, y),
    decreases s2.len() - y,
{
    let full = s1 + s2;
    if y < s2.len() {
        assert(full[s1.len() + y] == s2[y]);
        if s2[y] != c {
            lemma_first_pos_shift(s1, s2, c, y + 1);
        }
    }
}

/// Searching a concatenation finds the hit in the first part if there is
/// one, and otherwise continues in the second.
proof fn lemma_first_pos_concat(s1: Seq<char>, s2: Seq<char>, c: char, x: int)
    requires
        0 <= x <= s1.len(),
    ensures
        first_pos(s1, c, x) < s1.len() ==> first_pos(s1 + s2, c, x) == first_pos(s1, c, x),
        first_pos(s1, c, x) == s1.len() ==> first_pos(s1 + s2, c, x) == s1.len() + first_pos(
            s2,
            c,
            0,
        ),
    decreases s1.len() - x,
{
    crate::utils::lemma_first_pos_bounds(s1, c, x);
    let full = s1 + s2;
    if x == s1.len() {
        lemma_first_pos_shift(s1, s2, c, 0);
    } else {
        assert(full[x] == s1[x]);
        if s1[x] != c {
            lemma_first_pos_concat(s1, s2, c, x + 1);
        }
    }
}

/// Splitting after appending a dot and a dot-free tail appends one segment.
proof fn lemma_split_append_segment(p: Seq<char>, k: Seq<char>, start: int)
    requires
        0 <= start <= p.len(),
        !k.contains('.'),
    ensures
        crate::utils::split_dots_from(p + seq!['.'] + k, start) == crate::utils::split_dots_from(
            p,
            start,
        ).push(k),
    decreases p.len() - start,
{
    let sep = seq!['.'];
    let full = p + sep + k;
    assert(full =~= p + (sep + k));
    crate::utils::lemma_first_pos_bounds(p, '.', start);
    lemma_first_pos_concat(p, sep + k, '.', start);
    let q = first_pos(p, '.', start);
    if q < p.len() {
        assert(first_pos(full, '.', start) == q);
        assert(full.subrange(start, q) =~= p.subrange(start, q));
        lemma_split_append_segment(p, k, q + 1);
        assert(crate::utils::split_dots_from(full, start) =~= crate::utils::split_dots_from(
            p,
            start,
        ).push(k));
    } else {
        assert((sep + k)[0] == '.');
        assert(first_pos(sep + k, '.', 0) == 0);
        assert(first_pos(full, '.', start) == p.len());
        assert(full.subrange(start, p.len() as int) =~= p.subrange(start, p.len() as int));
        assert(sep + k =~= full.subrange(p.len() as int, full.len() as int));
        lemma_first_pos_not_found(k, '.', 0);
        lemma_first_pos_shift(p, sep + k, '.', 1);
        assert(first_pos(full, '.', p.len() as int + 1) == p.len() + first_pos(sep + k, '.', 1));
        assert(first_pos(sep + k, '.', 1) == 1 + first_pos(k, '.', 0)) by {
            assert(sep + k =~= sep + k);
            lemma_first_pos_shift(sep, k, '.', 0);
            assert(first_pos(sep + k, '.', 1) == 1 + first_pos(k, '.', 0));
        }
        assert(first_pos(full, '.', p.len() as int + 1) == full.len());
        assert(full.subrange(p.len() as int + 1, full.len() as int) =~= k);
        assert(crate::utils::split_dots_from(full, p.len() as int + 1) =~= seq![k]);
        assert(crate::utils::split_dots_from(full, start) =~= crate::utils::split_dots_from(
            p,
            start,
        ).push(k));
    }
}

/// Splitting after appending a dot-free tail extends the last segment.
proof fn lemma_split_append_tail(p: Seq<char>, c: Seq<char>, start: int)
    requires
        0 <= start <= p.len(),
        !c.contains('.'),
    ensures
        ({
            let before = crate::utils::split_dots_from(p, start);
            crate::utils::split_dots_from(p + c, start) == before.update(
                before.len() - 1,
                before.last() + c,
            )
        }),
    decreases p.len() - start,
{
    let full = p + c;
    crate::utils::lemma_first_pos_bounds(p, '.', start);
    lemma_first_pos_concat(p, c, '.', start);
    let q = first_pos(p, '.', start);
    let before = crate::utils::split_dots_from(p, start);
    if q < p.len() {
        assert(first_pos(full, '.', start) == q);
        assert(full.subrange(start, q) =~= p.subrange(start, q));
        lemma_split_append_tail(p, c, q + 1);
        let rest_before = crate::utils::split_dots_from(p, q + 1);
        assert(rest_before.len() >= 1) by {
            crate::utils::lemma_first_pos_bounds(p, '.', q + 1);
        }
        assert(crate::utils::split_dots_from(full, start) =~= before.update(
            before.len() - 1,
            before.last() + c,
        ));
    } else {
        lemma_first_pos_not_found(c, '.', 0);
        assert(first_pos(full, '.', start) == p.len() + c.len());
        assert(full.subrange(start, full.len() as int) =~= p.subrange(start, p.len() as int) + c);
        assert(crate::utils::split_dots_from(full, start) =~= before.update(
            before.len() - 1,
            before.last() + c,
        ));
    }
}

/// A digit character is a digit and reads back as its value.
proof fn lemma_digit_char(n: nat)
    requires
        n < 10,
    ensures
        crate::utils::is_digit(crate::text::spec_digit_char(n)),
        crate::utils::digit_val(crate::text::spec_digit_char(n)) == n,
{
    if n == 0 {
        assert('0' as u32 == 48);
    } else if n == 1 {
        assert('1' as u32 == 49);
    } else if n == 2 {
        assert('2' as u32 == 50);
    } else if n == 3 {
        assert('3' as u32 == 51);
    } else if n == 4 {
        assert('4' as u32 == 52);
    } else if n == 5 {
        assert('5' as u32 == 53);
    } else if n == 6 {
        assert('6' as u32 == 54);
    } else if n == 7 {
        assert('7' as u32 == 55);
    } else if n == 8 {
        assert('8' as u32 == 56);
    } else {
        assert('9' as u32 == 57);
    }
}

/// Every character of a decimal rendering is a digit.
proof fn lemma_dec_digits(n: nat)
    ensures
        forall|j: int|
            0 <= j < crate::text::spec_dec_u64(n).len() ==> crate::utils::is_digit(
                #[trigger] crate::text::spec_dec_u64(n)[j],
            ),
    decreases n,
{
    let d = crate::text::spec_dec_u64(n);
    if n < 10 {
        lemma_digit_char(n);
        assert(d =~= seq![crate::text::spec_digit_char(n)]);
        assert(d[0] == crate::text::spec_digit_char(n));
    } else {
        lemma_dec_digits(n / 10);
        lemma_digit_char(n % 10);
        let head = crate::text::spec_dec_u64(n / 10);
        assert forall|j: int|
            0 <= j < d.len() implies crate::utils::is_digit(#[trigger] d[j]) by {
            if j < d.len() - 1 {
                assert(d[j] == head[j]);
            } else {
                assert(d[j] == crate::text::spec_digit_char(n % 10));
            }
        }
    }
}

/// Reading the decimal rendering back gives the number.
proof fn lemma_dec_value(n: nat)
    ensures
        crate::utils::digits_val(crate::text::spec_dec_u64(n)) == n,
    decreases n,
{
    let d = crate::text::spec_dec_u64(n);
    if n < 10 {
        lemma_digit_char(n);
        assert(d =~= seq![crate::text::spec_digit_char(n)]);
        assert(d.last() == crate::text::spec_digit_char(n));
        assert(d.drop_last() =~= Seq::<char>::empty());
        assert(crate::utils::digits_val(Seq::<char>::empty()) == 0);
        assert(crate::utils::digits_val(d) == n);
    } else {
        lemma_dec_value(n / 10);
        lemma_digit_char(n % 10);
        assert(d.drop_last() =~= crate::text::spec_dec_u64(n / 10));
        assert(crate::utils::digits_val(d) == (n / 10) * 10 + n % 10);
        assert((n / 10) * 10 + n % 10 == n) by (nonlinear_arith);
    }
}

/// A digit run stays between its start and the length.
proof fn lemma_dre_bounds(s: Seq<char>, x: int)
    requires
        0 <= x <= s.len(),
    ensures
        x <= crate::utils::digit_run_end(s, x) <= s.len(),
    decreases s.len() - x,
{
    if x < s.len() && crate::utils::is_digit(s[x]) {
        lemma_dre_bounds(s, x + 1);
    }
}

/// A digit run over digits from `a` to `b`, stopped at `b`, ends at `b`.
proof fn lemma_dre_digits(s: Seq<char>, a: int, b: int)
    requires
        0 <= a <= b <= s.len(),
        forall|j: int| a <= j < b ==> crate::utils::is_digit(#[trigger] s[j]),
        b == s.len() || !crate::utils::is_digit(s[b]),
    ensures
        crate::utils::digit_run_end(s, a) == b,
    decreases b - a,
{
    if a < b {
        assert(crate::utils::is_digit(s[a]));
        lemma_dre_digits(s, a + 1, b);
    }
}

/// Appending text that starts with a non-digit does not change a digit run
/// that begins inside the original text.
proof fn lemma_dre_concat(s: Seq<char>, app: Seq<char>, x: int)
    requires
        0 <= x <= s.len(),
        app.len() > 0,
        !crate::utils::is_digit(app[0]),
    ensures
        crate::utils::digit_run_end(s + app, x) == crate::utils::digit_run_end(s, x),
    decreases s.len() - x,
{
    let full = s + app;
    if x < s.len() {
        assert(full[x] == s[x]);
        if crate::utils::is_digit(s[x]) {
            lemma_dre_concat(s, app, x + 1);
        }
    } else {
        assert(full[x] == app[0]);
    }
}

/// Appending text that starts with `[` neither makes nor breaks a bracket
/// group that starts inside the original text.
proof fn lemma_group_at_concat(s: Seq<char>, app: Seq<char>, p: int)
    requires
        0 <= p < s.len(),
        app.len() > 0,
        app[0] == '[',
    ensures
        crate::utils::group_at(s + app, p) == crate::utils::group_at(s, p),
        crate::utils::group_at(s, p) ==> crate::utils::group_digits(s + app, p)
            == crate::utils::group_digits(s, p),
    decreases 0int,
{
    let full = s + app;
    assert('[' as u32 == 91);
    assert(!crate::utils::is_digit(app[0]));
    lemma_dre_concat(s, app, p + 1);
    lemma_dre_bounds(s, p + 1);
    let r = crate::utils::digit_run_end(s, p + 1);
    assert(full[p] == s[p]);
    if r < s.len() {
        assert(full[r] == s[r]);
        if crate::utils::group_at(s, p) {
            assert(full.subrange(p + 1, r) =~= s.subrange(p + 1, r));
        }
    } else {
        assert(full[r] == app[0]);
        assert(app[0] != ']');
    }
}

/// Scanning a text extended by a bracketed suffix scans the text, then the
/// suffix.
proof fn lemma_scan_concat(s: Seq<char>, app: Seq<char>, p: int)
    requires
        0 <= p <= s.len(),
        app.len() > 0,
        app[0] == '[',
    ensures
        crate::utils::scan_groups(s + app, p) == crate::utils::scan_groups(s, p)
            + crate::utils::scan_groups(s + app, s.len() as int),
    decreases s.len() - p,
{
    let full = s + app;
    if p == s.len() {
        assert(crate::utils::scan_groups(s, p) =~= Seq::<usize>::empty());
        assert(crate::utils::scan_groups(full, p) =~= crate::utils::scan_groups(s, p)
            + crate::utils::scan_groups(full, s.len() as int));
    } else {
        lemma_group_at_concat(s, app, p);
        if crate::utils::group_at(s, p) {
            lemma_dre_concat(s, app, p + 1);
            lemma_dre_bounds(s, p + 1);
            let e = crate::utils::digit_run_end(s, p + 1);
            lemma_scan_concat(s, app, e + 1);
            assert(crate::utils::scan_groups(full, p) =~= crate::utils::scan_groups(s, p)
                + crate::utils::scan_groups(full, s.len() as int));
        } else {
            lemma_scan_concat(s, app, p + 1);
            assert(crate::utils::scan_groups(full, p) =~= crate::utils::scan_groups(s, p)
                + crate::utils::scan_groups(full, s.len() as int));
        }
    }
}

/// Scanning from the start of a trailing `[digits]` group yields exactly
/// that one index.
proof fn lemma_scan_tail_group(full: Seq<char>, q: int, n: nat)
    requires
        0 <= q <= full.len(),
        full.subrange(q, full.len() as int) == seq!['['] + crate::text::spec_dec_u64(n)
            + seq![']'],
        n <= usize::MAX as nat,
    ensures
        crate::utils::scan_groups(full, q) == seq![n as usize],
{
    let d = crate::text::spec_dec_u64(n);
    let tail = seq!['['] + d + seq![']'];
    assert(tail.len() == 2 + d.len());
    assert(full.subrange(q, full.len() as int).len() == full.len() - q);
    assert(full.len() == q + 2 + d.len());
    assert(full[q] == tail[0]);
    assert(full[q] == '[');
    lemma_dec_digits(n);
    assert forall|j: int| q + 1 <= j < q + 1 + d.len() implies crate::utils::is_digit(
        #[trigger] full[j],
    ) by {
        assert(full[j] == tail[j - q]);
        assert(tail[j - q] == d[j - q - 1]);
    }
    assert(full[q + 1 + d.len()] == tail[1 + d.len() as int]);
    assert(full[q + 1 + d.len() as int] == ']');
    assert(']' as u32 == 93);
    assert(!crate::utils::is_digit(full[q + 1 + d.len() as int]));
    lemma_dre_digits(full, q + 1, q + 1 + d.len() as int);
    assert(d.len() >= 1);
    assert(crate::utils::group_at(full, q));
    assert forall|m: int| 0 <= m < d.len() implies crate::utils::group_digits(full, q)[m] == d[m] by {
        assert(full[q + 1 + m] == tail[1 + m]);
        assert(tail[1 + m] == d[m]);
    }
    assert(crate::utils::group_digits(full, q) =~= d);
    lemma_dec_value(n);
    assert(crate::utils::scan_groups(full, q + 2 + d.len() as int) =~= Seq::<usize>::empty());
    assert(crate::utils::scan_groups(full, q) =~= seq![n as usize]);
}

/// Appending one bracket group to a segment appends one index.
proof fn lemma_indices_append_group(seg: Seq<char>, n: nat)
    requires
        n <= usize::MAX as nat,
    ensures
        crate::utils::spec_indices(
            seg + seq!['['] + crate::text::spec_dec_u64(n) + seq![']'],
        ) == crate::utils::spec_indices(seg).push(n as usize),
{
    let d = crate::text::spec_dec_u64(n);
    let app = seq!['['] + d + seq![']'];
    let full = seg + app;
    assert(full =~= seg + seq!['['] + d + seq![']']);
    lemma_scan_concat(seg, app, 0);
    assert(full.subrange(seg.len() as int, full.len() as int) =~= app);
    lemma_scan_tail_group(full, seg.len() as int, n);
    assert(crate::utils::scan_groups(seg, 0) + seq![n as usize]
        =~= crate::utils::spec_indices(seg).push(n as usize));
}

/// A bracket-free segment is its own key.
proof fn lemma_key_plain(k: Seq<char>)
    requires
        !k.contains('['),
    ensures
        crate::utils::spec_key(k) == k,
{
    lemma_first_pos_not_found(k, '[', 0);
    assert(k.subrange(0, k.len() as int) =~= k);
}

/// Appending a bracketed suffix leaves the key of a segment unchanged.
proof fn lemma_key_append(seg: Seq<char>, app: Seq<char>)
    requires
        app.len() > 0,
        app[0] == '[',
    ensures
        crate::utils::spec_key(seg + app) == crate::utils::spec_key(seg),
{
    let full = seg + app;
    lemma_first_pos_concat(seg, app, '[', 0);
    crate::utils::lemma_first_pos_bounds(seg, '[', 0);
    let q = first_pos(seg, '[', 0);
    if q < seg.len() {
        assert(full.subrange(0, q) =~= seg.subrange(0, q));
    } else {
        assert(app[0] == '[');
        assert(first_pos(app, '[', 0) == 0);
        assert(full.subrange(0, seg.len() as int) =~= seg.subrange(0, seg.len() as int));
    }
}

/// A key the path syntax can carry verbatim: no dot, no bracket.
pub open spec fn plain_key(k: Seq<char>) -> bool {
    !k.contains('.') && !k.contains('[')
}

/// No two entries share a key.
pub open spec fn unique_keys(o: Seq<(Seq<char>, JVal)>) -> bool {
    forall|i: int, j: int| 0 <= i < j < o.len() ==> (#[trigger] o[i].0) != (#[trigger] o[j].0)
}

/// Every object in the tree has unique, plain keys: the leaf paths the
/// differ renders then read back to the leaves they came from.
pub open spec fn diffable(j: JVal) -> bool
    decreases j, 0int,
{
    match j {
        JVal::Obj(o) => unique_keys(o) && diffable_entries(o),
        JVal::Arr(a) => a.len() <= usize::MAX && diffable_items(a),
        _ => true,
    }
}

/// Every element of the sequence is diffable.
pub open spec fn diffable_items(a: Seq<JVal>) -> bool
    decreases a, a.len(),
{
    if a.len() == 0 {
        true
    } else {
        diffable(a.last()) && diffable_items(a.drop_last())
    }
}

/// Every entry has a plain key and a diffable value.
pub open spec fn diffable_entries(o: Seq<(Seq<char>, JVal)>) -> bool
    decreases o, o.len(),
{
    if o.len() == 0 {
        true
    } else {
        plain_key(o.last().0) && diffable(o.last().1) && diffable_entries(o.drop_last())
    }
}

proof fn lemma_diffable_items_index(a: Seq<JVal>, i: int)
    requires
        diffable_items(a),
        0 <= i < a.len(),
    ensures
        diffable(a[i]),
    decreases a.len(),
{
    if i < a.len() - 1 {
        assert(a.drop_last()[i] == a[i]);
        lemma_diffable_items_index(a.drop_last(), i);
    }
}

proof fn lemma_diffable_entries_index(o: Seq<(Seq<char>, JVal)>, i: int)
    requires
        diffable_entries(o),
        0 <= i < o.len(),
    ensures
        plain_key(o[i].0),
        diffable(o[i].1),
    decreases o.len(),
{
    if i < o.len() - 1 {
        assert(o.drop_last()[i] == o[i]);
        lemma_diffable_entries_index(o.drop_last(), i);
    }
}

proof fn lemma_diffable_entries_build(o: Seq<(Seq<char>, JVal)>)
    requires
        forall|idx: int|
            0 <= idx < o.len() ==> plain_key((#[trigger] o[idx]).0) && diffable(o[idx].1),
    ensures
        diffable_entries(o),
    decreases o.len(),
{
    if o.len() > 0 {
        assert(forall|idx: int|
            0 <= idx < o.drop_last().len() ==> (#[trigger] o.drop_last()[idx]) == o[idx]);
        lemma_diffable_entries_build(o.drop_last());
    }
}

/// In an object with unique keys, the entry at `i` is the one its key finds.
proof fn lemma_member_unique(o: Seq<(Seq<char>, JVal)>, i: int)
    requires
        unique_keys(o),
        0 <= i < o.len(),
    ensures
        crate::value::find_key(o, o[i].0) == i,
{
    crate::value::lemma_find_key_range(o, o[i].0, 0, i);
}

/// A split has at least one segment.
proof fn lemma_split_len(s: Seq<char>, start: int)
    requires
        0 <= start <= s.len(),
    ensures
        crate::utils::split_dots_from(s, start).len() >= 1,
{
    crate::utils::lemma_first_pos_bounds(s, '.', start);
}

/// Descending one extra index descends into the reached array.
proof fn lemma_descend_push(b: JVal, idxs: Seq<usize>, x: usize, pos: int)
    requires
        0 <= pos <= idxs.len(),
    ensures
        crate::differ::descend_indices(b, idxs.push(x), pos) == match crate::differ::descend_indices(
            b,
            idxs,
            pos,
        ) {
            Some(v) => match v {
                JVal::Arr(a) => if (x as int) < a.len() {
                    Some(a[x as int])
                } else {
                    None::<JVal>
                },
                _ => None::<JVal>,
            },
            None => None::<JVal>,
        },
    decreases idxs.len() - pos,
{
    if pos == idxs.len() {
        assert(idxs.push(x)[pos] == x);
    } else {
        assert(idxs.push(x)[pos] == idxs[pos]);
        match b {
            JVal::Arr(a) => {
                if (idxs[pos] as int) < a.len() {
                    lemma_descend_push(a[idxs[pos] as int], idxs, x, pos + 1);
                }
            },
            _ => {},
        }
    }
}

/// Resolving with one extra plain-key segment resolves the original path,
/// then that member.
proof fn lemma_resolve_push_seg(cur: JVal, segs: Seq<Seq<char>>, k: Seq<char>, i: int)
    requires
        0 <= i <= segs.len(),
        segs.len() >= 1,
        plain_key(k),
    ensures
        crate::differ::resolve_segments(cur, segs.push(k), i) == match crate::differ::resolve_segments(
            cur,
            segs,
            i,
        ) {
            Some(v) => crate::differ::obj_member(v, k),
            None => None::<JVal>,
        },
    decreases segs.len() - i,
{
    lemma_key_plain(k);
    crate::utils::lemma_no_bracket_no_groups(k, 0);
    if i == segs.len() {
        assert(segs.push(k)[i] == k);
        assert(crate::utils::spec_key(k) == k);
        assert(crate::utils::spec_indices(k) == Seq::<usize>::empty());
        assert(crate::differ::resolve_segments(cur, segs, i) == Some(cur));
        match crate::differ::obj_member(cur, k) {
            None => {
                assert(crate::differ::resolve_segments(cur, segs.push(k), i) is None);
            },
            Some(b) => {
                assert(crate::differ::descend_indices(b, crate::utils::spec_indices(k), 0)
                    == Some(b));
                assert(crate::differ::resolve_segments(b, segs.push(k), i + 1) == Some(b));
                assert(crate::differ::resolve_segments(cur, segs.push(k), i) == Some(b));
            },
        }
    } else {
        assert(segs.push(k)[i] == segs[i]);
        let seg = segs[i];
        let base = if i == 0 && crate::utils::spec_key(seg) == seq!['$'] {
            Some(cur)
        } else {
            crate::differ::obj_member(cur, crate::utils::spec_key(seg))
        };
        match base {
            None => {},
            Some(b) => {
                match crate::differ::descend_indices(b, crate::utils::spec_indices(seg), 0) {
                    None => {},
                    Some(nxt) => {
                        lemma_resolve_push_seg(nxt, segs, k, i + 1);
                    },
                }
            },
        }
    }
}

/// Resolving with the last segment extended by one bracket group resolves
/// the original path, then that index.
proof fn lemma_resolve_extend_last(cur: JVal, segs: Seq<Seq<char>>, x: usize, i: int)
    requires
        0 <= i < segs.len(),
    ensures
        ({
            let app = seq!['['] + crate::text::spec_dec_u64(x as nat) + seq![']'];
            let extended = segs.update(segs.len() - 1, segs.last() + app);
            crate::differ::resolve_segments(cur, extended, i) == match crate::differ::resolve_segments(
                cur,
                segs,
                i,
            ) {
                Some(v) => match v {
                    JVal::Arr(a) => if (x as int) < a.len() {
                        Some(a[x as int])
                    } else {
                        None::<JVal>
                    },
                    _ => None::<JVal>,
                },
                None => None::<JVal>,
            }
        }),
    decreases segs.len() - i,
{
    let app = seq!['['] + crate::text::spec_dec_u64(x as nat) + seq![']'];
    let extended = segs.update(segs.len() - 1, segs.last() + app);
    assert(extended.len() == segs.len());
    if i == segs.len() - 1 {
        let seg = segs[i];
        let seg2 = extended[i];
        assert(seg2 == seg + app);
        assert(app[0] == '[');
        lemma_key_append(seg, app);
        lemma_indices_append_group(seg, x as nat);
        assert(seg + seq!['['] + crate::text::spec_dec_u64(x as nat) + seq![']'] =~= seg + app);
        assert(crate::utils::spec_key(seg2) == crate::utils::spec_key(seg));
        assert(crate::utils::spec_indices(seg2) == crate::utils::spec_indices(seg).push(x));
        let base = if i == 0 && crate::utils::spec_key(seg) == seq!['$'] {
            Some(cur)
        } else {
            crate::differ::obj_member(cur, crate::utils::spec_key(seg))
        };
        match base {
            None => {
                assert(crate::differ::resolve_segments(cur, extended, i) is None);
                assert(crate::differ::resolve_segments(cur, segs, i) is None);
            },
            Some(b) => {
                lemma_descend_push(b, crate::utils::spec_indices(seg), x, 0);
                match crate::differ::descend_indices(b, crate::utils::spec_indices(seg), 0) {
                    None => {
                        assert(crate::differ::descend_indices(
                            b,
                            crate::utils::spec_indices(seg2),
                            0,
                        ) is None);
                        assert(crate::differ::resolve_segments(cur, extended, i) is None);
                    },
                    Some(v) => {
                        assert(crate::differ::resolve_segments(v, segs, i + 1) == Some(v));
                        assert(crate::differ::resolve_segments(cur, segs, i) == Some(v));
                        match v {
                            JVal::Arr(a) => {
                                if (x as int) < a.len() {
                                    assert(crate::differ::descend_indices(
                                        b,
                                        crate::utils::spec_indices(seg2),
                                        0,
                                    ) == Some(a[x as int]));
                                    assert(crate::differ::resolve_segments(
                                        a[x as int],
                                        extended,
                                        i + 1,
                                    ) == Some(a[x as int]));
                                    assert(crate::differ::resolve_segments(cur, extended, i)
                                        == Some(a[x as int]));
                                } else {
                                    assert(crate::differ::descend_indices(
                                        b,
                                        crate::utils::spec_indices(seg2),
                                        0,
                                    ) is None);
                                }
                            },
                            _ => {
                                assert(crate::differ::descend_indices(
                                    b,
                                    crate::utils::spec_indices(seg2),
                                    0,
                                ) is None);
                            },
                        }
                    },
                }
            },
        }
    } else {
        assert(extended[i] == segs[i]);
        let seg = segs[i];
        let base = if i == 0 && crate::utils::spec_key(seg) == seq!['$'] {
            Some(cur)
        } else {
            crate::differ::obj_member(cur, crate::utils::spec_key(seg))
        };
        match base {
            None => {},
            Some(b) => {
                match crate::differ::descend_indices(b, crate::utils::spec_indices(seg), 0) {
                    None => {},
                    Some(nxt) => {
                        lemma_resolve_extend_last(nxt, segs, x, i + 1);
                    },
                }
            },
        }
    }
}

/// The root marker alone splits into one segment whose key is `$` and
/// which carries no indexes.
proof fn lemma_dollar_segment()
    ensures
        crate::utils::split_dots(seq!['$']) == seq![seq!['$']],
        crate::utils::spec_key(seq!['$']) == seq!['$'],
        crate::utils::spec_indices(seq!['$']) == Seq::<usize>::empty(),
{
    let d = seq!['$'];
    assert(!d.contains('.')) by {
        assert forall|j: int| 0 <= j < d.len() implies d[j] != '.' by {
            assert(d[j] == '$');
        }
    }
    assert(!d.contains('[')) by {
        assert forall|j: int| 0 <= j < d.len() implies d[j] != '[' by {
            assert(d[j] == '$');
        }
    }
    lemma_first_pos_not_found(d, '.', 0);
    assert(d.subrange(0, 1) =~= d);
    assert(crate::utils::split_dots(d) =~= seq![d]);
    lemma_key_plain(d);
    crate::utils::lemma_no_bracket_no_groups(d, 0);
}

/// Looking up the path of an object member reaches that member: below the
/// root through the member's own path, at the root through `$.key`.
proof fn lemma_lookup_member(other: JVal, path: Seq<char>, key: Seq<char>, parent: JVal)
    requires
        plain_key(key),
        path.len() == 0 ==> parent == other,
        path.len() > 0 ==> crate::differ::spec_lookup(other, path) == Some(parent),
    ensures
        crate::differ::spec_lookup(
            other,
            crate::differ::spec_child_path_key(path, key),
        ) == crate::differ::obj_member(parent, key),
{
    if path.len() == 0 {
        let p2 = crate::differ::spec_child_path_key(path, key);
        assert(p2 == seq!['$', '.'] + key);
        assert(p2 =~= seq!['$'] + seq!['.'] + key);
        lemma_dollar_segment();
        lemma_split_append_segment(seq!['$'], key, 0);
        assert(crate::utils::split_dots(p2) == seq![seq!['$']].push(key));
        let segs = seq![seq!['$']].push(key);
        assert(segs.len() == 2);
        assert(segs[0] == seq!['$']);
        assert(segs[1] == key);
        lemma_key_plain(key);
        crate::utils::lemma_no_bracket_no_groups(key, 0);
        assert(crate::differ::descend_indices(other, crate::utils::spec_indices(seq!['$']), 0)
            == Some(other));
        assert(crate::differ::resolve_segments(other, segs, 0)
            == crate::differ::resolve_segments(other, segs, 1));
        match crate::differ::obj_member(other, key) {
            None => {
                assert(crate::differ::resolve_segments(other, segs, 1) is None);
            },
            Some(m) => {
                assert(crate::differ::descend_indices(m, crate::utils::spec_indices(key), 0)
                    == Some(m));
                assert(crate::differ::resolve_segments(m, segs, 2) == Some(m));
                assert(crate::differ::resolve_segments(other, segs, 1) == Some(m));
            },
        }
    } else {
        assert(!key.contains('['));
        let p2 = crate::differ::spec_child_path_key(path, key);
        assert(p2 == path + seq!['.'] + key);
        lemma_split_append_segment(path, key, 0);
        lemma_split_len(path, 0);
        lemma_resolve_push_seg(other, crate::utils::split_dots(path), key, 0);
    }
}

/// Looking up the path of an array element reaches that element: below the
/// root through the element's own path, at the root through `$[i]`.
proof fn lemma_lookup_element(other: JVal, path: Seq<char>, x: usize, parent: JVal)
    requires
        path.len() == 0 ==> parent == other,
        path.len() > 0 ==> crate::differ::spec_lookup(other, path) == Some(parent),
    ensures
        crate::differ::spec_lookup(
            other,
            crate::differ::spec_child_path_index(path, x as int),
        ) == match parent {
            JVal::Arr(a) => if (x as int) < a.len() {
                Some(a[x as int])
            } else {
                None::<JVal>
            },
            _ => None::<JVal>,
        },
{
    let d = crate::text::spec_dec_u64(x as nat);
    let app = seq!['['] + d + seq![']'];
    lemma_dec_digits(x as nat);
    assert('.' as u32 == 46);
    assert(!app.contains('.')) by {
        assert forall|j: int| 0 <= j < app.len() implies app[j] != '.' by {
            if j == 0 {
                assert(app[j] == '[');
            } else if j == app.len() - 1 {
                assert(app[j] == ']');
            } else {
                assert(app[j] == d[j - 1]);
                assert(crate::utils::is_digit(app[j]));
            }
        }
    }
    if path.len() == 0 {
        let p2 = crate::differ::spec_child_path_index(path, x as int);
        assert(p2 == seq!['$', '['] + d + seq![']']);
        assert(p2 =~= seq!['$'] + app);
        lemma_dollar_segment();
        assert(!(seq!['$'] + app).contains('.')) by {
            assert forall|j: int| 0 <= j < (seq!['$'] + app).len() implies (seq!['$'] + app)[j]
                != '.' by {
                if j == 0 {
                    assert((seq!['$'] + app)[j] == '$');
                } else {
                    assert((seq!['$'] + app)[j] == app[j - 1]);
                }
            }
        }
        lemma_first_pos_not_found(p2, '.', 0);
        assert(p2.subrange(0, p2.len() as int) =~= p2);
        assert(crate::utils::split_dots(p2) =~= seq![p2]);
        lemma_key_append(seq!['$'], app);
        assert(seq!['$'] + app =~= p2);
        assert(crate::utils::spec_key(p2) == seq!['$']);
        lemma_indices_append_group(seq!['$'], x as nat);
        assert(seq!['$'] + seq!['['] + d + seq![']'] =~= p2);
        assert(crate::utils::spec_indices(p2) =~= seq![x]);
        let segs = seq![p2];
        assert(segs[0] == p2);
        match other {
            JVal::Arr(a) => {
                if (x as int) < a.len() {
                    assert(crate::differ::descend_indices(a[x as int], seq![x], 1) == Some(
                        a[x as int],
                    ));
                    assert(crate::differ::descend_indices(other, seq![x], 0) == Some(
                        a[x as int],
                    ));
                    assert(crate::differ::resolve_segments(a[x as int], segs, 1) == Some(
                        a[x as int],
                    ));
                } else {
                    assert(crate::differ::descend_indices(other, seq![x], 0) is None);
                }
            },
            _ => {
                assert(crate::differ::descend_indices(other, seq![x], 0) is None);
            },
        }
    } else {
        let p2 = crate::differ::spec_child_path_index(path, x as int);
        assert(p2 == path + seq!['['] + d + seq![']']);
        assert(p2 =~= path + app);
        lemma_split_append_tail(path, app, 0);
        lemma_split_len(path, 0);
        lemma_resolve_extend_last(other, crate::utils::split_dots(path), x, 0);
        let before = crate::utils::split_dots(path);
        assert(crate::utils::split_dots(path + app) == before.update(
            before.len() - 1,
            before.last() + app,
        ));
    }
}

/// The rendered path of some leaf of the value walked from the given path.
pub open spec fn leaf_path_of(node: JVal, path: Seq<char>, p: Seq<char>) -> bool
    decreases node, 0int,
{
    match node {
        JVal::Obj(o) => exists|i: int|
            0 <= i < o.len() && leaf_path_of(
                #[trigger] o[i].1,
                crate::differ::spec_child_path_key(path, o[i].0),
                p,
            ),
        JVal::Arr(a) => exists|i: int|
            0 <= i < a.len() && leaf_path_of(
                #[trigger] a[i],
                crate::differ::spec_child_path_index(path, i),
                p,
            ),
        _ => p == path,
    }
}

/// Every leaf path of a diffable value extends the path it is walked
/// from, and the first character past a nonempty walk path is a dot or a
/// bracket.
proof fn lemma_leaf_path_shape(node: JVal, path: Seq<char>, p: Seq<char>)
    requires
        diffable(node),
        leaf_path_of(node, path, p),
    ensures
        p.len() >= path.len(),
        p.subrange(0, path.len() as int) == path,
        path.len() > 0 && p.len() > path.len() ==> p[path.len() as int] == '.'
            || p[path.len() as int] == '[',
    decreases node, 0int,
{
    match node {
        JVal::Obj(o) => {
            let i = choose|i: int|
                0 <= i < o.len() && leaf_path_of(
                    #[trigger] o[i].1,
                    crate::differ::spec_child_path_key(path, o[i].0),
                    p,
                );
            lemma_diffable_entries_index(o, i);
            assert(!o[i].0.contains('['));
            let cp = crate::differ::spec_child_path_key(path, o[i].0);
            lemma_leaf_path_shape(o[i].1, cp, p);
            assert(p.subrange(0, cp.len() as int) == cp);
            if path.len() == 0 {
                assert(p.subrange(0, 0) =~= path);
            } else {
                assert(cp == path + seq!['.'] + o[i].0);
                assert(p.subrange(0, path.len() as int) =~= path) by {
                    assert(forall|m: int|
                        0 <= m < path.len() ==> p.subrange(0, cp.len() as int)[m] == p[m]);
                    assert(forall|m: int| 0 <= m < path.len() ==> cp[m] == path[m]);
                }
                assert(p[path.len() as int] == p.subrange(0, cp.len() as int)[path.len() as int]);
                assert(cp[path.len() as int] == '.');
            }
        },
        JVal::Arr(a) => {
            let i = choose|i: int|
                0 <= i < a.len() && leaf_path_of(
                    #[trigger] a[i],
                    crate::differ::spec_child_path_index(path, i),
                    p,
                );
            lemma_diffable_items_index(a, i);
            let cp = crate::differ::spec_child_path_index(path, i);
            lemma_leaf_path_shape(a[i], cp, p);
            assert(p.subrange(0, cp.len() as int) == cp);
            if path.len() == 0 {
                assert(p.subrange(0, 0) =~= path);
            } else {
                assert(cp == path + seq!['['] + crate::text::spec_dec_u64(i as nat) + seq![']']);
                assert(p.subrange(0, path.len() as int) =~= path) by {
                    assert(forall|m: int|
                        0 <= m < path.len() ==> p.subrange(0, cp.len() as int)[m] == p[m]);
                    assert(forall|m: int| 0 <= m < path.len() ==> cp[m] == path[m]);
                }
                assert(p[path.len() as int] == p.subrange(0, cp.len() as int)[path.len() as int]);
                assert(cp[path.len() as int] == '[');
            }
        },
        _ => {
            assert(p == path);
            assert(p.subrange(0, path.len() as int) =~= path);
        },
    }
}

/// A walk over a value that sits in the other tree at exactly the walked
/// path emits no delta: every leaf below it resolves to itself.
proof fn lemma_walk_located(node: JVal, other: JVal, path: Seq<char>, rev: bool, st: crate::differ::DiffState)
    requires
        diffable(node),
        path.len() > 0,
        crate::differ::spec_lookup(other, path) == Some(node),
    ensures
        crate::differ::spec_walk(node, other, path, rev, st).deltas == st.deltas,
        forall|p: Seq<char>|
            #[trigger] crate::differ::spec_walk(node, other, path, rev, st).paths.contains(p)
                ==> st.paths.contains(p) || leaf_path_of(node, path, p),
    decreases node, 1int, 0int,
{
    match node {
        JVal::Obj(entries) => {
            assert forall|idx: int|
                0 <= idx < entries.len() implies crate::differ::spec_lookup(
                other,
                crate::differ::spec_child_path_key(path, #[trigger] entries[idx].0),
            ) == Some(entries[idx].1) by {
                lemma_diffable_entries_index(entries, idx);
                lemma_member_unique(entries, idx);
                lemma_lookup_member(other, path, entries[idx].0, node);
            }
            lemma_walk_obj_located(entries, other, path, rev, st, 0);
        },
        JVal::Arr(elems) => {
            assert forall|idx: int|
                0 <= idx < elems.len() implies crate::differ::spec_lookup(
                other,
                crate::differ::spec_child_path_index(path, idx),
            ) == Some(#[trigger] elems[idx]) by {
                assert(idx == (idx as usize) as int);
                lemma_lookup_element(other, path, idx as usize, node);
            }
            lemma_walk_arr_located(elems, other, path, rev, st, 0);
        },
        _ => {
            if !st.paths.contains(path) {
                assert forall|p: Seq<char>|
                    crate::differ::spec_walk(node, other, path, rev, st).paths.contains(p)
                        implies st.paths.contains(p) || leaf_path_of(node, path, p) by {
                    if p != path {
                        let w = choose|w: int|
                            0 <= w < st.paths.push(path).len() && st.paths.push(path)[w] == p;
                        assert(st.paths[w] == p);
                    }
                }
            }
        },
    }
}

/// Walking the entries of an object whose remaining children all sit in
/// the other tree at their own paths emits no delta.
proof fn lemma_walk_obj_located(
    entries: Seq<(Seq<char>, JVal)>,
    other: JVal,
    path: Seq<char>,
    rev: bool,
    st: crate::differ::DiffState,
    i: int,
)
    requires
        diffable_entries(entries),
        0 <= i <= entries.len(),
        forall|idx: int|
            i <= idx < entries.len() ==> crate::differ::spec_lookup(
                other,
                crate::differ::spec_child_path_key(path, #[trigger] entries[idx].0),
            ) == Some(entries[idx].1),
    ensures
        crate::differ::spec_walk_obj(entries, other, path, rev, st, i).deltas == st.deltas,
        forall|p: Seq<char>|
            #[trigger] crate::differ::spec_walk_obj(entries, other, path, rev, st, i).paths.contains(
                p,
            ) ==> st.paths.contains(p) || exists|idx: int|
                i <= idx < entries.len() && #[trigger] leaf_path_of(
                    entries[idx].1,
                    crate::differ::spec_child_path_key(path, entries[idx].0),
                    p,
                ),
    decreases entries, 0int, entries.len() - i,
{
    if i < entries.len() {
        lemma_diffable_entries_index(entries, i);
        let key = entries[i].0;
        let child = entries[i].1;
        let cp = crate::differ::spec_child_path_key(path, key);
        assert(crate::differ::spec_lookup(other, cp) == Some(child));
        assert(cp.len() > 0);
        lemma_walk_located(child, other, cp, rev, st);
        let st1 = crate::differ::spec_walk(child, other, cp, rev, st);
        lemma_walk_obj_located(entries, other, path, rev, st1, i + 1);
        assert forall|p: Seq<char>|
            crate::differ::spec_walk_obj(entries, other, path, rev, st, i).paths.contains(p)
                implies st.paths.contains(p) || exists|idx: int|
                i <= idx < entries.len() && leaf_path_of(
                    entries[idx].1,
                    crate::differ::spec_child_path_key(path, entries[idx].0),
                    p,
                ) by {
            if !st.paths.contains(p) {
                if st1.paths.contains(p) {
                    assert(leaf_path_of(child, cp, p));
                    assert(i <= i < entries.len() && leaf_path_of(
                        entries[i].1,
                        crate::differ::spec_child_path_key(path, entries[i].0),
                        p,
                    ));
                } else {
                    let idx = choose|idx: int|
                        i + 1 <= idx < entries.len() && leaf_path_of(
                            #[trigger] entries[idx].1,
                            crate::differ::spec_child_path_key(path, entries[idx].0),
                            p,
                        );
                    assert(i <= idx < entries.len() && leaf_path_of(
                        entries[idx].1,
                        crate::differ::spec_child_path_key(path, entries[idx].0),
                        p,
                    ));
                }
            }
        }
    }
}

/// Walking the elements of an array whose remaining elements all sit in
/// the other tree at their own paths emits no delta.
proof fn lemma_walk_arr_located(
    elems: Seq<JVal>,
    other: JVal,
    path: Seq<char>,
    rev: bool,
    st: crate::differ::DiffState,
    i: int,
)
    requires
        diffable_items(elems),
        0 <= i <= elems.len(),
        forall|idx: int|
            i <= idx < elems.len() ==> crate::differ::spec_lookup(
                other,
                crate::differ::spec_child_path_index(path, idx),
            ) == Some(#[trigger] elems[idx]),
    ensures
        crate::differ::spec_walk_arr(elems, other, path, rev, st, i).deltas == st.deltas,
        forall|p: Seq<char>|
            #[trigger] crate::differ::spec_walk_arr(elems, other, path, rev, st, i).paths.contains(
                p,
            ) ==> st.paths.contains(p) || exists|idx: int|
                i <= idx < elems.len() && #[trigger] leaf_path_of(
                    elems[idx],
                    crate::differ::spec_child_path_index(path, idx),
                    p,
                ),
    decreases elems, 0int, elems.len() - i,
{
    if i < elems.len() {
        lemma_diffable_items_index(elems, i);
        let child = elems[i];
        let cp = crate::differ::spec_child_path_index(path, i);
        assert(crate::differ::spec_lookup(other, cp) == Some(child));
        assert(cp.len() > 0);
        lemma_walk_located(child, other, cp, rev, st);
        let st1 = crate::differ::spec_walk(child, other, cp, rev, st);
        lemma_walk_arr_located(elems, other, path, rev, st1, i + 1);
        assert forall|p: Seq<char>|
            crate::differ::spec_walk_arr(elems, other, path, rev, st, i).paths.contains(p)
                implies st.paths.contains(p) || exists|idx: int|
                i <= idx < elems.len() && leaf_path_of(
                    elems[idx],
                    crate::differ::spec_child_path_index(path, idx),
                    p,
                ) by {
            if !st.paths.contains(p) {
                if st1.paths.contains(p) {
                    assert(leaf_path_of(child, cp, p));
                    assert(i <= i < elems.len() && leaf_path_of(
                        elems[i],
                        crate::differ::spec_child_path_index(path, i),
                        p,
                    ));
                } else {
                    let idx = choose|idx: int|
                        i + 1 <= idx < elems.len() && leaf_path_of(
                            #[trigger] elems[idx],
                            crate::differ::spec_child_path_index(path, idx),
                            p,
                        );
                    assert(i <= idx < elems.len() && leaf_path_of(
                        elems[idx],
                        crate::differ::spec_child_path_index(path, idx),
                        p,
                    ));
                }
            }
        }
    }
}

/// Diffing a tree against itself yields no deltas, provided the tree is a
/// container whose objects all have unique keys without dots or brackets
/// (a key such as `"a.b"` renders to a path that reads back as two
/// segments, so such a tree can disagree with itself).
pub proof fn lemma_no_op_symmetry(a: JVal)
    requires
        diffable(a),
        !crate::value::is_leaf(a),
    ensures
        spec_diff(a, a).deltas == Seq::<DeltaModel>::empty(),
{
    let st0 = crate::differ::DiffState { deltas: Seq::empty(), paths: Seq::empty() };
    let st1 = crate::differ::spec_walk(a, a, Seq::empty(), false, st0);
    match a {
        JVal::Obj(entries) => {
            assert forall|idx: int|
                0 <= idx < entries.len() implies crate::differ::spec_lookup(
                a,
                crate::differ::spec_child_path_key(Seq::empty(), #[trigger] entries[idx].0),
            ) == Some(entries[idx].1) by {
                lemma_diffable_entries_index(entries, idx);
                lemma_member_unique(entries, idx);
                lemma_lookup_member(a, Seq::empty(), entries[idx].0, a);
            }
            lemma_walk_obj_located(entries, a, Seq::empty(), false, st0, 0);
            lemma_walk_obj_located(entries, a, Seq::empty(), true, st1, 0);
        },
        JVal::Arr(elems) => {
            assert forall|idx: int|
                0 <= idx < elems.len() implies crate::differ::spec_lookup(
                a,
                crate::differ::spec_child_path_index(Seq::empty(), idx),
            ) == Some(#[trigger] elems[idx]) by {
                assert(idx == (idx as usize) as int);
                lemma_lookup_element(a, Seq::empty(), idx as usize, a);
            }
            lemma_walk_arr_located(elems, a, Seq::empty(), false, st0, 0);
            lemma_walk_arr_located(elems, a, Seq::empty(), true, st1, 0);
        },
        _ => {
        },
    }
}

/// The round trip on identical trees: replaying the diff of a tree against
/// itself onto that tree reproduces it exactly.
pub proof fn lemma_round_trip_for_equal_trees(a: JVal)
    requires
        diffable(a),
        !crate::value::is_leaf(a),
    ensures
        spec_patch(
            a,
            spec_diff(a, a).deltas,
            PatchOptions { force: false, omit_empty: false },
        ) == Ok::<JVal, crate::errors::ProcessError>(a),
{
    lemma_no_op_symmetry(a);
    let options = PatchOptions { force: false, omit_empty: false };
    assert(spec_apply_deltas(a, spec_diff(a, a).deltas, 0, options) == Ok::<
        JVal,
        crate::errors::ProcessError,
    >(a));
}

/// A walk never forgets a classified path.
proof fn lemma_walk_paths_monotone(
    node: JVal,
    other: JVal,
    path: Seq<char>,
    rev: bool,
    st: crate::differ::DiffState,
)
    ensures
        forall|p: Seq<char>|
            st.paths.contains(p) ==> #[trigger] crate::differ::spec_walk(
                node,
                other,
                path,
                rev,
                st,
            ).paths.contains(p),
    decreases node, 1int, 0int,
{
    match node {
        JVal::Obj(entries) => {
            lemma_walk_obj_paths_monotone(entries, other, path, rev, st, 0);
            assert forall|p: Seq<char>|
                st.paths.contains(p) implies crate::differ::spec_walk(
                node,
                other,
                path,
                rev,
                st,
            ).paths.contains(p) by {
                assert(crate::differ::spec_walk_obj(entries, other, path, rev, st, 0).paths.contains(
                    p,
                ));
            }
        },
        JVal::Arr(elems) => {
            lemma_walk_arr_paths_monotone(elems, other, path, rev, st, 0);
            assert forall|p: Seq<char>|
                st.paths.contains(p) implies crate::differ::spec_walk(
                node,
                other,
                path,
                rev,
                st,
            ).paths.contains(p) by {
                assert(crate::differ::spec_walk_arr(elems, other, path, rev, st, 0).paths.contains(
                    p,
                ));
            }
        },
        _ => {
            assert forall|p: Seq<char>|
                st.paths.contains(p) implies crate::differ::spec_walk(
                node,
                other,
                path,
                rev,
                st,
            ).paths.contains(p) by {
                if !st.paths.contains(path) {
                    let w = choose|w: int| 0 <= w < st.paths.len() && st.paths[w] == p;
                    assert(st.paths.push(path)[w] == p);
                }
            }
        },
    }
}

proof fn lemma_walk_obj_paths_monotone(
    entries: Seq<(Seq<char>, JVal)>,
    other: JVal,
    path: Seq<char>,
    rev: bool,
    st: crate::differ::DiffState,
    i: int,
)
    requires
        0 <= i <= entries.len(),
    ensures
        forall|p: Seq<char>|
            st.paths.contains(p) ==> #[trigger] crate::differ::spec_walk_obj(
                entries,
                other,
                path,
                rev,
                st,
                i,
            ).paths.contains(p),
    decreases entries, 0int, entries.len() - i,
{
    if i < entries.len() {
        let cp = crate::differ::spec_child_path_key(path, entries[i].0);
        lemma_walk_paths_monotone(entries[i].1, other, cp, rev, st);
        let st1 = crate::differ::spec_walk(entries[i].1, other, cp, rev, st);
        lemma_walk_obj_paths_monotone(entries, other, path, rev, st1, i + 1);
        assert forall|p: Seq<char>|
            st.paths.contains(p) implies crate::differ::spec_walk_obj(
            entries,
            other,
            path,
            rev,
            st,
            i,
        ).paths.contains(p) by {
            assert(crate::differ::spec_walk(entries[i].1, other, cp, rev, st).paths.contains(p));
            assert(crate::differ::spec_walk_obj(entries, other, path, rev, st1, i + 1).paths.contains(
                p,
            ));
        }
    }
}

proof fn lemma_walk_arr_paths_monotone(
    elems: Seq<JVal>,
    other: JVal,
    path: Seq<char>,
    rev: bool,
    st: crate::differ::DiffState,
    i: int,
)
    requires
        0 <= i <= elems.len(),
    ensures
        forall|p: Seq<char>|
            st.paths.contains(p) ==> #[trigger] crate::differ::spec_walk_arr(
                elems,
                other,
                path,
                rev,
                st,
                i,
            ).paths.contains(p),
    decreases elems, 0int, elems.len() - i,
{
    if i < elems.len() {
        let cp = crate::differ::spec_child_path_index(path, i);
        lemma_walk_paths_monotone(elems[i], other, cp, rev, st);
        let st1 = crate::differ::spec_walk(elems[i], other, cp, rev, st);
        lemma_walk_arr_paths_monotone(elems, other, path, rev, st1, i + 1);
        assert forall|p: Seq<char>|
            st.paths.contains(p) implies crate::differ::spec_walk_arr(
            elems,
            other,
            path,
            rev,
            st,
            i,
        ).paths.contains(p) by {
            assert(crate::differ::spec_walk(elems[i], other, cp, rev, st).paths.contains(p));
            assert(crate::differ::spec_walk_arr(elems, other, path, rev, st1, i + 1).paths.contains(
                p,
            ));
        }
    }
}

/// The path of a fresh top-level key is no leaf path of any subtree that
/// hangs under a different plain key.
proof fn lemma_fresh_leaf_path_clash(key: Seq<char>, k: Seq<char>, sub: JVal, p: Seq<char>)
    requires
        plain_key(key),
        plain_key(k),
        key != k,
        diffable(sub),
        leaf_path_of(sub, seq!['$', '.'] + key, p),
    ensures
        p != seq!['$', '.'] + k,
{
    let cp = seq!['$', '.'] + key;
    lemma_leaf_path_shape(sub, cp, p);
    if p == seq!['$', '.'] + k {
        if p.len() == cp.len() {
            assert(p.subrange(0, cp.len() as int) =~= p);
            assert(p == cp);
            assert(k =~= key) by {
                assert(k.len() == key.len());
                assert(forall|m: int| 0 <= m < k.len() ==> p[m + 2] == k[m]);
                assert(forall|m: int| 0 <= m < key.len() ==> cp[m + 2] == key[m]);
            }
        } else {
            assert(p.len() > cp.len());
            assert(k.len() > key.len());
            let q = p.subrange(0, cp.len() as int);
            assert(q == cp);
            assert(p[cp.len() as int] == k[key.len() as int]);
            if p[cp.len() as int] == '.' {
                assert(0 <= key.len() < k.len() && k[key.len() as int] == '.');
                assert(k.contains('.'));
            } else {
                assert(p[cp.len() as int] == '[');
                assert(0 <= key.len() < k.len() && k[key.len() as int] == '[');
                assert(k.contains('['));
            }
        }
    }
}

/// The reverse diff pass over an object extended by one fresh leaf entry
/// emits exactly one add delta, for that entry's path.
proof fn lemma_pass2_fresh(
    o: Seq<(Seq<char>, JVal)>,
    k: Seq<char>,
    v: JVal,
    st: crate::differ::DiffState,
    i: int,
)
    requires
        unique_keys(o),
        diffable_entries(o),
        plain_key(k),
        crate::value::is_leaf(v),
        forall|j: int| 0 <= j < o.len() ==> (#[trigger] o[j].0) != k,
        0 <= i <= o.len(),
        !st.paths.contains(seq!['$', '.'] + k),
    ensures
        crate::differ::spec_walk_obj(
            o.push((k, v)),
            JVal::Obj(o),
            Seq::empty(),
            true,
            st,
            i,
        ).deltas == st.deltas.push(
            DeltaModel {
                op: crate::delta::Operation::Add,
                path: seq!['$', '.'] + k,
                old: JVal::Null,
                new: v,
            },
        ),
    decreases o.len() - i,
{
    let entries = o.push((k, v));
    let a = JVal::Obj(o);
    let fresh = seq!['$', '.'] + k;
    if i == o.len() {
        assert(entries[i] == (k, v));
        let cp = crate::differ::spec_child_path_key(Seq::empty(), k);
        assert(cp == fresh);
        lemma_lookup_member(a, Seq::empty(), k, a);
        crate::value::lemma_find_key_range(o, k, 0, o.len() as int);
        assert(crate::differ::obj_member(a, k) is None);
        let st1 = crate::differ::spec_walk(v, a, cp, true, st);
        assert(st1.deltas == st.deltas.push(
            DeltaModel {
                op: crate::delta::Operation::Add,
                path: fresh,
                old: JVal::Null,
                new: v,
            },
        ));
        assert(crate::differ::spec_walk_obj(entries, a, Seq::empty(), true, st1, i + 1) == st1);
    } else {
        lemma_diffable_entries_index(o, i);
        lemma_member_unique(o, i);
        lemma_lookup_member(a, Seq::empty(), o[i].0, a);
        assert(entries[i] == o[i]);
        let cp = crate::differ::spec_child_path_key(Seq::empty(), o[i].0);
        assert(crate::differ::spec_lookup(a, cp) == Some(o[i].1));
        assert(cp.len() > 0);
        lemma_walk_located(o[i].1, a, cp, true, st);
        let st1 = crate::differ::spec_walk(o[i].1, a, cp, true, st);
        assert(!st1.paths.contains(fresh)) by {
            if st1.paths.contains(fresh) {
                assert(leaf_path_of(o[i].1, cp, fresh));
                lemma_fresh_leaf_path_clash(o[i].0, k, o[i].1, fresh);
            }
        }
        lemma_pass2_fresh(o, k, v, st1, i + 1);
    }
}

/// One full round trip beyond the identity: extending an object by one
/// fresh leaf entry, the diff of the base against the extended tree is a
/// single add delta at the new key's path, and replaying it onto the base
/// rebuilds the extended tree exactly.
pub proof fn lemma_round_trip_added_leaf(a: JVal, k: Seq<char>, v: JVal)
    requires
        a is Obj,
        diffable(a),
        plain_key(k),
        k != seq!['$'],
        crate::value::is_leaf(v),
        forall|j: int| 0 <= j < a->Obj_0.len() ==> (#[trigger] a->Obj_0[j].0) != k,
    ensures
        ({
            let b = JVal::Obj(a->Obj_0.push((k, v)));
            let one = DeltaModel {
                op: crate::delta::Operation::Add,
                path: seq!['$', '.'] + k,
                old: JVal::Null,
                new: v,
            };
            spec_diff(a, b).deltas == seq![one] && spec_patch(
                a,
                spec_diff(a, b).deltas,
                PatchOptions { force: false, omit_empty: false },
            ) == Ok::<JVal, crate::errors::ProcessError>(b)
        }),
{
    let o = a->Obj_0;
    let b = JVal::Obj(o.push((k, v)));
    let fresh = seq!['$', '.'] + k;
    let one = DeltaModel {
        op: crate::delta::Operation::Add,
        path: fresh,
        old: JVal::Null,
        new: v,
    };
    let st0 = crate::differ::DiffState { deltas: Seq::empty(), paths: Seq::empty() };
    assert forall|idx: int|
        0 <= idx < o.len() implies crate::differ::spec_lookup(
        b,
        crate::differ::spec_child_path_key(Seq::empty(), #[trigger] o[idx].0),
    ) == Some(o[idx].1) by {
        lemma_diffable_entries_index(o, idx);
        lemma_lookup_member(b, Seq::empty(), o[idx].0, b);
        assert(forall|j: int| 0 <= j < idx ==> o.push((k, v))[j].0 != o[idx].0);
        assert(o.push((k, v))[idx].0 == o[idx].0);
        crate::value::lemma_find_key_range(o.push((k, v)), o[idx].0, 0, idx);
    }
    lemma_walk_obj_located(o, b, Seq::empty(), false, st0, 0);
    let st1 = crate::differ::spec_walk(a, b, Seq::empty(), false, st0);
    assert(st1 == crate::differ::spec_walk_obj(o, b, Seq::empty(), false, st0, 0));
    assert(st1.deltas == st0.deltas);
    assert(!st1.paths.contains(fresh)) by {
        if st1.paths.contains(fresh) {
            assert(!st0.paths.contains(fresh));
            let idx = choose|idx: int|
                0 <= idx < o.len() && #[trigger] leaf_path_of(
                    o[idx].1,
                    crate::differ::spec_child_path_key(Seq::empty(), o[idx].0),
                    fresh,
                );
            lemma_diffable_entries_index(o, idx);
            lemma_fresh_leaf_path_clash(o[idx].0, k, o[idx].1, fresh);
        }
    }
    lemma_pass2_fresh(o, k, v, st1, 0);
    assert(crate::differ::spec_walk(b, a, Seq::empty(), true, st1)
        == crate::differ::spec_walk_obj(o.push((k, v)), a, Seq::empty(), true, st1, 0));
    assert(spec_diff(a, b).deltas =~= seq![one]);

    let options = PatchOptions { force: false, omit_empty: false };
    lemma_dollar_segment();
    lemma_split_append_segment(seq!['$'], k, 0);
    assert(fresh =~= seq!['$'] + seq!['.'] + k);
    let segs = seq![seq!['$']].push(k);
    assert(crate::utils::split_dots(fresh) == segs);
    assert(segs.len() == 2);
    assert(segs[0] == seq!['$']);
    assert(segs[1] == k);
    lemma_key_plain(k);
    crate::utils::lemma_no_bracket_no_groups(k, 0);
    let items = crate::utils::spec_analyse(fresh);
    assert(items.len() == 2);
    assert(items[0].key == seq!['$']);
    assert(items[1].key == k);
    assert(items[1].is_array == false);
    assert(items[1].is_last == true);
    crate::value::lemma_find_key_range(o, k, 0, o.len() as int);
    assert(crate::value::obj_set(o, k, v) == o.push((k, v)));
    assert(crate::patcher::spec_set_items(a, items, 0, v, crate::delta::Operation::Add, options)
        == crate::patcher::spec_set_items(a, items, 1, v, crate::delta::Operation::Add, options));
    assert(crate::patcher::spec_set_items(a, items, 1, v, crate::delta::Operation::Add, options)
        == Ok::<JVal, crate::errors::ProcessError>(b));
    let ds = spec_diff(a, b).deltas;
    assert(ds[0] == one);
    assert(crate::patcher::spec_set_by_path(a, fresh, v, crate::delta::Operation::Add, options)
        == Ok::<JVal, crate::errors::ProcessError>(b));
    assert(spec_apply_deltas(b, ds, 1, options) == Ok::<JVal, crate::errors::ProcessError>(b));
    assert(spec_apply_deltas(a, ds, 0, options) == Ok::<JVal, crate::errors::ProcessError>(b));
}

/// The forward diff pass over an object whose entry `i0` changed its leaf
/// value emits exactly one change delta, at that entry's path.
proof fn lemma_pass1_changed(
    o: Seq<(Seq<char>, JVal)>,
    i0: int,
    new_leaf: JVal,
    st: crate::differ::DiffState,
    i: int,
)
    requires
        unique_keys(o),
        diffable_entries(o),
        0 <= i0 < o.len(),
        crate::value::is_leaf(o[i0].1),
        crate::value::is_leaf(new_leaf),
        new_leaf != o[i0].1,
        0 <= i <= o.len(),
        i <= i0 ==> !st.paths.contains(seq!['$', '.'] + o[i0].0),
    ensures
        ({
            let b = JVal::Obj(o.update(i0, (o[i0].0, new_leaf)));
            let one = DeltaModel {
                op: crate::delta::Operation::Change,
                path: seq!['$', '.'] + o[i0].0,
                old: o[i0].1,
                new: new_leaf,
            };
            crate::differ::spec_walk_obj(o, b, Seq::empty(), false, st, i).deltas == if i <= i0 {
                st.deltas.push(one)
            } else {
                st.deltas
            } && (i <= i0 ==> crate::differ::spec_walk_obj(
                o,
                b,
                Seq::empty(),
                false,
                st,
                i,
            ).paths.contains(seq!['$', '.'] + o[i0].0))
        }),
    decreases o.len() - i,
{
    let bo = o.update(i0, (o[i0].0, new_leaf));
    let b = JVal::Obj(bo);
    let path0 = seq!['$', '.'] + o[i0].0;
    if i < o.len() {
        let key = o[i].0;
        let cp = crate::differ::spec_child_path_key(Seq::empty(), key);
        assert(bo[i].0 == o[i].0);
        assert(forall|j: int| 0 <= j < i ==> bo[j].0 != key);
        crate::value::lemma_find_key_range(bo, key, 0, i);
        lemma_diffable_entries_index(o, i);
        lemma_lookup_member(b, Seq::empty(), key, b);
        assert(crate::differ::spec_lookup(b, cp) == Some(bo[i].1));
        if i == i0 {
            assert(bo[i].1 == new_leaf);
            assert(cp == path0);
            let st1 = crate::differ::spec_walk(o[i].1, b, cp, false, st);
            assert(st1.deltas == st.deltas.push(
                DeltaModel {
                    op: crate::delta::Operation::Change,
                    path: path0,
                    old: o[i0].1,
                    new: new_leaf,
                },
            ));
            assert(st1.paths.contains(path0)) by {
                assert(st.paths.push(path0).last() == path0);
            }
            lemma_pass1_changed(o, i0, new_leaf, st1, i + 1);
            lemma_walk_obj_paths_monotone(o, b, Seq::empty(), false, st1, i + 1);
        } else {
            assert(bo[i].1 == o[i].1);
            lemma_diffable_entries_index(o, i);
            assert(cp.len() > 0);
            lemma_walk_located(o[i].1, b, cp, false, st);
            let st1 = crate::differ::spec_walk(o[i].1, b, cp, false, st);
            assert(st1.deltas == st.deltas);
            if i < i0 {
                assert(!st1.paths.contains(path0)) by {
                    if st1.paths.contains(path0) {
                        assert(leaf_path_of(o[i].1, cp, path0));
                        lemma_diffable_entries_index(o, i0);
                        assert(o[i].0 != o[i0].0);
                        lemma_fresh_leaf_path_clash(o[i].0, o[i0].0, o[i].1, path0);
                    }
                }
            }
            lemma_pass1_changed(o, i0, new_leaf, st1, i + 1);
        }
    }
}

/// The reverse diff pass over the changed object against the base adds
/// nothing: the changed path was classified by the forward pass, and every
/// other leaf resolves to itself.
proof fn lemma_pass2_changed(
    o: Seq<(Seq<char>, JVal)>,
    i0: int,
    new_leaf: JVal,
    st: crate::differ::DiffState,
    i: int,
)
    requires
        unique_keys(o),
        diffable_entries(o),
        0 <= i0 < o.len(),
        crate::value::is_leaf(o[i0].1),
        crate::value::is_leaf(new_leaf),
        0 <= i <= o.len(),
        st.paths.contains(seq!['$', '.'] + o[i0].0),
    ensures
        crate::differ::spec_walk_obj(
            o.update(i0, (o[i0].0, new_leaf)),
            JVal::Obj(o),
            Seq::empty(),
            true,
            st,
            i,
        ).deltas == st.deltas,
    decreases o.len() - i,
{
    let bo = o.update(i0, (o[i0].0, new_leaf));
    let a = JVal::Obj(o);
    let path0 = seq!['$', '.'] + o[i0].0;
    if i < o.len() {
        let key = bo[i].0;
        assert(key == o[i].0);
        let cp = crate::differ::spec_child_path_key(Seq::empty(), key);
        if i == i0 {
            assert(cp == path0);
            assert(crate::differ::spec_walk(bo[i].1, a, cp, true, st) == st);
            lemma_pass2_changed(o, i0, new_leaf, st, i + 1);
        } else {
            assert(bo[i].1 == o[i].1);
            lemma_diffable_entries_index(o, i);
            lemma_member_unique(o, i);
            lemma_lookup_member(a, Seq::empty(), key, a);
            assert(crate::differ::spec_lookup(a, cp) == Some(o[i].1));
            assert(cp.len() > 0);
            lemma_walk_located(o[i].1, a, cp, true, st);
            let st1 = crate::differ::spec_walk(o[i].1, a, cp, true, st);
            assert(st1.deltas == st.deltas);
            lemma_walk_paths_monotone(o[i].1, a, cp, true, st);
            assert(st1.paths.contains(path0));
            lemma_pass2_changed(o, i0, new_leaf, st1, i + 1);
        }
    }
}

/// A second full round trip beyond the identity: changing one leaf value
/// of a top-level entry, the diff of the base against the changed tree is
/// a single change delta at that entry's path, and replaying it onto the
/// base rebuilds the changed tree exactly.
pub proof fn lemma_round_trip_changed_leaf(a: JVal, i0: int, new_leaf: JVal)
    requires
        a is Obj,
        diffable(a),
        0 <= i0 < a->Obj_0.len(),
        crate::value::is_leaf(a->Obj_0[i0].1),
        crate::value::is_leaf(new_leaf),
        new_leaf != a->Obj_0[i0].1,
        a->Obj_0[i0].0 != seq!['$'],
    ensures
        ({
            let o = a->Obj_0;
            let b = JVal::Obj(o.update(i0, (o[i0].0, new_leaf)));
            let one = DeltaModel {
                op: crate::delta::Operation::Change,
                path: seq!['$', '.'] + o[i0].0,
                old: o[i0].1,
                new: new_leaf,
            };
            spec_diff(a, b).deltas == seq![one] && spec_patch(
                a,
                spec_diff(a, b).deltas,
                PatchOptions { force: false, omit_empty: false },
            ) == Ok::<JVal, crate::errors::ProcessError>(b)
        }),
{
    let o = a->Obj_0;
    let bo = o.update(i0, (o[i0].0, new_leaf));
    let b = JVal::Obj(bo);
    let key = o[i0].0;
    let path0 = seq!['$', '.'] + key;
    let one = DeltaModel {
        op: crate::delta::Operation::Change,
        path: path0,
        old: o[i0].1,
        new: new_leaf,
    };
    let st0 = crate::differ::DiffState { deltas: Seq::empty(), paths: Seq::empty() };
    lemma_pass1_changed(o, i0, new_leaf, st0, 0);
    let st1 = crate::differ::spec_walk(a, b, Seq::empty(), false, st0);
    assert(st1 == crate::differ::spec_walk_obj(o, b, Seq::empty(), false, st0, 0));
    assert(st1.deltas =~= seq![one]);
    assert(st1.paths.contains(path0));
    lemma_pass2_changed(o, i0, new_leaf, st1, 0);
    assert(crate::differ::spec_walk(b, a, Seq::empty(), true, st1)
        == crate::differ::spec_walk_obj(bo, a, Seq::empty(), true, st1, 0));
    assert(spec_diff(a, b).deltas =~= seq![one]);

    lemma_diffable_entries_index(o, i0);
    let options = PatchOptions { force: false, omit_empty: false };
    lemma_dollar_segment();
    lemma_split_append_segment(seq!['$'], key, 0);
    assert(path0 =~= seq!['$'] + seq!['.'] + key);
    let segs = seq![seq!['$']].push(key);
    assert(crate::utils::split_dots(path0) == segs);
    assert(segs.len() == 2);
    assert(segs[0] == seq!['$']);
    assert(segs[1] == key);
    lemma_key_plain(key);
    crate::utils::lemma_no_bracket_no_groups(key, 0);
    let items = crate::utils::spec_analyse(path0);
    assert(items.len() == 2);
    assert(items[0].key == seq!['$']);
    assert(items[1].key == key);
    assert(items[1].is_array == false);
    assert(items[1].is_last == true);
    lemma_member_unique(o, i0);
    assert(crate::value::obj_set(o, key, new_leaf) == bo);
    assert(crate::patcher::spec_set_items(
        a,
        items,
        0,
        new_leaf,
        crate::delta::Operation::Change,
        options,
    ) == crate::patcher::spec_set_items(
        a,
        items,
        1,
        new_leaf,
        crate::delta::Operation::Change,
        options,
    ));
    assert(crate::patcher::spec_set_items(
        a,
        items,
        1,
        new_leaf,
        crate::delta::Operation::Change,
        options,
    ) == Ok::<JVal, crate::errors::ProcessError>(b));
    let ds = spec_diff(a, b).deltas;
    assert(ds[0] == one);
    assert(crate::patcher::spec_set_by_path(
        a,
        path0,
        new_leaf,
        crate::delta::Operation::Change,
        options,
    ) == Ok::<JVal, crate::errors::ProcessError>(b));
    assert(spec_apply_deltas(b, ds, 1, options) == Ok::<JVal, crate::errors::ProcessError>(b));
    assert(spec_apply_deltas(a, ds, 0, options) == Ok::<JVal, crate::errors::ProcessError>(b));
}

/// The forward diff pass over an object against the same object less its
/// entry `i0` (a leaf) emits exactly one delete delta, at that entry's
/// path.
proof fn lemma_pass1_deleted(o: Seq<(Seq<char>, JVal)>, i0: int, st: crate::differ::DiffState, i: int)
    requires
        unique_keys(o),
        diffable_entries(o),
        0 <= i0 < o.len(),
        crate::value::is_leaf(o[i0].1),
        0 <= i <= o.len(),
        i <= i0 ==> !st.paths.contains(seq!['$', '.'] + o[i0].0),
    ensures
        ({
            let b = JVal::Obj(o.remove(i0));
            let one = DeltaModel {
                op: crate::delta::Operation::Delete,
                path: seq!['$', '.'] + o[i0].0,
                old: o[i0].1,
                new: JVal::Null,
            };
            crate::differ::spec_walk_obj(o, b, Seq::empty(), false, st, i).deltas == if i <= i0 {
                st.deltas.push(one)
            } else {
                st.deltas
            }
        }),
    decreases o.len() - i,
{
    let removed = o.remove(i0);
    let b = JVal::Obj(removed);
    let path0 = seq!['$', '.'] + o[i0].0;
    if i < o.len() {
        let key = o[i].0;
        let cp = crate::differ::spec_child_path_key(Seq::empty(), key);
        lemma_diffable_entries_index(o, i);
        lemma_lookup_member(b, Seq::empty(), key, b);
        if i == i0 {
            assert(cp == path0);
            assert(forall|m: int| 0 <= m < removed.len() ==> (#[trigger] removed[m]).0 != key) by {
                assert(forall|m: int| 0 <= m < i0 ==> (#[trigger] removed[m]) == o[m]);
                assert(forall|m: int|
                    i0 <= m < removed.len() ==> (#[trigger] removed[m]) == o[m + 1]);
            }
            crate::value::lemma_find_key_range(removed, key, 0, removed.len() as int);
            assert(crate::differ::obj_member(b, key) is None);
            let st1 = crate::differ::spec_walk(o[i].1, b, cp, false, st);
            assert(st1.deltas == st.deltas.push(
                DeltaModel {
                    op: crate::delta::Operation::Delete,
                    path: path0,
                    old: o[i0].1,
                    new: JVal::Null,
                },
            ));
            lemma_pass1_deleted(o, i0, st1, i + 1);
        } else {
            let pos = if i < i0 {
                i
            } else {
                i - 1
            };
            assert(removed[pos] == o[i]) by {
                assert(forall|m: int| 0 <= m < i0 ==> (#[trigger] removed[m]) == o[m]);
                assert(forall|m: int|
                    i0 <= m < removed.len() ==> (#[trigger] removed[m]) == o[m + 1]);
            }
            assert(forall|m: int| 0 <= m < pos ==> (#[trigger] removed[m]).0 != key) by {
                assert(forall|m: int| 0 <= m < i0 ==> (#[trigger] removed[m]) == o[m]);
                assert(forall|m: int|
                    i0 <= m < removed.len() ==> (#[trigger] removed[m]) == o[m + 1]);
            }
            crate::value::lemma_find_key_range(removed, key, 0, pos);
            assert(crate::differ::obj_member(b, key) == Some(o[i].1));
            assert(crate::differ::spec_lookup(b, cp) == Some(o[i].1));
            assert(cp.len() > 0);
            lemma_walk_located(o[i].1, b, cp, false, st);
            let st1 = crate::differ::spec_walk(o[i].1, b, cp, false, st);
            assert(st1.deltas == st.deltas);
            if i < i0 {
                assert(!st1.paths.contains(path0)) by {
                    if st1.paths.contains(path0) {
                        assert(leaf_path_of(o[i].1, cp, path0));
                        lemma_diffable_entries_index(o, i0);
                        assert(o[i].0 != o[i0].0);
                        lemma_fresh_leaf_path_clash(o[i].0, o[i0].0, o[i].1, path0);
                    }
                }
            }
            lemma_pass1_deleted(o, i0, st1, i + 1);
        }
    }
}

/// A third full round trip beyond the identity: deleting one top-level
/// leaf entry, the diff of the base against the shrunken tree is a single
/// delete delta at that entry's path, and replaying it onto the base
/// rebuilds the shrunken tree exactly.
pub proof fn lemma_round_trip_deleted_leaf(a: JVal, i0: int)
    requires
        a is Obj,
        diffable(a),
        0 <= i0 < a->Obj_0.len(),
        crate::value::is_leaf(a->Obj_0[i0].1),
        a->Obj_0[i0].0 != seq!['$'],
    ensures
        ({
            let o = a->Obj_0;
            let b = JVal::Obj(o.remove(i0));
            let one = DeltaModel {
                op: crate::delta::Operation::Delete,
                path: seq!['$', '.'] + o[i0].0,
                old: o[i0].1,
                new: JVal::Null,
            };
            spec_diff(a, b).deltas == seq![one] && spec_patch(
                a,
                spec_diff(a, b).deltas,
                PatchOptions { force: false, omit_empty: false },
            ) == Ok::<JVal, crate::errors::ProcessError>(b)
        }),
{
    let o = a->Obj_0;
    let removed = o.remove(i0);
    let b = JVal::Obj(removed);
    let key = o[i0].0;
    let path0 = seq!['$', '.'] + key;
    let one = DeltaModel {
        op: crate::delta::Operation::Delete,
        path: path0,
        old: o[i0].1,
        new: JVal::Null,
    };
    let st0 = crate::differ::DiffState { deltas: Seq::empty(), paths: Seq::empty() };
    lemma_pass1_deleted(o, i0, st0, 0);
    let st1 = crate::differ::spec_walk(a, b, Seq::empty(), false, st0);
    assert(st1 == crate::differ::spec_walk_obj(o, b, Seq::empty(), false, st0, 0));
    assert(st1.deltas =~= seq![one]);
    assert(forall|m: int| 0 <= m < i0 ==> (#[trigger] removed[m]) == o[m]);
    assert(forall|m: int| i0 <= m < removed.len() ==> (#[trigger] removed[m]) == o[m + 1]);
    assert forall|idx: int|
        0 <= idx < removed.len() implies plain_key((#[trigger] removed[idx]).0) && diffable(
        removed[idx].1,
    ) by {
        if idx < i0 {
            lemma_diffable_entries_index(o, idx);
        } else {
            lemma_diffable_entries_index(o, idx + 1);
        }
    }
    lemma_diffable_entries_build(removed);
    assert forall|idx: int|
        0 <= idx < removed.len() implies crate::differ::spec_lookup(
        a,
        crate::differ::spec_child_path_key(Seq::empty(), #[trigger] removed[idx].0),
    ) == Some(removed[idx].1) by {
        let orig = if idx < i0 {
            idx
        } else {
            idx + 1
        };
        assert(removed[idx] == o[orig]);
        lemma_diffable_entries_index(o, orig);
        lemma_member_unique(o, orig);
        lemma_lookup_member(a, Seq::empty(), o[orig].0, a);
    }
    lemma_walk_obj_located(removed, a, Seq::empty(), true, st1, 0);
    assert(crate::differ::spec_walk(b, a, Seq::empty(), true, st1)
        == crate::differ::spec_walk_obj(removed, a, Seq::empty(), true, st1, 0));
    assert(spec_diff(a, b).deltas =~= seq![one]);

    lemma_diffable_entries_index(o, i0);
    let options = PatchOptions { force: false, omit_empty: false };
    lemma_dollar_segment();
    lemma_split_append_segment(seq!['$'], key, 0);
    assert(path0 =~= seq!['$'] + seq!['.'] + key);
    let segs = seq![seq!['$']].push(key);
    assert(crate::utils::split_dots(path0) == segs);
    assert(segs.len() == 2);
    assert(segs[0] == seq!['$']);
    assert(segs[1] == key);
    lemma_key_plain(key);
    crate::utils::lemma_no_bracket_no_groups(key, 0);
    let items = crate::utils::spec_analyse(path0);
    assert(items.len() == 2);
    assert(items[0].key == seq!['$']);
    assert(items[1].key == key);
    assert(items[1].is_array == false);
    assert(items[1].is_last == true);
    lemma_member_unique(o, i0);
    assert(crate::patcher::spec_set_items(
        a,
        items,
        0,
        JVal::Null,
        crate::delta::Operation::Delete,
        options,
    ) == crate::patcher::spec_set_items(
        a,
        items,
        1,
        JVal::Null,
        crate::delta::Operation::Delete,
        options,
    ));
    assert(crate::patcher::spec_set_items(
        a,
        items,
        1,
        JVal::Null,
        crate::delta::Operation::Delete,
        options,
    ) == Ok::<JVal, crate::errors::ProcessError>(b));
    let ds = spec_diff(a, b).deltas;
    assert(ds[0] == one);
    assert(crate::patcher::spec_set_by_path(
        a,
        path0,
        JVal::Null,
        crate::delta::Operation::Delete,
        options,
    ) == Ok::<JVal, crate::errors::ProcessError>(b));
    assert(spec_apply_deltas(b, ds, 1, options) == Ok::<JVal, crate::errors::ProcessError>(b));
    assert(spec_apply_deltas(a, ds, 0, options) == Ok::<JVal, crate::errors::ProcessError>(b));
}

} // verus!
