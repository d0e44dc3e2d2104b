//! Compact JSON text for a `Value`.
//!
//! The delta fingerprint covers the textual rendering of the old and the new
//! value, so the rendering is part of the library's contract: `render_val`
//! produces the canonical compact form (no spaces, `\u00..` escapes for
//! control characters, decimal integers).
use crate::text::{i64_to_string, push_char, spec_dec_i64};
use crate::value::{JVal, Value};
use vstd::prelude::*;

verus! {

/// The lower-case hexadecimal digit for a value below sixteen.
pub open spec fn spec_hex_char(d: nat) -> char {
    if d == 0 {
        '0'
    } else if d == 1 {
        '1'
    } else if d == 2 {
        '2'
    } else if d == 3 {
        '3'
    } else if d == 4 {
        '4'
    } else if d == 5 {
        '5'
    } else if d == 6 {
        '6'
    } else if d == 7 {
        '7'
    } else if d == 8 {
        '8'
    } else if d == 9 {
        '9'
    } else if d == 10 {
        'a'
    } else if d == 11 {
        'b'
    } else if d == 12 {
        'c'
    } else if d == 13 {
        'd'
    } else if d == 14 {
        'e'
    } else {
        'f'
    }
}

/// How one character appears inside a JSON string literal: quotes and
/// backslashes are escaped, the named control characters use their short
/// escapes, all other control characters use a `\u00..` escape, and
/// everything else stands for itself.
pub open spec fn spec_escape_char(c: char) -> Seq<char> {
    if c == '"' {
        seq!['\\', '"']
    } else if c == '\\' {
        seq!['\\', '\\']
    } else if c == '\u{8}' {
        seq!['\\', 'b']
    } else if c == '\t' {
        seq!['\\', 't']
    } else if c == '\n' {
        seq!['\\', 'n']
    } else if c == '\u{c}' {
        seq!['\\', 'f']
    } else if c == '\r' {
        seq!['\\', 'r']
    } else if (c as u32) < 32 {
        seq!['\\', 'u', '0', '0', spec_hex_char((c as u32 / 16) as nat), spec_hex_char(
            (c as u32 % 16) as nat,
        )]
    } else {
        seq![c]
    }
}

/// The body of a JSON string literal for the given characters.
pub open spec fn spec_escape(s: Seq<char>) -> Seq<char>
    decreases s.len(),
{
    if s.len() == 0 {
        Seq::empty()
    } else {
        spec_escape(s.drop_last()) + spec_escape_char(s.last())
    }
}

/// A complete JSON string literal: quote, escaped body, quote.
pub open spec fn spec_quoted(s: Seq<char>) -> Seq<char> {
    seq!['"'] + spec_escape(s) + seq!['"']
}

/// The compact JSON text of a model value.
pub open spec fn spec_render(j: JVal) -> Seq<char>
    decreases j, 0int,
{
    match j {
        JVal::Null => seq!['n', 'u', 'l', 'l'],
        JVal::Bool(b) => if b {
            seq!['t', 'r', 'u', 'e']
        } else {
            seq!['f', 'a', 'l', 's', 'e']
        },
        JVal::Int(n) => spec_dec_i64(n),
        JVal::Str(s) => spec_quoted(s),
        JVal::Arr(a) => seq!['['] + spec_render_items(a) + seq![']'],
        JVal::Obj(o) => seq!['{'] + spec_render_entries(o) + seq!['}'],
    }
}

/// Comma-separated renderings of array elements.
pub open spec fn spec_render_items(a: Seq<JVal>) -> Seq<char>
    decreases a, a.len(),
{
    if a.len() == 0 {
        Seq::empty()
    } else if a.len() == 1 {
        spec_render(a[0])
    } else {
        spec_render_items(a.drop_last()) + seq![','] + spec_render(a.last())
    }
}

/// Comma-separated `"key":value` renderings of object entries.
pub open spec fn spec_render_entries(o: Seq<(Seq<char>, JVal)>) -> Seq<char>
    decreases o, o.len(),
{
    if o.len() == 0 {
        Seq::empty()
    } else if o.len() == 1 {
        spec_quoted(o[0].0) + seq![':'] + spec_render(o[0].1)
    } else {
        spec_render_entries(o.drop_last()) + seq![','] + spec_quoted(o.last().0) + seq![':']
            + spec_render(o.last().1)
    }
}

fn hex_char(d: u32) -> (c: char)
    requires
        d < 16,
    ensures
        c == spec_hex_char(d as nat),
{
    if d == 0 {
        '0'
    } else if d == 1 {
        '1'
    } else if d == 2 {
        '2'
    } else if d == 3 {
        '3'
    } else if d == 4 {
        '4'
    } else if d == 5 {
        '5'
    } else if d == 6 {
        '6'
    } else if d == 7 {
        '7'
    } else if d == 8 {
        '8'
    } else if d == 9 {
        '9'
    } else if d == 10 {
        'a'
    } else if d == 11 {
        'b'
    } else if d == 12 {
        'c'
    } else if d == 13 {
        'd'
    } else if d == 14 {
        'e'
    } else {
        'f'
    }
}

/// Appends the escaped form of one character.
fn push_escaped_char(out: &mut String, c: char)
    ensures
        final(out)@ == old(out)@ + spec_escape_char(c),
{
    if c == '"' {
        push_char(out, '\\');
        push_char(out, '"');
    } else if c == '\\' {
        push_char(out, '\\');
        push_char(out, '\\');
    } else if c == '\u{8}' {
        push_char(out, '\\');
        push_char(out, 'b');
    } else if c == '\t' {
        push_char(out, '\\');
        push_char(out, 't');
    } else if c == '\n' {
        push_char(out, '\\');
        push_char(out, 'n');
    } else if c == '\u{c}' {
        push_char(out, '\\');
        push_char(out, 'f');
    } else if c == '\r' {
        push_char(out, '\\');
        push_char(out, 'r');
    } else if (c as u32) < 32 {
        push_char(out, '\\');
        push_char(out, 'u');
        push_char(out, '0');
        push_char(out, '0');
        push_char(out, hex_char((c as u32) / 16));
        push_char(out, hex_char((c as u32) % 16));
    } else {
        push_char(out, c);
    }
    proof {
        assert(final(out)@ =~= old(out)@ + spec_escape_char(c));
    }
}

/// Appends a complete JSON string literal for the given characters.
#[verifier::loop_isolation(false)]
pub fn push_quoted(out: &mut String, s: &str)
    ensures
        final(out)@ == old(out)@ + spec_quoted(s@),
{
    push_char(out, '"');
    let len = s.unicode_len();
    let mut i: usize = 0;
    while i < len
        invariant
            i <= len,
            out@ == old(out)@ + seq!['"'] + spec_escape(s@.take(i as int)),
        decreases len - i,
    {
        let c = s.get_char(i);
        push_escaped_char(out, c);
        proof {
            let t = s@.take(i + 1int);
            assert(t.drop_last() =~= s@.take(i as int));
            assert(t.last() == c);
            assert(out@ =~= old(out)@ + seq!['"'] + spec_escape(s@.take(i + 1int)));
        }
        i = i + 1;
    }
    push_char(out, '"');
    proof {
        assert(s@.take(len as int) =~= s@);
        assert(final(out)@ =~= old(out)@ + spec_quoted(s@));
    }
}

/// The compact JSON text of a value, as fed into the delta fingerprint.
#[verifier::loop_isolation(false)]
pub fn render_val(v: &Value) -> (r: String)
    ensures
        r@ == spec_render(v@),
    decreases *v,
{
    match v {
        Value::Null => {
            let r = String::from_str("null");
            proof {
                reveal_strlit("null");
                assert(r@ =~= spec_render(v@));
            }
            r
        },
        Value::Bool(b) => {
            if *b {
                let r = String::from_str("true");
                proof {
                    reveal_strlit("true");
                    assert(r@ =~= spec_render(v@));
                }
                r
            } else {
                let r = String::from_str("false");
                proof {
                    reveal_strlit("false");
                    assert(r@ =~= spec_render(v@));
                }
                r
            }
        },
        Value::Number(n) => i64_to_string(*n),
        Value::Text(s) => {
            let mut out = String::new();
            push_quoted(&mut out, s.as_str());
            proof {
                assert(out@ =~= spec_render(v@));
            }
            out
        },
        Value::Array(a) => {
            let ghost m = v@->Arr_0;
            let mut out = String::new();
            push_char(&mut out, '[');
            let mut i: usize = 0;
            while i < a.len()
                invariant
                    i <= a.len(),
                    m.len() == a@.len(),
                    forall|k: int| 0 <= k < a@.len() ==> m[k] == #[trigger] a@[k]@,
                    out@ == seq!['['] + spec_render_items(m.take(i as int)),
                decreases a.len() - i,
            {
                if i > 0 {
                    push_char(&mut out, ',');
                }
                let piece = render_val(&a[i]);
                out.append(piece.as_str());
                proof {
                    let t = m.take(i + 1int);
                    assert(t.drop_last() =~= m.take(i as int));
                    assert(t.last() == m[i as int]);
                    if i == 0 {
                        assert(spec_render_items(t) == spec_render(m[0]));
                    }
                    assert(out@ =~= seq!['['] + spec_render_items(m.take(i + 1int)));
                }
                i = i + 1;
            }
            push_char(&mut out, ']');
            proof {
                assert(m.take(a@.len() as int) =~= m);
                assert(out@ =~= spec_render(v@));
            }
            out
        },
        Value::Object(o) => {
            let ghost m = v@->Obj_0;
            let mut out = String::new();
            push_char(&mut out, '{');
            let mut i: usize = 0;
            while i < o.len()
                invariant
                    i <= o.len(),
                    m.len() == o@.len(),
                    forall|k: int| 0 <= k < o@.len() ==> #[trigger] m[k].0 == o@[k].0@,
                    forall|k: int| 0 <= k < o@.len() ==> #[trigger] m[k].1 == o@[k].1@,
                    out@ == seq!['{'] + spec_render_entries(m.take(i as int)),
                decreases o.len() - i,
            {
                if i > 0 {
                    push_char(&mut out, ',');
                }
                let pair = &o[i];
                push_quoted(&mut out, pair.0.as_str());
                push_char(&mut out, ':');
                let piece = render_val(&pair.1);
                out.append(piece.as_str());
                proof {
                    let t = m.take(i + 1int);
                    assert(t.drop_last() =~= m.take(i as int));
                    assert(t.last() == m[i as int]);
                    if i == 0 {
                        assert(spec_render_entries(t) == spec_quoted(m[0].0) + seq![':']
                            + spec_render(m[0].1));
                    }
                    assert(out@ =~= seq!['{'] + spec_render_entries(m.take(i + 1int)));
                }
                i = i + 1;
            }
            push_char(&mut out, '}');
            proof {
                assert(m.take(o@.len() as int) =~= m);
                assert(out@ =~= spec_render(v@));
            }
            out
        },
    }
}

} // verus!
