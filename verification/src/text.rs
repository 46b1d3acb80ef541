//! Canonical textual representation of values.
//!
//! A value that is not rendered verbatim is rendered as its JSON text:
//! `null`, `true`/`false`, decimal numbers, quoted strings with the usual
//! JSON escapes, and bracketed arrays and braced objects with `,` and `:`
//! separators and no whitespace.

use vstd::prelude::*;
use crate::values::{Value, Val, arr_model, obj_model, group_value_model};

verus! {

/// The decimal digit character for `d`.
pub open spec fn digit_char(d: nat) -> char {
    if d == 0 {
        '0'
    } else if d == 1 {
        '1'
    } else if d == 2 {
        '2'
    } else if d == 3 {
        '3'
    } else if d == 4 {
        '4'
    } else if d == 5 {
        '5'
    } else if d == 6 {
        '6'
    } else if d == 7 {
        '7'
    } else if d == 8 {
        '8'
    } else {
        '9'
    }
}

/// The lower-case hexadecimal digit character for `d`.
pub open spec fn hex_char(d: nat) -> char {
    if d < 10 {
        digit_char(d)
    } else if d == 10 {
        'a'
    } else if d == 11 {
        'b'
    } else if d == 12 {
        'c'
    } else if d == 13 {
        'd'
    } else if d == 14 {
        'e'
    } else {
        'f'
    }
}

/// The decimal digits of `n`, most significant first.
pub open spec fn dec_digits(n: nat) -> Seq<char>
    decreases n,
{
    if n < 10 {
        seq![digit_char(n)]
    } else {
        dec_digits(n / 10).push(digit_char(n % 10))
    }
}

/// The decimal text of `n`, with a leading `-` when negative.
pub open spec fn int_text(n: int) -> Seq<char> {
    if n < 0 {
        seq!['-'] + dec_digits((-n) as nat)
    } else {
        dec_digits(n as nat)
    }
}

/// Whether JSON text must escape `c` inside a string.
pub open spec fn must_escape(c: char) -> bool {
    c == '"' || c == '\\' || (c as nat) < 0x20
}

/// The JSON escape of one character: named escapes for the common control
/// characters, `\u00` and two hex digits for the rest, the character itself
/// when no escape is needed.
pub open spec fn esc_char(c: char) -> Seq<char> {
    if c == '"' {
        seq!['\\', '"']
    } else if c == '\\' {
        seq!['\\', '\\']
    } else if c == '\u{8}' {
        seq!['\\', 'b']
    } else if c == '\t' {
        seq!['\\', 't']
    } else if c == '\n' {
        seq!['\\', 'n']
    } else if c == '\u{c}' {
        seq!['\\', 'f']
    } else if c == '\r' {
        seq!['\\', 'r']
    } else if (c as nat) < 0x20 {
        seq!['\\', 'u', '0', '0', hex_char((c as nat) / 16), hex_char((c as nat) % 16)]
    } else {
        seq![c]
    }
}

/// The JSON escape of a whole string body.
pub open spec fn esc_seq(s: Seq<char>) -> Seq<char>
    decreases s.len(),
{
    if s.len() == 0 {
        Seq::empty()
    } else {
        esc_char(s[0]) + esc_seq(s.skip(1))
    }
}

/// The JSON text of a string: quoted and escaped.
pub open spec fn json_str_text(s: Seq<char>) -> Seq<char> {
    seq!['"'] + esc_seq(s) + seq!['"']
}

/// The JSON text of a value.
pub open spec fn json_text(v: Val) -> Seq<char>
    decreases v,
{
    match v {
        Val::Null => seq!['n', 'u', 'l', 'l'],
        Val::Bool(b) => if b {
            seq!['t', 'r', 'u', 'e']
        } else {
            seq!['f', 'a', 'l', 's', 'e']
        },
        Val::Num(n) => int_text(n),
        Val::Str(s) => json_str_text(s),
        Val::Arr(items) => seq!['['] + json_items_text(items) + seq![']'],
        Val::Obj(fields) => seq!['{'] + json_fields_text(fields) + seq!['}'],
    }
}

/// The comma-separated JSON texts of an array's elements.
pub open spec fn json_items_text(items: Seq<Val>) -> Seq<char>
    decreases items,
{
    if items.len() == 0 {
        Seq::empty()
    } else if items.len() == 1 {
        json_text(items[0])
    } else {
        json_text(items[0]) + seq![','] + json_items_text(items.skip(1))
    }
}

/// The comma-separated `"key":value` JSON texts of an object's fields.
pub open spec fn json_fields_text(fields: Seq<(Seq<char>, Val)>) -> Seq<char>
    decreases fields,
{
    if fields.len() == 0 {
        Seq::empty()
    } else if fields.len() == 1 {
        json_str_text(fields[0].0) + seq![':'] + json_text(fields[0].1)
    } else {
        json_str_text(fields[0].0) + seq![':'] + json_text(fields[0].1) + seq![',']
            + json_fields_text(fields.skip(1))
    }
}

/// How a resolved value appears in rendered output: strings verbatim, every
/// other kind as its JSON text.
pub open spec fn value_text(v: Val) -> Seq<char> {
    match v {
        Val::Str(s) => s,
        _ => json_text(v),
    }
}

/// The JSON texts of an array's elements joined by `,`: what a repeated
/// array-valued item renders as.
pub open spec fn joined_items_text(items: Seq<Val>) -> Seq<char>
    decreases items.len(),
{
    if items.len() == 0 {
        Seq::empty()
    } else if items.len() == 1 {
        json_text(items[0])
    } else {
        json_text(items[0]) + seq![','] + joined_items_text(items.skip(1))
    }
}

fn digit_str(d: u64) -> (r: &'static str)
    requires
        d < 10,
    ensures
        r@ == seq![digit_char(d as nat)],
{
    proof {
        reveal_strlit("0");
        reveal_strlit("1");
        reveal_strlit("2");
        reveal_strlit("3");
        reveal_strlit("4");
        reveal_strlit("5");
        reveal_strlit("6");
        reveal_strlit("7");
        reveal_strlit("8");
        reveal_strlit("9");
    }
    let r = if d == 0 {
        "0"
    } else if d == 1 {
        "1"
    } else if d == 2 {
        "2"
    } else if d == 3 {
        "3"
    } else if d == 4 {
        "4"
    } else if d == 5 {
        "5"
    } else if d == 6 {
        "6"
    } else if d == 7 {
        "7"
    } else if d == 8 {
        "8"
    } else {
        "9"
    };
    proof {
        assert(r@ =~= seq![digit_char(d as nat)]);
    }
    r
}

fn hex_str(d: u32) -> (r: &'static str)
    requires
        d < 16,
    ensures
        r@ == seq![hex_char(d as nat)],
{
    proof {
        reveal_strlit("a");
        reveal_strlit("b");
        reveal_strlit("c");
        reveal_strlit("d");
        reveal_strlit("e");
        reveal_strlit("f");
    }
    let r = if d < 10 {
        digit_str(d as u64)
    } else if d == 10 {
        "a"
    } else if d == 11 {
        "b"
    } else if d == 12 {
        "c"
    } else if d == 13 {
        "d"
    } else if d == 14 {
        "e"
    } else {
        "f"
    };
    proof {
        assert(r@ =~= seq![hex_char(d as nat)]);
    }
    r
}

/// Appends the decimal digits of `n`.
fn push_dec(n: u64, out: &mut String)
    ensures
        final(out)@ == old(out)@ + dec_digits(n as nat),
    decreases n,
{
    if n >= 10 {
        proof {
            assert(n / 10 < n) by (nonlinear_arith)
                requires
                    n >= 10,
            ;
        }
        push_dec(n / 10, out);
    }
    out.append(digit_str(n % 10));
    proof {
        if n < 10 {
            assert(n % 10 == n);
            assert(old(out)@ + seq![digit_char(n as nat)] =~= old(out)@ + dec_digits(n as nat));
        } else {
            assert((old(out)@ + dec_digits((n / 10) as nat)) + seq![digit_char((n % 10) as nat)]
                =~= old(out)@ + dec_digits((n / 10) as nat).push(digit_char((n % 10) as nat)));
        }
    }
}

/// Appends the decimal text of `n`, `-` first when negative.
pub fn push_i64(n: i64, out: &mut String)
    ensures
        final(out)@ == old(out)@ + int_text(n as int),
{
    if n < 0 {
        proof {
            reveal_strlit("-");
        }
        out.append("-");
        let m: u64 = ((-(n + 1)) as u64) + 1;
        proof {
            assert(m as nat == (-(n as int)) as nat);
        }
        push_dec(m, out);
        proof {
            assert((old(out)@ + "-"@) + dec_digits(m as nat) =~= old(out)@ + int_text(n as int));
        }
    } else {
        push_dec(n as u64, out);
    }
}

/// Splitting an escape-free prefix off keeps the escape of the whole.
proof fn lemma_esc_seq_concat(a: Seq<char>, b: Seq<char>)
    ensures
        esc_seq(a + b) == esc_seq(a) + esc_seq(b),
    decreases a.len(),
{
    if a.len() == 0 {
        assert(a + b =~= b);
        assert(esc_seq(a) + esc_seq(b) =~= esc_seq(b));
    } else {
        lemma_esc_seq_concat(a.skip(1), b);
        assert((a + b).skip(1) =~= a.skip(1) + b);
        assert((a + b)[0] == a[0]);
        assert(esc_char(a[0]) + (esc_seq(a.skip(1)) + esc_seq(b)) =~= (esc_char(a[0]) + esc_seq(
            a.skip(1),
        )) + esc_seq(b));
    }
}

/// A run without characters to escape keeps its text.
proof fn lemma_esc_seq_plain(s: Seq<char>)
    requires
        forall|i: int| 0 <= i < s.len() ==> !must_escape(#[trigger] s[i]),
    ensures
        esc_seq(s) == s,
    decreases s.len(),
{
    if s.len() > 0 {
        assert(!must_escape(s[0]));
        assert(esc_char(s[0]) =~= seq![s[0]]);
        lemma_esc_seq_plain(s.skip(1));
        assert(seq![s[0]] + s.skip(1) =~= s);
    }
}

/// Appends the JSON escape of one character that needs one.
fn push_escape(c: char, out: &mut String)
    requires
        must_escape(c),
    ensures
        final(out)@ == old(out)@ + esc_char(c),
{
    proof {
        reveal_strlit("\\\"");
        reveal_strlit("\\\\");
        reveal_strlit("\\b");
        reveal_strlit("\\t");
        reveal_strlit("\\n");
        reveal_strlit("\\f");
        reveal_strlit("\\r");
        reveal_strlit("\\u00");
    }
    if c == '"' {
        out.append("\\\"");
        proof {
            assert(old(out)@ + "\\\""@ =~= old(out)@ + esc_char(c));
        }
    } else if c == '\\' {
        out.append("\\\\");
        proof {
            assert(old(out)@ + "\\\\"@ =~= old(out)@ + esc_char(c));
        }
    } else if c == '\u{8}' {
        out.append("\\b");
        proof {
            assert(old(out)@ + "\\b"@ =~= old(out)@ + esc_char(c));
        }
    } else if c == '\t' {
        out.append("\\t");
        proof {
            assert(old(out)@ + "\\t"@ =~= old(out)@ + esc_char(c));
        }
    } else if c == '\n' {
        out.append("\\n");
        proof {
            assert(old(out)@ + "\\n"@ =~= old(out)@ + esc_char(c));
        }
    } else if c == '\u{c}' {
        out.append("\\f");
        proof {
            assert(old(out)@ + "\\f"@ =~= old(out)@ + esc_char(c));
        }
    } else if c == '\r' {
        out.append("\\r");
        proof {
            assert(old(out)@ + "\\r"@ =~= old(out)@ + esc_char(c));
        }
    } else {
        let d = c as u32;
        proof {
            assert(d < 0x20);
        }
        out.append("\\u00");
        out.append(hex_str(d / 16));
        out.append(hex_str(d % 16));
        proof {
            assert((((old(out)@ + "\\u00"@) + seq![hex_char((d / 16) as nat)]) + seq![
                hex_char((d % 16) as nat),
            ]) =~= old(out)@ + esc_char(c));
        }
    }
}

/// Appends the escaped body of `s`.
#[verifier::loop_isolation(false)]
pub fn push_escaped(s: &str, out: &mut String)
    ensures
        final(out)@ == old(out)@ + esc_seq(s@),
{
    let n = s.unicode_len();
    let mut run_start: usize = 0;
    let mut i: usize = 0;
    while i < n
        invariant
            run_start <= i <= n,
            out@ == old(out)@ + esc_seq(s@.take(run_start as int)),
            forall|j: int| run_start <= j < i ==> !must_escape(#[trigger] s@[j]),
        decreases n - i,
    {
        let c = s.get_char(i);
        let escape_needed = c == '"' || c == '\\' || (c as u32) < 0x20;
        if escape_needed {
            out.append(s.substring_char(run_start, i));
            push_escape(c, out);
            proof {
                let pre = s@.take(run_start as int);
                let run = s@.subrange(run_start as int, i as int);
                lemma_esc_seq_plain(run);
                lemma_esc_seq_concat(pre, run);
                assert(pre + run =~= s@.take(i as int));
                lemma_esc_seq_concat(s@.take(i as int), seq![c]);
                assert(s@.take(i as int) + seq![c] =~= s@.take(i + 1));
                assert(seq![c].skip(1) =~= Seq::<char>::empty());
                assert(seq![c][0] == c);
                assert(esc_seq(seq![c]) =~= esc_char(c) + esc_seq(Seq::<char>::empty()));
                assert(esc_char(c) + Seq::<char>::empty() =~= esc_char(c));
                assert(((old(out)@ + esc_seq(pre)) + run) + esc_char(c) =~= old(out)@ + esc_seq(
                    s@.take(i + 1),
                ));
            }
            run_start = i + 1;
        }
        i = i + 1;
    }
    out.append(s.substring_char(run_start, n));
    proof {
        let pre = s@.take(run_start as int);
        let run = s@.subrange(run_start as int, n as int);
        lemma_esc_seq_plain(run);
        lemma_esc_seq_concat(pre, run);
        assert(pre + run =~= s@);
        assert((old(out)@ + esc_seq(pre)) + run =~= old(out)@ + esc_seq(s@));
    }
}

/// Appends the quoted, escaped JSON text of a string.
pub fn push_json_str(s: &str, out: &mut String)
    ensures
        final(out)@ == old(out)@ + json_str_text(s@),
{
    proof {
        reveal_strlit("\"");
    }
    out.append("\"");
    push_escaped(s, out);
    out.append("\"");
    proof {
        assert(((old(out)@ + "\""@) + esc_seq(s@)) + "\""@ =~= old(out)@ + json_str_text(s@));
    }
}

/// Appends the JSON text of a value.
#[verifier::loop_isolation(false)]
#[verifier::rlimit(80)]
pub fn push_json(v: &Value, out: &mut String)
    ensures
        final(out)@ == old(out)@ + json_text(v@),
    decreases v,
{
    broadcast use group_value_model;

    match v {
        Value::Null => {
            proof {
                reveal_strlit("null");
            }
            out.append("null");
            proof {
                assert(old(out)@ + "null"@ =~= old(out)@ + json_text(v@));
            }
        },
        Value::Bool(b) => {
            proof {
                reveal_strlit("true");
                reveal_strlit("false");
            }
            if *b {
                out.append("true");
                proof {
                    assert(old(out)@ + "true"@ =~= old(out)@ + json_text(v@));
                }
            } else {
                out.append("false");
                proof {
                    assert(old(out)@ + "false"@ =~= old(out)@ + json_text(v@));
                }
            }
        },
        Value::Number(n) => {
            push_i64(*n, out);
        },
        Value::String(s) => {
            push_json_str(s.as_str(), out);
        },
        Value::Array(items) => {
            proof {
                reveal_strlit("[");
                reveal_strlit("]");
                reveal_strlit(",");
            }
            out.append("[");
            let ghost m = arr_model(items@);
            let mut i: usize = 0;
            proof {
                assert(m.skip(0) =~= m);
            }
            while i < items.len()
                invariant
                    i <= items.len(),
                    out@ + json_items_text(m.skip(i as int)) == old(out)@ + json_text(v@).drop_last(),
                decreases items.len() - i,
            {
                proof {
                    assert(decreases_to!(*v => *items));
                    assert(decreases_to!(*items => items@));
                    assert(decreases_to!(items@ => items@[i as int]));
                }
                push_json(&items[i], out);
                proof {
                    assert(m.skip(i as int)[0] == m[i as int]);
                    assert(m.skip(i as int).skip(1) =~= m.skip(i + 1));
                }
                if i + 1 < items.len() {
                    out.append(",");
                    proof {
                        assert(m.skip(i as int).len() > 1);
                        assert(json_items_text(m.skip(i as int)) =~= json_text(m[i as int])
                            + seq![','] + json_items_text(m.skip(i + 1)));
                    }
                } else {
                    proof {
                        assert(m.skip(i as int).len() == 1);
                        assert(json_items_text(m.skip(i as int)) =~= json_text(m[i as int]));
                    }
                }
                i = i + 1;
            }
            out.append("]");
            proof {
                assert(m.skip(items@.len() as int).len() == 0);
                assert(json_text(v@).drop_last().push(']') =~= json_text(v@));
            }
        },
        Value::Object(fields) => {
            proof {
                reveal_strlit("{");
                reveal_strlit("}");
                reveal_strlit(",");
                reveal_strlit(":");
            }
            out.append("{");
            let ghost m = obj_model(fields@);
            let mut i: usize = 0;
            proof {
                assert(m.skip(0) =~= m);
            }
            while i < fields.len()
                invariant
                    i <= fields.len(),
                    out@ + json_fields_text(m.skip(i as int)) == old(out)@ + json_text(
                        v@,
                    ).drop_last(),
                decreases fields.len() - i,
            {
                push_json_str(fields[i].0.as_str(), out);
                out.append(":");
                proof {
                    assert(decreases_to!(*v => *fields));
                    assert(decreases_to!(*fields => fields@));
                    assert(decreases_to!(fields@ => fields@[i as int]));
                    assert(decreases_to!(fields@[i as int] => fields@[i as int].1));
                }
                push_json(&fields[i].1, out);
                proof {
                    assert(m.skip(i as int)[0] == m[i as int]);
                    assert(m.skip(i as int).skip(1) =~= m.skip(i + 1));
                }
                if i + 1 < fields.len() {
                    out.append(",");
                    proof {
                        assert(m.skip(i as int).len() > 1);
                        assert(json_fields_text(m.skip(i as int)) =~= json_str_text(m[i as int].0)
                            + seq![':'] + json_text(m[i as int].1) + seq![','] + json_fields_text(
                            m.skip(i + 1),
                        ));
                    }
                } else {
                    proof {
                        assert(m.skip(i as int).len() == 1);
                        assert(json_fields_text(m.skip(i as int)) =~= json_str_text(m[i as int].0)
                            + seq![':'] + json_text(m[i as int].1));
                    }
                }
                i = i + 1;
            }
            out.append("}");
            proof {
                assert(m.skip(fields@.len() as int).len() == 0);
                assert(json_text(v@).drop_last().push('}') =~= json_text(v@));
            }
        },
    }
}

/// The JSON text of a value as a fresh string.
pub fn to_json_string(v: &Value) -> (r: String)
    ensures
        r@ == json_text(v@),
{
    let mut out = String::new();
    push_json(v, &mut out);
    proof {
        assert(Seq::<char>::empty() + json_text(v@) =~= json_text(v@));
    }
    out
}

/// Appends a resolved value as output text: strings verbatim, every other
/// kind as JSON.
pub fn push_value_text(v: &Value, out: &mut String)
    ensures
        final(out)@ == old(out)@ + value_text(v@),
{
    match v {
        Value::String(s) => {
            out.append(s.as_str());
        },
        _ => {
            push_json(v, out);
        },
    }
}

/// Appends the elements of an array as JSON texts joined by `,`.
#[verifier::loop_isolation(false)]
pub fn push_joined_items(items: &Vec<Value>, out: &mut String)
    ensures
        final(out)@ == old(out)@ + joined_items_text(arr_model(items@)),
{
    broadcast use group_value_model;

    proof {
        reveal_strlit(",");
    }
    let ghost m = arr_model(items@);
    let mut i: usize = 0;
    proof {
        assert(m.skip(0) =~= m);
        assert(out@ + joined_items_text(m) =~= old(out)@ + joined_items_text(m));
    }
    while i < items.len()
        invariant
            i <= items.len(),
            out@ + joined_items_text(m.skip(i as int)) == old(out)@ + joined_items_text(m),
        decreases items.len() - i,
    {
        push_json(&items[i], out);
        proof {
            assert(m.skip(i as int)[0] == m[i as int]);
            assert(m.skip(i as int).skip(1) =~= m.skip(i + 1));
        }
        if i + 1 < items.len() {
            out.append(",");
            proof {
                assert(m.skip(i as int).len() > 1);
                assert(joined_items_text(m.skip(i as int)) =~= json_text(m[i as int]) + seq![',']
                    + joined_items_text(m.skip(i + 1)));
            }
        } else {
            proof {
                assert(m.skip(i as int).len() == 1);
                assert(joined_items_text(m.skip(i as int)) =~= json_text(m[i as int]));
            }
        }
        i = i + 1;
    }
    proof {
        assert(m.skip(items@.len() as int).len() == 0);
        assert(out@ + joined_items_text(m.skip(items@.len() as int)) =~= out@);
    }
}

} // verus!
