//! The JSON text of values: integers, escaped strings, and whole values.
use vstd::prelude::*;
use vstd::string::StringExecFns;
use crate::value::{Value, ValueModel, is_non_finite, value_model, lemma_list_model, lemma_object_model};
use crate::text::push_char;

verus! {

// ---------------------------------------------------------------------------
// Specification of the text
// ---------------------------------------------------------------------------

/// The decimal digit character for `d` in `0..10`.
pub open spec fn digit_char(d: int) -> char {
    ((d + 48) as u8) as char
}

/// The lowercase hexadecimal digit character for `d` in `0..16`.
pub open spec fn hex_char(d: int) -> char {
    if d < 10 {
        ((d + 48) as u8) as char
    } else {
        ((d + 87) as u8) as char
    }
}

/// The decimal digits of a natural number, without leading zeros.
pub open spec fn nat_text(n: nat) -> Seq<char>
    decreases n,
{
    if n < 10 {
        seq![digit_char(n as int)]
    } else {
        nat_text(n / 10).push(digit_char((n % 10) as int))
    }
}

/// The decimal text of an integer, with a leading `-` when negative.
pub open spec fn int_text(i: int) -> Seq<char> {
    if i < 0 {
        seq!['-'] + nat_text((-i) as nat)
    } else {
        nat_text(i as nat)
    }
}

/// The text that stands for one character inside a JSON string: quotes,
/// backslashes, newlines, carriage returns and tabs get a backslash escape,
/// other characters below U+0020 a `\u00XX` escape in lowercase hex, and
/// every other character stands for itself.
pub open spec fn escape_char(c: char) -> Seq<char> {
    if c == '"' {
        seq!['\\', '"']
    } else if c == '\\' {
        seq!['\\', '\\']
    } else if c == '\n' {
        seq!['\\', 'n']
    } else if c == '\r' {
        seq!['\\', 'r']
    } else if c == '\t' {
        seq!['\\', 't']
    } else if (c as u32) < 0x20 {
        seq!['\\', 'u', '0', '0', hex_char((c as int) / 16), hex_char((c as int) % 16)]
    } else {
        seq![c]
    }
}

/// The escaped characters of a string, without the surrounding quotes.
pub open spec fn escape_body(s: Seq<char>) -> Seq<char>
    decreases s.len(),
{
    if s.len() == 0 {
        Seq::empty()
    } else {
        escape_body(s.subrange(0, s.len() - 1)) + escape_char(s[s.len() - 1])
    }
}

/// A string as a JSON string literal.
pub open spec fn quoted(s: Seq<char>) -> Seq<char> {
    seq!['"'] + escape_body(s) + seq!['"']
}

/// The JSON text of a value. Non-finite floats become `null`; strings and
/// object keys are written as escaped string literals.
pub open spec fn json_text(v: ValueModel) -> Seq<char>
    decreases v,
{
    match v {
        ValueModel::Null => "null"@,
        ValueModel::Bool(b) => if b { "true"@ } else { "false"@ },
        ValueModel::Int(i) => int_text(i as int),
        ValueModel::Float(bits, text) => if is_non_finite(bits) { "null"@ } else { text },
        ValueModel::Text(s) => quoted(s),
        ValueModel::List(xs) => seq!['['] + items_text(xs) + seq![']'],
        ValueModel::Object(es) => seq!['{'] + members_text(es) + seq!['}'],
    }
}

/// The JSON texts of the items, separated by `", "`.
pub open spec fn items_text(xs: Seq<ValueModel>) -> Seq<char>
    decreases xs,
{
    if xs.len() == 0 {
        Seq::empty()
    } else if xs.len() == 1 {
        json_text(xs[0])
    } else {
        items_text(xs.subrange(0, xs.len() - 1)) + ", "@ + json_text(xs[xs.len() - 1])
    }
}

/// The members of an object, separated by `", "`; each member is the key
/// as an escaped string literal, `": "`, and the value's text.
pub open spec fn members_text(es: Seq<(Seq<char>, ValueModel)>) -> Seq<char>
    decreases es,
{
    if es.len() == 0 {
        Seq::empty()
    } else if es.len() == 1 {
        seq!['"'] + escape_body(es[0].0) + "\": "@ + json_text(es[0].1)
    } else {
        members_text(es.subrange(0, es.len() - 1)) + ", "@ + seq!['"'] + escape_body(es[es.len() - 1].0) + "\": "@
            + json_text(es[es.len() - 1].1)
    }
}


// ---------------------------------------------------------------------------
// Writing the text
// ---------------------------------------------------------------------------

/// Appends the decimal digits of `n`.
fn write_nat(n: u64, out: &mut String)
    ensures
        final(out)@ == old(out)@ + nat_text(n as nat),
    decreases n,
{
    if n >= 10 {
        write_nat(n / 10, out);
    }
    let d = (n % 10) as u8;
    push_char(out, (d + 48) as char);
    proof {
        assert(nat_text(n as nat) == if n < 10 { seq![digit_char(n as int)] } else {
            nat_text((n / 10) as nat).push(digit_char((n % 10) as int))
        });
    }
    assert(final(out)@ =~= old(out)@ + nat_text(n as nat));
}

/// Appends the decimal text of `i`.
fn write_int(i: i64, out: &mut String)
    ensures
        final(out)@ == old(out)@ + int_text(i as int),
{
    if i < 0 {
        push_char(out, '-');
        let mag: u64 = if i == i64::MIN {
            9223372036854775808u64
        } else {
            (-i) as u64
        };
        write_nat(mag, out);
        assert(final(out)@ =~= old(out)@ + int_text(i as int));
    } else {
        write_nat(i as u64, out);
    }
}

/// The lowercase hexadecimal digit for `d` in `0..16`.
fn hex_digit(d: u32) -> (c: char)
    requires
        d < 16,
    ensures
        c == hex_char(d as int),
{
    let b = d as u8;
    if b < 10 {
        (b + 48) as char
    } else {
        (b + 87) as char
    }
}

/// Appends the escaped text of one character.
fn write_escaped_char(c: char, out: &mut String)
    ensures
        final(out)@ == old(out)@ + escape_char(c),
{
    if c == '"' {
        push_char(out, '\\');
        push_char(out, '"');
    } else if c == '\\' {
        push_char(out, '\\');
        push_char(out, '\\');
    } else if c == '\n' {
        push_char(out, '\\');
        push_char(out, 'n');
    } else if c == '\r' {
        push_char(out, '\\');
        push_char(out, 'r');
    } else if c == '\t' {
        push_char(out, '\\');
        push_char(out, 't');
    } else if (c as u32) < 0x20 {
        let code = c as u32;
        push_char(out, '\\');
        push_char(out, 'u');
        push_char(out, '0');
        push_char(out, '0');
        push_char(out, hex_digit(code / 16));
        push_char(out, hex_digit(code % 16));
    } else {
        push_char(out, c);
    }
    assert(final(out)@ =~= old(out)@ + escape_char(c));
}

/// Appends the escaped characters of `s`, without quotes.
pub(crate) fn write_escaped(s: &str, out: &mut String)
    ensures
        final(out)@ == old(out)@ + escape_body(s@),
{
    let ghost start = out@;
    for c in it: s.chars()
        invariant
            it.seq() == s@,
            out@ == start + escape_body(s@.take(it.index() as int)),
    {
        let ghost k = it.index() as int;
        write_escaped_char(c, out);
        proof {
            let t = s@.take(k + 1);
            assert(t.subrange(0, t.len() - 1) =~= s@.take(k));
            assert(t[t.len() - 1] == c);
            assert(out@ =~= start + escape_body(s@.take(k + 1)));
        }
    }
    proof {
        assert(s@.take(s@.len() as int) =~= s@);
    }
}

/// Appends the JSON text of `v`.
#[verifier::loop_isolation(false)]
#[verifier::spinoff_prover]
#[verifier::rlimit(40)]
fn write_value(v: &Value, out: &mut String)
    ensures
        final(out)@ == old(out)@ + json_text(v@),
    decreases v,
{
    match v {
        Value::Null => {
            out.append("null");
        },
        Value::Bool(b) => {
            if *b {
                out.append("true");
            } else {
                out.append("false");
            }
        },
        Value::Int(i) => {
            write_int(*i, out);
        },
        Value::Float(n) => {
            if crate::value::bits_non_finite(n.bits) {
                out.append("null");
            } else {
                out.append(n.text.as_str());
            }
        },
        Value::Text(s) => {
            push_char(out, '"');
            write_escaped(s.as_str(), out);
            push_char(out, '"');
            assert(final(out)@ =~= old(out)@ + json_text(v@));
        },
        Value::List(xs) => {
            proof {
                lemma_list_model(*xs);
            }
            let ghost mx = Seq::new(xs@.len(), |j: int| value_model(xs@[j]));
            let ghost start = out@;
            push_char(out, '[');
            let n = xs.len();
            let mut i: usize = 0;
            while i < n
                invariant
                    0 <= i <= n,
                    out@ == start + seq!['['] + items_text(mx.subrange(0, i as int)),
                decreases n - i,
            {
                assert(decreases_to!(*v => xs@[i as int])) by {
                    assert(decreases_to!(*v => *xs));
                    assert(decreases_to!(*xs => xs@));
                }
                let ghost before = out@;
                if i > 0 {
                    out.append(", ");
                }
                write_value(&xs[i], out);
                proof {
                    let t = mx.subrange(0, i + 1);
                    assert(t.subrange(0, t.len() - 1) =~= mx.subrange(0, i as int));
                    assert(t[t.len() - 1] == mx[i as int]);
                    if i == 0 {
                        assert(out@ =~= start + seq!['['] + items_text(t));
                    } else {
                        assert(out@ =~= start + seq!['['] + items_text(t));
                    }
                }
                i = i + 1;
            }
            push_char(out, ']');
            proof {
                assert(mx.subrange(0, n as int) =~= mx);
                assert(final(out)@ =~= old(out)@ + json_text(v@));
            }
        },
        Value::Object(m) => {
            proof {
                lemma_object_model(*m);
            }
            let ghost start = out@;
            push_char(out, '{');
            let n = m.len();
            let es = m.pairs();
            let mut i: usize = 0;
            while i < n
                invariant
                    0 <= i <= n,
                    out@ == start + seq!['{'] + members_text(m@.subrange(0, i as int)),
                decreases n - i,
            {
                proof {
                    crate::value::lemma_entry_decreases(*v, *m, i as int);
                }
                assert(m@[i as int] == (es@[i as int].0@, value_model(es@[i as int].1)));
                if i > 0 {
                    out.append(", ");
                }
                push_char(out, '"');
                write_escaped(es[i].0.as_str(), out);
                out.append("\": ");
                write_value(&es[i].1, out);
                proof {
                    let t = m@.subrange(0, i + 1);
                    assert(t.subrange(0, t.len() - 1) =~= m@.subrange(0, i as int));
                    assert(t[t.len() - 1] == m@[i as int]);
                    assert(out@ =~= start + seq!['{'] + members_text(t));
                }
                i = i + 1;
            }
            push_char(out, '}');
            proof {
                assert(m@.subrange(0, n as int) =~= m@);
                assert(final(out)@ =~= old(out)@ + json_text(v@));
            }
        },
    }
}

impl Value {
    /// The JSON text of the value: `null`, `true`/`false`, decimal integers,
    /// a float's text (or `null` when it is NaN or infinite), escaped
    /// strings, `[a, b]` lists and `{"k": v}` objects in entry order, with
    /// the keys escaped as strings are.
    pub fn serialize(&self) -> (r: String)
        ensures
            r@ == json_text(self@),
    {
        let mut out = String::new();
        write_value(self, &mut out);
        assert(out@ =~= json_text(self@));
        out
    }

    /// The string as a JSON string literal: between double quotes, with
    /// quotes, backslashes and control characters escaped.
    pub fn escape(s: &str) -> (r: String)
        ensures
            r@ == quoted(s@),
    {
        let mut out = String::new();
        push_char(&mut out, '"');
        write_escaped(s, &mut out);
        push_char(&mut out, '"');
        assert(out@ =~= quoted(s@));
        out
    }
}
} // verus!
