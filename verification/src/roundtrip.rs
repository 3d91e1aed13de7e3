//! What reading gives back of what writing wrote: the JSON text of a value
//! reads back as the same value, and the escapes of a string unescape to
//! the string.
use vstd::prelude::*;
use crate::value::{ValueModel, Entries, keys_unique, obj_insert, lemma_obj_pos};
use crate::json::{digit_char, hex_char, nat_text, int_text, escape_char, escape_body, json_text, items_text, members_text};
use crate::parse::{
    FloatTableModel, is_ws, is_digit, is_hex, hex_value, skip_ws, digits_end, has_at, hex4_at, decode_unit,
    parse_string, unescape_from, digits_value, int_part_end, number_end, literal_int_value, parse_number, parse_value,
    parse_items, parse_members, parse_document, lemma_char_code, float_lookup,
};
use crate::value::is_non_finite;

verus! {

// ---------------------------------------------------------------------------
// Texts
// ---------------------------------------------------------------------------

/// Every character is JSON whitespace.
pub open spec fn all_ws(w: Seq<char>) -> bool {
    forall|k: int| 0 <= k < w.len() ==> is_ws(#[trigger] w[k])
}

/// A string that JSON writes as it is between quotes: no quote, no
/// backslash, no control character.
pub open spec fn plain(s: Seq<char>) -> bool {
    forall|k: int| 0 <= k < s.len() ==> (#[trigger] s[k]) != '"' && s[k] != '\\' && (s[k] as u32) >= 0x20
}

/// The character at `k`, if any, cannot continue a number literal.
pub open spec fn boundary(s: Seq<char>, k: int) -> bool {
    !(0 <= k < s.len()) || !(is_digit(s[k]) || s[k] == '.' || s[k] == 'e' || s[k] == 'E')
}

/// Texts separated by `sep`.
pub open spec fn join(ts: Seq<Seq<char>>, sep: Seq<char>) -> Seq<char>
    decreases ts.len(),
{
    if ts.len() == 0 {
        Seq::empty()
    } else if ts.len() == 1 {
        ts[0]
    } else {
        join(ts.drop_last(), sep) + sep + ts.last()
    }
}

/// A value that reads back as itself from its JSON text with the float
/// table `t`: each float finite, written as a literal that the table decodes
/// to it, and objects with distinct keys.
pub open spec fn plain_value(v: ValueModel, t: FloatTableModel) -> bool
    decreases v,
{
    match v {
        ValueModel::Float(bits, text) => float_reads(bits, text, t),
        ValueModel::List(xs) => forall|i: int| 0 <= i < xs.len() ==> plain_value(#[trigger] xs[i], t),
        ValueModel::Object(es) => keys_unique(es) && forall|i: int|
            0 <= i < es.len() ==> plain_value(#[trigger] es[i].1, t),
        _ => true,
    }
}

/// Text at `i` of `a` followed by `b` is `a` at `i` and `b` right after it.
pub proof fn lemma_has_at_concat(s: Seq<char>, i: int, a: Seq<char>, b: Seq<char>)
    ensures
        has_at(s, i, a + b) <==> has_at(s, i, a) && has_at(s, i + a.len(), b),
{
    let n = (a + b).len() as int;
    if has_at(s, i, a + b) {
        let w = s.subrange(i, i + n);
        assert(w == a + b);
        assert(s.subrange(i, i + a.len()) =~= a) by {
            assert forall|k: int| 0 <= k < a.len() implies s.subrange(i, i + a.len())[k] == a[k] by {
                assert(w[k] == (a + b)[k]);
            }
        }
        assert(s.subrange(i + a.len(), i + a.len() + b.len()) =~= b) by {
            assert forall|k: int| 0 <= k < b.len() implies s.subrange(i + a.len(), i + a.len() + b.len())[k] == b[k] by {
                assert(w[a.len() + k] == (a + b)[a.len() + k]);
            }
        }
    }
    if has_at(s, i, a) && has_at(s, i + a.len(), b) {
        let wa = s.subrange(i, i + a.len());
        let wb = s.subrange(i + a.len(), i + a.len() + b.len());
        assert(wa == a);
        assert(wb == b);
        assert(s.subrange(i, i + n) =~= a + b) by {
            assert forall|k: int| 0 <= k < n implies s.subrange(i, i + n)[k] == (a + b)[k] by {
                if k < a.len() {
                    assert(wa[k] == a[k]);
                } else {
                    assert(wb[k - a.len()] == b[k - a.len()]);
                }
            }
        }
    }
}

/// Text at `i` gives the characters there.
pub proof fn lemma_has_at_index(s: Seq<char>, i: int, a: Seq<char>, k: int)
    requires
        has_at(s, i, a),
        0 <= k < a.len(),
    ensures
        s[i + k] == a[k],
{
    assert(s.subrange(i, i + a.len())[k] == a[k]);
}

/// Whitespace at `i` followed by a character that is not whitespace is
/// skipped exactly.
pub proof fn lemma_skip_exact(s: Seq<char>, i: int, w: Seq<char>)
    requires
        has_at(s, i, w),
        all_ws(w),
        i + w.len() < s.len() ==> !is_ws(s[i + w.len()]),
    ensures
        skip_ws(s, i) == i + w.len(),
    decreases w.len(),
{
    if w.len() > 0 {
        lemma_has_at_index(s, i, w, 0);
        assert(w =~= seq![w[0]] + w.drop_first());
        lemma_has_at_concat(s, i, seq![w[0]], w.drop_first());
        lemma_skip_exact(s, i + 1, w.drop_first());
    }
}

/// `join` seen from its first text.
pub proof fn lemma_join_front(ts: Seq<Seq<char>>, sep: Seq<char>)
    requires
        ts.len() >= 2,
    ensures
        join(ts, sep) == ts[0] + sep + join(ts.drop_first(), sep),
    decreases ts.len(),
{
    if ts.len() == 2 {
        assert(ts.drop_last() =~= seq![ts[0]]);
        assert(ts.drop_first() =~= seq![ts[1]]);
        assert(join(ts.drop_last(), sep) == ts[0]);
        assert(join(ts.drop_first(), sep) == ts[1]);
    } else {
        lemma_join_front(ts.drop_last(), sep);
        assert(ts.drop_last().drop_first() =~= ts.drop_first().drop_last());
        assert(ts.drop_last()[0] == ts[0]);
        assert(ts.drop_first().last() == ts.last());
        assert(join(ts, sep) =~= ts[0] + sep + join(ts.drop_first(), sep));
    }
}

// ---------------------------------------------------------------------------
// Strings
// ---------------------------------------------------------------------------

/// The escapes of a string, seen from its first character.
pub proof fn lemma_escape_body_front(x: Seq<char>)
    requires
        x.len() > 0,
    ensures
        escape_body(x) == escape_char(x[0]) + escape_body(x.drop_first()),
    decreases x.len(),
{
    if x.len() == 1 {
        assert(x.subrange(0, 0) =~= Seq::<char>::empty());
        assert(x.drop_first() =~= Seq::<char>::empty());
        assert(escape_body(x.subrange(0, 0)) == Seq::<char>::empty());
        assert(escape_body(x.drop_first()) == Seq::<char>::empty());
        assert(escape_body(x) =~= escape_char(x[0]));
    } else {
        let pre = x.subrange(0, x.len() - 1);
        lemma_escape_body_front(pre);
        assert(pre.drop_first() =~= x.drop_first().subrange(0, x.drop_first().len() - 1));
        assert(x.drop_first()[x.drop_first().len() - 1] == x[x.len() - 1]);
        assert(escape_body(x) =~= escape_char(x[0]) + escape_body(x.drop_first()));
    }
}

/// A digit character has the code of its digit.
pub proof fn lemma_digit_char(d: int)
    requires
        0 <= d < 10,
    ensures
        digit_char(d) as int == d + 48,
        is_digit(digit_char(d)),
        is_hex(digit_char(d)),
        hex_value(digit_char(d)) == d,
{
    assert((((d + 48) as u8) as char) as int == d + 48);
}

/// A lowercase hexadecimal digit character reads back as its digit.
pub proof fn lemma_hex_char(d: int)
    requires
        0 <= d < 16,
    ensures
        is_hex(hex_char(d)),
        hex_value(hex_char(d)) == d,
        hex_char(d) != '"',
{
    if d < 10 {
        lemma_digit_char(d);
    } else {
        assert((((d + 87) as u8) as char) as int == d + 87);
    }
}

/// The escape of a character reads back as the character.
pub proof fn lemma_decode_escape_char(s: Seq<char>, i: int, c: char)
    requires
        has_at(s, i, escape_char(c)),
    ensures
        decode_unit(s, i) == Some((c, i + escape_char(c).len())),
        s[i] != '"',
        escape_char(c).len() > 0,
{
    let e = escape_char(c);
    lemma_has_at_index(s, i, e, 0);
    if c == '"' || c == '\\' || c == '\n' || c == '\r' || c == '\t' {
        lemma_has_at_index(s, i, e, 1);
    } else if (c as u32) < 0x20 {
        let cp = c as u32;
        lemma_has_at_index(s, i, e, 1);
        lemma_has_at_index(s, i, e, 2);
        lemma_has_at_index(s, i, e, 3);
        lemma_has_at_index(s, i, e, 4);
        lemma_has_at_index(s, i, e, 5);
        lemma_digit_char(0);
        assert(digit_char(0) == '0') by {
            assert(digit_char(0) as int == 48);
        }
        lemma_hex_char((c as int) / 16);
        lemma_hex_char((c as int) % 16);
        assert(hex4_at(s, i + 2) == Some(c as int));
        lemma_char_code(c, cp);
    }
}

/// The escapes of `x` followed by a quote read back as `x`, ending after
/// the quote.
pub proof fn lemma_parse_escaped(s: Seq<char>, i: int, x: Seq<char>)
    requires
        has_at(s, i, escape_body(x) + seq!['"']),
    ensures
        parse_string(s, i) == Some((x, i + escape_body(x).len() + 1)),
    decreases x.len(),
{
    if x.len() == 0 {
        lemma_has_at_index(s, i, escape_body(x) + seq!['"'], 0);
    } else {
        lemma_escape_body_front(x);
        let e = escape_char(x[0]);
        let r = escape_body(x.drop_first());
        assert(escape_body(x) + seq!['"'] =~= e + (r + seq!['"']));
        lemma_has_at_concat(s, i, e, r + seq!['"']);
        lemma_decode_escape_char(s, i, x[0]);
        lemma_parse_escaped(s, i + e.len(), x.drop_first());
        assert(seq![x[0]] + x.drop_first() =~= x);
    }
}

/// The escapes of `x` unescape to `x`.
proof fn lemma_unescape_escaped(s: Seq<char>, i: int, x: Seq<char>)
    requires
        0 <= i <= s.len(),
        s.subrange(i, s.len() as int) == escape_body(x),
    ensures
        unescape_from(s, i) == Some(x),
    decreases x.len(),
{
    if x.len() > 0 {
        lemma_escape_body_front(x);
        let e = escape_char(x[0]);
        let r = escape_body(x.drop_first());
        assert(has_at(s, i, e + r));
        lemma_has_at_concat(s, i, e, r);
        lemma_decode_escape_char(s, i, x[0]);
        assert(s.subrange(i + e.len(), s.len() as int) =~= r);
        lemma_unescape_escaped(s, i + e.len(), x.drop_first());
        assert(seq![x[0]] + x.drop_first() =~= x);
    } else {
        assert(s.subrange(i, s.len() as int).len() == 0);
    }
}

/// Unescaping undoes escaping: the content of the JSON string literal of
/// `x` decodes to `x`.
pub proof fn law_unescape_escape(x: Seq<char>)
    ensures
        unescape_from(escape_body(x), 0) == Some(x),
{
    let s = escape_body(x);
    assert(s.subrange(0, s.len() as int) =~= s);
    lemma_unescape_escaped(s, 0, x);
}

/// A plain string is its own escape.
pub proof fn lemma_plain_escape(x: Seq<char>)
    requires
        plain(x),
    ensures
        escape_body(x) == x,
    decreases x.len(),
{
    if x.len() > 0 {
        let pre = x.subrange(0, x.len() - 1);
        assert(plain(pre)) by {
            assert forall|k: int| 0 <= k < pre.len() implies (#[trigger] pre[k]) != '"' && pre[k] != '\\' && (pre[k] as u32)
                >= 0x20 by {
                assert(pre[k] == x[k]);
            }
        }
        lemma_plain_escape(pre);
        let c = x[x.len() - 1];
        assert(c != '"' && c != '\\' && (c as u32) >= 0x20);
        assert(c != '\n' && c != '\r' && c != '\t') by {
            assert(('\n' as u32) < 0x20);
            assert(('\r' as u32) < 0x20);
            assert(('\t' as u32) < 0x20);
        }
        assert(escape_char(c) == seq![c]);
        assert(x =~= pre + seq![c]);
    }
}

// ---------------------------------------------------------------------------
// Integers
// ---------------------------------------------------------------------------

/// The decimal digits of a natural number: at least one, all digits, no
/// leading zero, and their value is the number.
pub proof fn lemma_nat_text(m: nat)
    ensures
        nat_text(m).len() >= 1,
        forall|k: int| 0 <= k < nat_text(m).len() ==> is_digit(#[trigger] nat_text(m)[k]),
        m > 0 ==> nat_text(m)[0] != '0',
        digits_value(nat_text(m)) == m,
    decreases m,
{
    if m < 10 {
        lemma_digit_char(m as int);
        let t = nat_text(m);
        assert(t.subrange(0, 0) =~= Seq::<char>::empty());
        assert(digits_value(t.subrange(0, 0)) == 0);
    } else {
        lemma_nat_text(m / 10);
        lemma_digit_char((m % 10) as int);
        let pre = nat_text(m / 10);
        let t = nat_text(m);
        assert(t == pre.push(digit_char((m % 10) as int)));
        assert(t.subrange(0, t.len() - 1) =~= pre);
        assert(t[0] == pre[0]);
        assert forall|k: int| 0 <= k < t.len() implies is_digit(#[trigger] t[k]) by {
            if k < pre.len() {
                assert(t[k] == pre[k]);
            }
        }
        assert((m / 10) * 10 + m % 10 == m);
    }
}

/// A run of digits followed by a character that is not a digit ends there.
pub proof fn lemma_digits_run(s: Seq<char>, a: int, ds: Seq<char>)
    requires
        has_at(s, a, ds),
        forall|k: int| 0 <= k < ds.len() ==> is_digit(#[trigger] ds[k]),
        a + ds.len() < s.len() ==> !is_digit(s[a + ds.len()]),
    ensures
        digits_end(s, a) == a + ds.len(),
    decreases ds.len(),
{
    if ds.len() > 0 {
        lemma_has_at_index(s, a, ds, 0);
        assert(ds =~= seq![ds[0]] + ds.drop_first());
        lemma_has_at_concat(s, a, seq![ds[0]], ds.drop_first());
        assert forall|k: int| 0 <= k < ds.drop_first().len() implies is_digit(#[trigger] ds.drop_first()[k]) by {
            assert(ds.drop_first()[k] == ds[k + 1]);
        }
        lemma_digits_run(s, a + 1, ds.drop_first());
    }
}

/// The decimal text of an integer reads back as that integer.
pub proof fn lemma_parse_int(s: Seq<char>, i: int, n: i64, t: FloatTableModel)
    requires
        has_at(s, i, int_text(n as int)),
        boundary(s, i + int_text(n as int).len()),
    ensures
        parse_value(s, i, t) == Ok::<(ValueModel, int), Option<Seq<char>>>((ValueModel::Int(n), i + int_text(n as int).len())),
{
    let txt = int_text(n as int);
    let e = i + txt.len();
    let m: nat = if n < 0 { (-n) as nat } else { n as nat };
    let ds = nat_text(m);
    lemma_nat_text(m);
    let a = if n < 0 { i + 1 } else { i };
    if n < 0 {
        assert(txt == seq!['-'] + ds);
        lemma_has_at_concat(s, i, seq!['-'], ds);
        lemma_has_at_index(s, i, seq!['-'], 0);
    } else {
        assert(txt == ds);
    }
    assert(has_at(s, a, ds));
    assert(e == a + ds.len());
    lemma_has_at_index(s, a, ds, 0);
    assert(s[i] == '-' || is_digit(s[i]));
    assert(s[i] != 'n' && s[i] != 't' && s[i] != 'f' && s[i] != '"');
    if m == 0 {
        assert(ds == seq![digit_char(0)]);
        lemma_digit_char(0);
        assert(s[a] == '0');
        assert(int_part_end(s, i) == Some(a + 1));
    } else {
        assert(s[a] != '0');
        lemma_digits_run(s, a, ds);
        assert(int_part_end(s, i) == Some(e));
    }
    assert(number_end(s, i) == Some(e));
    assert(s.subrange(a, e) == ds);
    assert(literal_int_value(s, i, e) == n as int);
    assert(parse_number(s, i, t) == Ok::<(ValueModel, int), Option<Seq<char>>>((ValueModel::Int(n), e)));
}

// ---------------------------------------------------------------------------
// Floats
// ---------------------------------------------------------------------------

/// A float that reads back as itself: finite (so that its text is written),
/// its text a whole number literal that is not a 64-bit integer, and the
/// table decodes that literal to this float.
pub open spec fn float_reads(bits: u64, text: Seq<char>, t: FloatTableModel) -> bool {
    &&& !is_non_finite(bits)
    &&& text.len() > 0
    &&& number_end(text, 0) == Some(text.len() as int)
    &&& !(int_part_end(text, 0) == Some(text.len() as int) && i64::MIN <= literal_int_value(text, 0, text.len() as int)
        <= i64::MAX)
    &&& float_lookup(t, text) == Some((bits, text))
}

/// A run of digits in `text` is the same run where `text` stands in `s`,
/// when what follows `text` there is not a digit.
proof fn lemma_digits_local(s: Seq<char>, i: int, text: Seq<char>, a: int)
    requires
        has_at(s, i, text),
        i + text.len() < s.len() ==> !is_digit(s[i + text.len()]),
        0 <= a <= text.len(),
    ensures
        digits_end(s, i + a) == i + digits_end(text, a),
    decreases text.len() - a,
{
    if a < text.len() {
        lemma_has_at_index(s, i, text, a);
        if is_digit(text[a]) {
            lemma_digits_local(s, i, text, a + 1);
        }
    }
}

/// A number literal reads the same where it stands in `s`, when what
/// follows it there cannot continue it.
proof fn lemma_number_local(s: Seq<char>, i: int, text: Seq<char>)
    requires
        has_at(s, i, text),
        boundary(s, i + text.len()),
        number_end(text, 0) == Some(text.len() as int),
    ensures
        number_end(s, i) == Some(i + text.len()),
        (int_part_end(s, i) == Some(i + text.len())) == (int_part_end(text, 0) == Some(text.len() as int)),
        literal_int_value(s, i, i + text.len()) == literal_int_value(text, 0, text.len() as int),
        s.subrange(i, i + text.len()) == text,
{
    let len = text.len() as int;
    let at = if 0 < len && text[0] == '-' { 1int } else { 0int };
    assert(0 < len);
    lemma_has_at_index(s, i, text, 0);
    assert(at < len);
    lemma_has_at_index(s, i, text, at);
    lemma_digits_local(s, i, text, at);
    let bt = int_part_end(text, 0)->0;
    assert(int_part_end(s, i) == Some(i + bt));
    assert(0 <= bt <= len);
    if bt < len {
        lemma_has_at_index(s, i, text, bt);
        if text[bt] == '.' {
            lemma_digits_local(s, i, text, bt + 1);
        }
    }
    let ct = if 0 <= bt < len && text[bt] == '.' { digits_end(text, bt + 1) } else { bt };
    assert(0 <= ct <= len) by {
        if 0 <= bt < len && text[bt] == '.' {
            crate::parse::lemma_digits_end(text, bt + 1);
        }
    }
    if ct < len {
        lemma_has_at_index(s, i, text, ct);
        assert(text[ct] == 'e' || text[ct] == 'E');
        let d0 = if ct + 1 < len && (text[ct + 1] == '+' || text[ct + 1] == '-') { ct + 2 } else { ct + 1 };
        assert(ct + 1 < len);
        lemma_has_at_index(s, i, text, ct + 1);
        lemma_digits_local(s, i, text, d0);
    }
    assert(s.subrange(i, i + len) == text);
    if text[0] == '-' {
        assert(s.subrange(i + 1, i + len) =~= text.subrange(1, len));
    } else {
        assert(text.subrange(0, len) =~= text);
    }
}

/// The text of a float that reads back as itself reads as that float.
proof fn lemma_parse_float(s: Seq<char>, i: int, bits: u64, text: Seq<char>, t: FloatTableModel)
    requires
        float_reads(bits, text, t),
        has_at(s, i, text),
        boundary(s, i + text.len()),
    ensures
        parse_value(s, i, t) == Ok::<(ValueModel, int), Option<Seq<char>>>(
            (ValueModel::Float(bits, text), i + text.len()),
        ),
{
    lemma_number_local(s, i, text);
    lemma_has_at_index(s, i, text, 0);
    assert(text[0] == '-' || is_digit(text[0]));
}

// ---------------------------------------------------------------------------
// Lists and objects, whatever their layout
// ---------------------------------------------------------------------------

/// Each text `ts[k]`, wherever it stands before a character that cannot
/// continue a number, reads as the value `xs[k]` and ends where the text
/// ends.
pub open spec fn reads_as(ts: Seq<Seq<char>>, xs: Seq<ValueModel>, t: FloatTableModel) -> bool {
    &&& ts.len() == xs.len()
    &&& forall|k: int, s: Seq<char>, i: int|
        0 <= k < ts.len() && #[trigger] has_at(s, i, ts[k]) && boundary(s, i + ts[k].len()) ==> parse_value(s, i, t)
            == Ok::<(ValueModel, int), Option<Seq<char>>>((xs[k], i + ts[k].len()))
}

/// Each text is non-empty and starts with a character that is not
/// whitespace.
pub open spec fn starts_solid(ts: Seq<Seq<char>>) -> bool {
    forall|k: int| 0 <= k < ts.len() ==> (#[trigger] ts[k]).len() > 0 && !is_ws(ts[k][0])
}

/// A character after which a number literal stops.
pub proof fn lemma_stop_boundary(s: Seq<char>, k: int)
    requires
        0 <= k < s.len(),
        is_ws(s[k]) || s[k] == ',' || s[k] == ']' || s[k] == '}',
    ensures
        boundary(s, k),
{
}

/// The first character of a non-empty text, or of the text that follows it
/// when it is empty.
pub proof fn lemma_next_char(s: Seq<char>, i: int, w: Seq<char>, c: char)
    requires
        has_at(s, i, w + seq![c]),
    ensures
        0 <= i + w.len() < s.len(),
        w.len() > 0 ==> s[i] == w[0],
        w.len() == 0 ==> s[i] == c,
        s[i + w.len()] == c,
{
    lemma_has_at_index(s, i, w + seq![c], w.len() as int);
    if w.len() > 0 {
        lemma_has_at_index(s, i, w + seq![c], 0);
    }
}

/// Items separated by a comma and whitespace `sep`, then whitespace `end`
/// and `]`, read as the list of their values.
pub proof fn lemma_parse_items_layout(
    s: Seq<char>,
    j: int,
    ts: Seq<Seq<char>>,
    xs: Seq<ValueModel>,
    sep: Seq<char>,
    end: Seq<char>,
    t: FloatTableModel,
)
    requires
        ts.len() >= 1,
        reads_as(ts, xs, t),
        starts_solid(ts),
        all_ws(sep),
        all_ws(end),
        has_at(s, j, join(ts, seq![','] + sep) + end + seq![']']),
    ensures
        parse_items(s, j, t) == Ok::<(Seq<ValueModel>, int), Option<Seq<char>>>(
            (xs, j + join(ts, seq![','] + sep).len() + end.len() + 1),
        ),
    decreases ts.len(),
{
    let t0 = ts[0];
    let j1 = j + t0.len();
    if ts.len() == 1 {
        assert(join(ts, seq![','] + sep) == t0);
        assert(t0 + end + seq![']'] =~= t0 + (end + seq![']']));
        lemma_has_at_concat(s, j, t0, end + seq![']']);
        lemma_next_char(s, j1, end, ']');
        lemma_stop_boundary(s, j1);
        assert(parse_value(s, j, t) == Ok::<(ValueModel, int), Option<Seq<char>>>((xs[0], j1)));
        lemma_has_at_concat(s, j1, end, seq![']']);
        lemma_skip_exact(s, j1, end);
        assert(seq![xs[0]] =~= xs);
    } else {
        let rest = join(ts.drop_first(), seq![','] + sep);
        lemma_join_front(ts, seq![','] + sep);
        let tail = sep + rest + end + seq![']'];
        assert(join(ts, seq![','] + sep) + end + seq![']'] =~= t0 + (seq![','] + tail));
        lemma_has_at_concat(s, j, t0, seq![','] + tail);
        lemma_has_at_concat(s, j1, seq![','], tail);
        lemma_has_at_index(s, j1, seq![','], 0);
        lemma_stop_boundary(s, j1);
        assert(parse_value(s, j, t) == Ok::<(ValueModel, int), Option<Seq<char>>>((xs[0], j1)));
        assert(has_at(s, j1, Seq::<char>::empty())) by {
            assert(s.subrange(j1, j1) =~= Seq::<char>::empty());
        }
        lemma_skip_exact(s, j1, Seq::<char>::empty());
        let j2 = j1 + 1 + sep.len();
        assert(tail =~= sep + (rest + end + seq![']']));
        lemma_has_at_concat(s, j1 + 1, sep, rest + end + seq![']']);
        let t1 = ts.drop_first()[0];
        if ts.drop_first().len() == 1 {
            assert(rest == t1);
        } else {
            lemma_join_front(ts.drop_first(), seq![','] + sep);
            assert(rest == t1 + (seq![','] + sep) + join(ts.drop_first().drop_first(), seq![','] + sep));
        }
        assert(rest + end + seq![']'] =~= t1 + (rest.subrange(t1.len() as int, rest.len() as int) + end + seq![']']));
        lemma_has_at_concat(s, j2, t1, rest.subrange(t1.len() as int, rest.len() as int) + end + seq![']']);
        lemma_has_at_index(s, j2, t1, 0);
        lemma_has_at_concat(s, j1 + 1, sep, rest + end + seq![']']);
        lemma_skip_exact(s, j1 + 1, sep);
        assert(reads_as(ts.drop_first(), xs.drop_first(), t)) by {
            assert forall|k: int, s2: Seq<char>, i2: int|
                0 <= k < ts.drop_first().len() && #[trigger] has_at(s2, i2, ts.drop_first()[k]) && boundary(
                    s2,
                    i2 + ts.drop_first()[k].len(),
                ) implies parse_value(s2, i2, t) == Ok::<(ValueModel, int), Option<Seq<char>>>(
                (xs.drop_first()[k], i2 + ts.drop_first()[k].len()),
            ) by {
                assert(ts.drop_first()[k] == ts[k + 1]);
                assert(has_at(s2, i2, ts[k + 1]));
            }
        }
        assert(starts_solid(ts.drop_first())) by {
            assert forall|k: int| 0 <= k < ts.drop_first().len() implies (#[trigger] ts.drop_first()[k]).len() > 0
                && !is_ws(ts.drop_first()[k][0]) by {
                assert(ts.drop_first()[k] == ts[k + 1]);
            }
        }
        assert(rest + end + seq![']'] =~= join(ts.drop_first(), seq![','] + sep) + end + seq![']']);
        lemma_parse_items_layout(s, j2, ts.drop_first(), xs.drop_first(), sep, end, t);
        assert(seq![xs[0]] + xs.drop_first() =~= xs);
    }
}

/// A member of an object as JSON writes it: the key as an escaped string
/// literal, a colon and a space, and the value's text.
pub open spec fn member_text(key: Seq<char>, text: Seq<char>) -> Seq<char> {
    seq!['"'] + escape_body(key) + seq!['"', ':', ' '] + text
}

/// The entries made of these keys and values.
pub open spec fn entries_of(keys: Seq<Seq<char>>, vs: Seq<ValueModel>) -> Entries {
    Seq::new(keys.len(), |k: int| (keys[k], vs[k]))
}

/// The texts of members made of these keys and value texts.
pub open spec fn member_texts(keys: Seq<Seq<char>>, ts: Seq<Seq<char>>) -> Seq<Seq<char>> {
    Seq::new(keys.len(), |k: int| member_text(keys[k], ts[k]))
}

/// The parts of a member that the reader meets before the value.
proof fn lemma_member_at(s: Seq<char>, j: int, key: Seq<char>, text: Seq<char>, after: Seq<char>)
    requires
        has_at(s, j, member_text(key, text) + after),
    ensures
        s[j] == '"',
        parse_string(s, j + 1) == Some((key, j + 2 + escape_body(key).len())),
        s[j + 2 + escape_body(key).len()] == ':',
        s[j + 3 + escape_body(key).len()] == ' ',
        has_at(s, j + 4 + escape_body(key).len(), text + after),
{
    let ek = escape_body(key);
    let w = member_text(key, text) + after;
    assert(w =~= seq!['"'] + ((ek + seq!['"']) + (seq![':', ' '] + (text + after))));
    lemma_has_at_concat(s, j, seq!['"'], (ek + seq!['"']) + (seq![':', ' '] + (text + after)));
    lemma_has_at_index(s, j, seq!['"'], 0);
    lemma_has_at_concat(s, j + 1, ek + seq!['"'], seq![':', ' '] + (text + after));
    lemma_parse_escaped(s, j + 1, key);
    lemma_has_at_concat(s, j + 2 + ek.len(), seq![':', ' '], text + after);
    lemma_has_at_index(s, j + 2 + ek.len(), seq![':', ' '], 0);
    lemma_has_at_index(s, j + 2 + ek.len(), seq![':', ' '], 1);
}

/// Members separated by a comma and whitespace `sep`, then whitespace `end`
/// and `}`, are bound in order after the entries `acc`.
pub proof fn lemma_parse_members_layout(
    s: Seq<char>,
    j: int,
    keys: Seq<Seq<char>>,
    ts: Seq<Seq<char>>,
    vs: Seq<ValueModel>,
    acc: Entries,
    sep: Seq<char>,
    end: Seq<char>,
    t: FloatTableModel,
)
    requires
        keys.len() == ts.len() >= 1,
        reads_as(ts, vs, t),
        starts_solid(ts),
        keys_unique(acc + entries_of(keys, vs)),
        all_ws(sep),
        all_ws(end),
        has_at(s, j, join(member_texts(keys, ts), seq![','] + sep) + end + seq!['}']),
    ensures
        parse_members(s, j, acc, t) == Ok::<(Entries, int), Option<Seq<char>>>(
            (acc + entries_of(keys, vs), j + join(member_texts(keys, ts), seq![','] + sep).len() + end.len() + 1),
        ),
    decreases keys.len(),
{
    let mts = member_texts(keys, ts);
    let k0 = keys[0];
    let t0 = ts[0];
    let v0 = vs[0];
    let es = entries_of(keys, vs);
    let after = if keys.len() == 1 {
        end + seq!['}']
    } else {
        seq![','] + sep + join(mts.drop_first(), seq![','] + sep) + end + seq!['}']
    };
    if keys.len() == 1 {
        assert(join(mts, seq![','] + sep) == mts[0]);
    } else {
        lemma_join_front(mts, seq![','] + sep);
    }
    assert(join(mts, seq![','] + sep) + end + seq!['}'] =~= member_text(k0, t0) + after);
    lemma_member_at(s, j, k0, t0, after);
    let q = j + 2 + escape_body(k0).len();
    let d = q + 2;
    let e = d + t0.len();
    lemma_has_at_concat(s, d, t0, after);
    assert(has_at(s, q, Seq::<char>::empty())) by {
        assert(s.subrange(q, q) =~= Seq::<char>::empty());
    }
    lemma_skip_exact(s, q, Seq::<char>::empty());
    assert(has_at(s, q + 1, seq![' '])) by {
        assert(s.subrange(q + 1, q + 2) =~= seq![' ']);
    }
    lemma_has_at_index(s, d, t0, 0);
    lemma_skip_exact(s, q + 1, seq![' ']);
    if keys.len() == 1 {
        lemma_next_char(s, e, end, '}');
    } else {
        assert(after =~= seq![','] + (sep + join(mts.drop_first(), seq![','] + sep) + end + seq!['}']));
        lemma_has_at_concat(s, e, seq![','], sep + join(mts.drop_first(), seq![','] + sep) + end + seq!['}']);
        lemma_has_at_index(s, e, seq![','], 0);
    }
    lemma_stop_boundary(s, e);
    assert(parse_value(s, d, t) == Ok::<(ValueModel, int), Option<Seq<char>>>((v0, e)));
    assert(es[0] == (k0, v0));
    assert forall|p: int| 0 <= p < acc.len() implies acc[p].0 != k0 by {
        assert((acc + es)[p] == acc[p]);
        assert((acc + es)[acc.len() as int] == es[0]);
    }
    lemma_obj_pos(acc, k0);
    let acc2 = obj_insert(acc, k0, v0);
    assert(acc2 == acc.push((k0, v0)));
    if keys.len() == 1 {
        lemma_has_at_concat(s, e, end, seq!['}']);
        lemma_skip_exact(s, e, end);
        assert(acc + es =~= acc2);
    } else {
        assert(has_at(s, e, Seq::<char>::empty())) by {
            assert(s.subrange(e, e) =~= Seq::<char>::empty());
        }
        lemma_skip_exact(s, e, Seq::<char>::empty());
        let rest = join(mts.drop_first(), seq![','] + sep);
        let tail = rest + end + seq!['}'];
        assert(sep + join(mts.drop_first(), seq![','] + sep) + end + seq!['}'] =~= sep + tail);
        lemma_has_at_concat(s, e + 1, sep, tail);
        let m1 = mts.drop_first()[0];
        if mts.drop_first().len() == 1 {
            assert(rest == m1);
        } else {
            lemma_join_front(mts.drop_first(), seq![','] + sep);
        }
        assert(m1 == member_text(keys[1], ts[1]));
        assert(tail =~= seq!['"'] + (tail.drop_first()));
        lemma_has_at_concat(s, e + 1 + sep.len(), seq!['"'], tail.drop_first());
        lemma_has_at_index(s, e + 1 + sep.len(), seq!['"'], 0);
        lemma_skip_exact(s, e + 1, sep);
        let keys1 = keys.drop_first();
        let ts1 = ts.drop_first();
        let vs1 = vs.drop_first();
        assert(member_texts(keys1, ts1) =~= mts.drop_first());
        assert(reads_as(ts1, vs1, t)) by {
            assert forall|k: int, s2: Seq<char>, i2: int|
                0 <= k < ts1.len() && #[trigger] has_at(s2, i2, ts1[k]) && boundary(s2, i2 + ts1[k].len()) implies parse_value(
                s2,
                i2,
                t,
            ) == Ok::<(ValueModel, int), Option<Seq<char>>>((vs1[k], i2 + ts1[k].len())) by {
                assert(ts1[k] == ts[k + 1]);
                assert(has_at(s2, i2, ts[k + 1]));
            }
        }
        assert(starts_solid(ts1)) by {
            assert forall|k: int| 0 <= k < ts1.len() implies (#[trigger] ts1[k]).len() > 0 && !is_ws(ts1[k][0]) by {
                assert(ts1[k] == ts[k + 1]);
            }
        }
        assert(acc2 + entries_of(keys1, vs1) =~= acc + es);
        lemma_parse_members_layout(s, e + 1 + sep.len(), keys1, ts1, vs1, acc2, sep, end, t);
    }
}

// ---------------------------------------------------------------------------
// Values
// ---------------------------------------------------------------------------

/// The texts of the values.
pub open spec fn value_texts(xs: Seq<ValueModel>) -> Seq<Seq<char>> {
    Seq::new(xs.len(), |k: int| json_text(xs[k]))
}

/// The keys of entries.
pub open spec fn entry_keys(es: Entries) -> Seq<Seq<char>> {
    Seq::new(es.len(), |k: int| es[k].0)
}

/// The values of entries.
pub open spec fn entry_values(es: Entries) -> Seq<ValueModel> {
    Seq::new(es.len(), |k: int| es[k].1)
}

/// The items of a list are their texts joined by `", "`.
pub proof fn lemma_items_join(xs: Seq<ValueModel>)
    ensures
        items_text(xs) == join(value_texts(xs), seq![','] + seq![' ']),
    decreases xs.len(),
{
    reveal_strlit(", ");
    if xs.len() >= 2 {
        let pre = xs.subrange(0, xs.len() - 1);
        lemma_items_join(pre);
        assert(value_texts(xs).drop_last() =~= value_texts(pre));
        assert(", "@ =~= seq![','] + seq![' ']);
    } else if xs.len() == 1 {
        assert(items_text(xs) == json_text(xs[0]));
    }
}

/// The members of an object are their texts joined by `", "`.
pub proof fn lemma_members_join(es: Entries)
    ensures
        members_text(es) == join(member_texts(entry_keys(es), value_texts(entry_values(es))), seq![','] + seq![' ']),
    decreases es.len(),
{
    reveal_strlit(", ");
    reveal_strlit("\": ");
    assert("\": "@ =~= seq!['"', ':', ' ']);
    let mts = member_texts(entry_keys(es), value_texts(entry_values(es)));
    if es.len() >= 2 {
        let pre = es.subrange(0, es.len() - 1);
        lemma_members_join(pre);
        assert(mts.drop_last() =~= member_texts(entry_keys(pre), value_texts(entry_values(pre))));
        assert(", "@ =~= seq![','] + seq![' ']);
        assert(mts.last() == member_text(es.last().0, json_text(es.last().1)));
        assert(members_text(es) =~= join(mts, seq![','] + seq![' ']));
    } else if es.len() == 1 {
        assert(mts[0] == member_text(es[0].0, json_text(es[0].1)));
        assert(members_text(es) =~= join(mts, seq![','] + seq![' ']));
    }
}

/// The text of a value is not empty and does not start with whitespace.
pub proof fn lemma_json_first(v: ValueModel, t: FloatTableModel)
    requires
        plain_value(v, t),
    ensures
        json_text(v).len() > 0,
        !is_ws(json_text(v)[0]),
        json_text(v)[0] != ']',
{
    reveal_strlit("null");
    reveal_strlit("true");
    reveal_strlit("false");
    match v {
        ValueModel::Int(n) => {
            let m: nat = if n < 0 { (-n) as nat } else { n as nat };
            lemma_nat_text(m);
            if n >= 0 {
                assert(is_digit(nat_text(m)[0]));
            }
        },
        ValueModel::Float(bits, text) => {
            assert(text[0] == '-' || is_digit(text[0]));
        },
        _ => {},
    }
}

/// A list whose items' texts read as the items reads as the list.
proof fn lemma_parse_json_list(xs: Seq<ValueModel>, t: FloatTableModel, s: Seq<char>, i: int)
    requires
        forall|k: int| 0 <= k < xs.len() ==> plain_value(#[trigger] xs[k], t),
        reads_as(value_texts(xs), xs, t),
        has_at(s, i, json_text(ValueModel::List(xs))),
    ensures
        parse_value(s, i, t) == Ok::<(ValueModel, int), Option<Seq<char>>>(
            (ValueModel::List(xs), i + json_text(ValueModel::List(xs)).len()),
        ),
{
    let txt = json_text(ValueModel::List(xs));
    lemma_has_at_index(s, i, txt, 0);
    assert(txt =~= seq!['['] + (items_text(xs) + seq![']']));
    lemma_has_at_concat(s, i, seq!['['], items_text(xs) + seq![']']);
    assert(has_at(s, i + 1, Seq::<char>::empty())) by {
        assert(s.subrange(i + 1, i + 1) =~= Seq::<char>::empty());
    }
    if xs.len() == 0 {
        assert(items_text(xs) == Seq::<char>::empty());
        lemma_has_at_index(s, i + 1, items_text(xs) + seq![']'], 0);
        lemma_skip_exact(s, i + 1, Seq::<char>::empty());
        assert(xs =~= Seq::<ValueModel>::empty());
    } else {
        let ts = value_texts(xs);
        lemma_items_join(xs);
        assert(starts_solid(ts)) by {
            assert forall|k: int| 0 <= k < ts.len() implies (#[trigger] ts[k]).len() > 0 && !is_ws(ts[k][0]) by {
                lemma_json_first(xs[k], t);
            }
        }
        let body = join(ts, seq![','] + seq![' ']);
        assert(items_text(xs) + seq![']'] =~= body + Seq::<char>::empty() + seq![']']);
        assert(body[0] == ts[0][0]) by {
            if ts.len() >= 2 {
                lemma_join_front(ts, seq![','] + seq![' ']);
            }
        }
        lemma_json_first(xs[0], t);
        lemma_has_at_index(s, i + 1, items_text(xs) + seq![']'], 0);
        lemma_skip_exact(s, i + 1, Seq::<char>::empty());
        lemma_parse_items_layout(s, i + 1, ts, xs, seq![' '], Seq::<char>::empty(), t);
    }
}

/// An object whose values' texts read as the values reads as the object.
proof fn lemma_parse_json_object(es: Entries, t: FloatTableModel, s: Seq<char>, i: int)
    requires
        plain_value(ValueModel::Object(es), t),
        reads_as(value_texts(entry_values(es)), entry_values(es), t),
        has_at(s, i, json_text(ValueModel::Object(es))),
    ensures
        parse_value(s, i, t) == Ok::<(ValueModel, int), Option<Seq<char>>>(
            (ValueModel::Object(es), i + json_text(ValueModel::Object(es)).len()),
        ),
{
    let txt = json_text(ValueModel::Object(es));
    lemma_has_at_index(s, i, txt, 0);
    assert(txt =~= seq!['{'] + (members_text(es) + seq!['}']));
    lemma_has_at_concat(s, i, seq!['{'], members_text(es) + seq!['}']);
    assert(has_at(s, i + 1, Seq::<char>::empty())) by {
        assert(s.subrange(i + 1, i + 1) =~= Seq::<char>::empty());
    }
    if es.len() == 0 {
        assert(members_text(es) == Seq::<char>::empty());
        lemma_has_at_index(s, i + 1, members_text(es) + seq!['}'], 0);
        lemma_skip_exact(s, i + 1, Seq::<char>::empty());
        assert(es =~= Seq::<(Seq<char>, ValueModel)>::empty());
    } else {
        let keys = entry_keys(es);
        let vs = entry_values(es);
        let ts = value_texts(vs);
        lemma_members_join(es);
        assert(starts_solid(ts)) by {
            assert forall|k: int| 0 <= k < ts.len() implies (#[trigger] ts[k]).len() > 0 && !is_ws(ts[k][0]) by {
                assert(plain_value(es[k].1, t));
                lemma_json_first(es[k].1, t);
            }
        }
        assert(Seq::<(Seq<char>, ValueModel)>::empty() + entries_of(keys, vs) =~= es);
        let mts = member_texts(keys, ts);
        let body = join(mts, seq![','] + seq![' ']);
        assert(members_text(es) + seq!['}'] =~= body + Seq::<char>::empty() + seq!['}']);
        lemma_has_at_index(s, i + 1, members_text(es) + seq!['}'], 0);
        assert(body[0] == '"') by {
            if mts.len() >= 2 {
                lemma_join_front(mts, seq![','] + seq![' ']);
            }
            assert(mts[0] == member_text(keys[0], ts[0]));
        }
        lemma_skip_exact(s, i + 1, Seq::<char>::empty());
        lemma_parse_members_layout(
            s,
            i + 1,
            keys,
            ts,
            vs,
            Seq::<(Seq<char>, ValueModel)>::empty(),
            seq![' '],
            Seq::<char>::empty(),
            t,
        );
    }
}

/// The JSON text of a plain value, wherever it stands before a character
/// that cannot continue a number, reads back as the value and ends where
/// the text ends.
pub proof fn lemma_parse_json(v: ValueModel, t: FloatTableModel, s: Seq<char>, i: int)
    requires
        plain_value(v, t),
        has_at(s, i, json_text(v)),
        boundary(s, i + json_text(v).len()),
    ensures
        parse_value(s, i, t) == Ok::<(ValueModel, int), Option<Seq<char>>>((v, i + json_text(v).len())),
    decreases v,
{
    reveal_strlit("null");
    reveal_strlit("true");
    reveal_strlit("false");
    let txt = json_text(v);
    lemma_json_first(v, t);
    lemma_has_at_index(s, i, txt, 0);
    match v {
        ValueModel::Int(n) => {
            lemma_parse_int(s, i, n, t);
        },
        ValueModel::Float(bits, text) => {
            lemma_parse_float(s, i, bits, text, t);
        },
        ValueModel::Text(x) => {
            assert(txt =~= seq!['"'] + (escape_body(x) + seq!['"']));
            lemma_has_at_concat(s, i, seq!['"'], escape_body(x) + seq!['"']);
            lemma_parse_escaped(s, i + 1, x);
        },
        ValueModel::List(xs) => {
            let ts = value_texts(xs);
            assert forall|k: int, s2: Seq<char>, i2: int|
                0 <= k < ts.len() && #[trigger] has_at(s2, i2, ts[k]) && boundary(s2, i2 + ts[k].len()) implies parse_value(
                s2,
                i2,
                t,
            ) == Ok::<(ValueModel, int), Option<Seq<char>>>((xs[k], i2 + ts[k].len())) by {
                lemma_parse_json(xs[k], t, s2, i2);
            }
            lemma_parse_json_list(xs, t, s, i);
        },
        ValueModel::Object(es) => {
            let vs = entry_values(es);
            let ts = value_texts(vs);
            assert forall|k: int, s2: Seq<char>, i2: int|
                0 <= k < ts.len() && #[trigger] has_at(s2, i2, ts[k]) && boundary(s2, i2 + ts[k].len()) implies parse_value(
                s2,
                i2,
                t,
            ) == Ok::<(ValueModel, int), Option<Seq<char>>>((vs[k], i2 + ts[k].len())) by {
                assert(plain_value(es[k].1, t));
                lemma_parse_json(es[k].1, t, s2, i2);
            }
            lemma_parse_json_object(es, t, s, i);
        },
        _ => {},
    }
}

/// Reading back what serialization wrote gives the value again: the JSON
/// text of a plain value (finite floats whose literal the table decodes to
/// them, objects with distinct keys) is a document that reads as that value.
pub proof fn law_read_back_json(v: ValueModel, t: FloatTableModel)
    requires
        plain_value(v, t),
    ensures
        parse_document(json_text(v), t) == Ok::<(ValueModel, int), Option<Seq<char>>>((v, json_text(v).len() as int)),
{
    let s = json_text(v);
    lemma_json_first(v, t);
    assert(has_at(s, 0, s)) by {
        assert(s.subrange(0, s.len() as int) =~= s);
    }
    assert(has_at(s, 0, Seq::<char>::empty())) by {
        assert(s.subrange(0, 0) =~= Seq::<char>::empty());
    }
    lemma_skip_exact(s, 0, Seq::<char>::empty());
    lemma_parse_json(v, t, s, 0);
    assert(has_at(s, s.len() as int, Seq::<char>::empty())) by {
        assert(s.subrange(s.len() as int, s.len() as int) =~= Seq::<char>::empty());
    }
    lemma_skip_exact(s, s.len() as int, Seq::<char>::empty());
}

} // verus!
