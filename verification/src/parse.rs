//! Reading JSON text back into values.
use vstd::prelude::*;
use crate::value::{Value, ValueModel, Entries, Number, ObjectMap, obj_insert, value_model, lemma_list_model, lemma_object_model};
use crate::text::{char_from_code, push_char, chars_of};
use crate::error::DeebeeError;
use vstd::string::StringExecFns;

verus! {

// ---------------------------------------------------------------------------
// Specification of the grammar
// ---------------------------------------------------------------------------

/// The outcome of reading a piece of text that starts at some position:
/// the thing read and the position just after it; `Err(None)` when the text
/// is not in the grammar; `Err(Some(t))` when it holds a number literal `t`
/// that is not a 64-bit integer and that the float table does not decode.
pub type Parsed<T> = Result<(T, int), Option<Seq<char>>>;

/// A float table: number literals and the float each one denotes (its bit
/// pattern and its rendering).
pub type FloatTableModel = Seq<(Seq<char>, (u64, Seq<char>))>;

/// JSON whitespace.
pub open spec fn is_ws(c: char) -> bool {
    c == ' ' || c == '\t' || c == '\n' || c == '\r'
}

/// An ASCII decimal digit.
pub open spec fn is_digit(c: char) -> bool {
    '0' <= c && c <= '9'
}

/// An ASCII hexadecimal digit.
pub open spec fn is_hex(c: char) -> bool {
    ('0' <= c && c <= '9') || ('a' <= c && c <= 'f') || ('A' <= c && c <= 'F')
}

/// The value of a hexadecimal digit.
pub open spec fn hex_value(c: char) -> int {
    if '0' <= c && c <= '9' {
        (c as int) - 48
    } else if 'a' <= c && c <= 'f' {
        (c as int) - 87
    } else {
        (c as int) - 55
    }
}

/// The position of the first non-whitespace character at or after `i`.
pub open spec fn skip_ws(s: Seq<char>, i: int) -> int
    decreases s.len() - i,
{
    if 0 <= i < s.len() && is_ws(s[i]) {
        skip_ws(s, i + 1)
    } else {
        i
    }
}

/// The position of the first non-digit at or after `i`.
pub open spec fn digits_end(s: Seq<char>, i: int) -> int
    decreases s.len() - i,
{
    if 0 <= i < s.len() && is_digit(s[i]) {
        digits_end(s, i + 1)
    } else {
        i
    }
}

/// The text at `i` is `lit`.
pub open spec fn has_at(s: Seq<char>, i: int, lit: Seq<char>) -> bool {
    0 <= i && i + lit.len() <= s.len() && s.subrange(i, i + lit.len()) == lit
}

/// The value of four hexadecimal digits at `i`, if they are there.
pub open spec fn hex4_at(s: Seq<char>, i: int) -> Option<int> {
    if 0 <= i && i + 4 <= s.len() && is_hex(s[i]) && is_hex(s[i + 1]) && is_hex(s[i + 2]) && is_hex(s[i + 3]) {
        Some(hex_value(s[i]) * 4096 + hex_value(s[i + 1]) * 256 + hex_value(s[i + 2]) * 16 + hex_value(s[i + 3]))
    } else {
        None
    }
}

/// The character that a single-character escape `\c` stands for.
pub open spec fn simple_escape(c: char) -> Option<char> {
    if c == '"' {
        Some('"')
    } else if c == '\\' {
        Some('\\')
    } else if c == '/' {
        Some('/')
    } else if c == 'b' {
        Some('\x08')
    } else if c == 'f' {
        Some('\x0c')
    } else if c == 'n' {
        Some('\n')
    } else if c == 'r' {
        Some('\r')
    } else if c == 't' {
        Some('\t')
    } else {
        None
    }
}

/// A code point that is a character (not a surrogate, not above U+10FFFF).
pub open spec fn is_scalar(cp: int) -> bool {
    (0 <= cp < 0xD800) || (0xE000 <= cp <= 0x10FFFF)
}

/// A `\uXXXX` escape at `i`: that code point when it is a character; for a
/// high surrogate, it must be followed by `\uXXXX` with a low surrogate, and
/// the pair gives the combined code point.
pub open spec fn decode_u_escape(s: Seq<char>, i: int) -> Option<(char, int)> {
    match hex4_at(s, i + 2) {
        Some(cp) => if is_scalar(cp) {
            Some((cp as char, i + 6))
        } else if 0xD800 <= cp < 0xDC00 && has_at(s, i + 6, "\\u"@) {
            match hex4_at(s, i + 8) {
                Some(lo) => if 0xDC00 <= lo < 0xE000 {
                    Some(((0x10000 + (cp - 0xD800) * 1024 + (lo - 0xDC00)) as char, i + 12))
                } else {
                    None
                },
                None => None,
            }
        } else {
            None
        },
        None => None,
    }
}

/// A character is the character of its code point.
pub proof fn lemma_char_code(c: char, cp: u32)
    requires
        c as u32 == cp,
    ensures
        (cp as int) as char == c,
        is_scalar(cp as int),
{
}

/// One unit of string content at `i` (which is not a closing quote): an
/// escape sequence, or a character at or above U+0020 standing for itself.
/// `\uXXXX` gives that code point; a high surrogate must be followed by
/// `\uXXXX` with a low surrogate, and the pair gives the combined code point.
pub open spec fn decode_unit(s: Seq<char>, i: int) -> Option<(char, int)> {
    if !(0 <= i < s.len()) {
        None
    } else if s[i] == '\\' {
        if i + 1 >= s.len() {
            None
        } else if s[i + 1] == 'u' {
            decode_u_escape(s, i)
        } else {
            match simple_escape(s[i + 1]) {
                Some(c) => Some((c, i + 2)),
                None => None,
            }
        }
    } else if (s[i] as u32) < 0x20 {
        None
    } else {
        Some((s[i], i + 1))
    }
}

/// The content of a string literal whose opening quote is just before `i`:
/// the decoded characters and the position after the closing quote.
pub open spec fn parse_string(s: Seq<char>, i: int) -> Option<(Seq<char>, int)>
    decreases s.len() - i,
{
    if !(0 <= i < s.len()) {
        None
    } else if s[i] == '"' {
        Some((Seq::empty(), i + 1))
    } else {
        match decode_unit(s, i) {
            Some((c, j)) => if i < j {
                match parse_string(s, j) {
                    Some((rest, e)) => Some((seq![c] + rest, e)),
                    None => None,
                }
            } else {
                None
            },
            None => None,
        }
    }
}

/// The decoded characters of `s` from `i` to its end, where `s` holds string
/// content without quotes: `None` when it holds an unescaped quote, a raw
/// control character or a malformed escape.
pub open spec fn unescape_from(s: Seq<char>, i: int) -> Option<Seq<char>>
    decreases s.len() - i,
{
    if !(0 <= i < s.len()) {
        Some(Seq::empty())
    } else if s[i] == '"' {
        None
    } else {
        match decode_unit(s, i) {
            Some((c, j)) => if i < j {
                match unescape_from(s, j) {
                    Some(rest) => Some(seq![c] + rest),
                    None => None,
                }
            } else {
                None
            },
            None => None,
        }
    }
}

/// The value of a sequence of decimal digits.
pub open spec fn digits_value(ds: Seq<char>) -> int
    decreases ds.len(),
{
    if ds.len() == 0 {
        0
    } else {
        digits_value(ds.subrange(0, ds.len() - 1)) * 10 + ((ds[ds.len() - 1] as int) - 48)
    }
}

/// The end of the integer part of a number literal that starts at `i`
/// (after an optional `-`): `0`, or a non-zero digit followed by digits.
pub open spec fn int_part_end(s: Seq<char>, i: int) -> Option<int> {
    let a = if 0 <= i < s.len() && s[i] == '-' { i + 1 } else { i };
    if 0 <= a < s.len() && s[a] == '0' {
        Some(a + 1)
    } else if 0 <= a < s.len() && '1' <= s[a] && s[a] <= '9' {
        Some(digits_end(s, a))
    } else {
        None
    }
}

/// The end of a number literal that starts at `i`: an integer part, an
/// optional fraction `.digits`, and an optional exponent `e[+-]digits`.
pub open spec fn number_end(s: Seq<char>, i: int) -> Option<int> {
    match int_part_end(s, i) {
        None => None,
        Some(b) => {
            let c = if 0 <= b < s.len() && s[b] == '.' { digits_end(s, b + 1) } else { b };
            if 0 <= b < s.len() && s[b] == '.' && c == b + 1 {
                None
            } else if 0 <= c < s.len() && (s[c] == 'e' || s[c] == 'E') {
                let d0 = if c + 1 < s.len() && (s[c + 1] == '+' || s[c + 1] == '-') { c + 2 } else { c + 1 };
                let d = digits_end(s, d0);
                if d == d0 {
                    None
                } else {
                    Some(d)
                }
            } else {
                Some(c)
            }
        },
    }
}

/// The integer that the digits from `i` (after an optional `-`) up to `e`
/// denote, negated after a `-`.
pub open spec fn literal_int_value(s: Seq<char>, i: int, e: int) -> int {
    if 0 <= i < s.len() && s[i] == '-' {
        -digits_value(s.subrange(i + 1, e))
    } else {
        digits_value(s.subrange(i, e))
    }
}

/// The float a table gives for a literal: its first entry for it.
pub open spec fn float_lookup(t: FloatTableModel, tok: Seq<char>) -> Option<(u64, Seq<char>)>
    decreases t.len(),
{
    if t.len() == 0 {
        None
    } else if t[0].0 == tok {
        Some(t[0].1)
    } else {
        float_lookup(t.drop_first(), tok)
    }
}

/// A number at `i`: a literal without fraction or exponent, within the range
/// of `i64`, is an `Int`; any other literal is the float that the table
/// gives for it.
pub open spec fn parse_number(s: Seq<char>, i: int, t: FloatTableModel) -> Parsed<ValueModel> {
    match number_end(s, i) {
        None => Err(None),
        Some(e) => {
            let tok = s.subrange(i, e);
            let n = literal_int_value(s, i, e);
            if int_part_end(s, i) == Some(e) && i64::MIN <= n <= i64::MAX {
                Ok((ValueModel::Int(n as i64), e))
            } else {
                match float_lookup(t, tok) {
                    Some((bits, text)) => Ok((ValueModel::Float(bits, text), e)),
                    None => Err(Some(tok)),
                }
            }
        },
    }
}


/// Skipping whitespace never moves backwards, nor past the end.
pub proof fn lemma_skip_ws(s: Seq<char>, i: int)
    ensures
        skip_ws(s, i) >= i,
        0 <= i <= s.len() ==> skip_ws(s, i) <= s.len(),
        0 <= skip_ws(s, i) < s.len() ==> !is_ws(s[skip_ws(s, i)]),
        forall|k: int| i <= k < skip_ws(s, i) ==> is_ws(s[k]),
    decreases s.len() - i,
{
    if 0 <= i < s.len() && is_ws(s[i]) {
        lemma_skip_ws(s, i + 1);
    }
}

/// Skipping whitespace never moves backwards, nor past the end, from any
/// position.
pub proof fn lemma_skip_ws_all(s: Seq<char>)
    ensures
        forall|x: int| #[trigger] skip_ws(s, x) >= x && (0 <= x <= s.len() ==> skip_ws(s, x) <= s.len()),
{
    assert forall|x: int| #[trigger] skip_ws(s, x) >= x && (0 <= x <= s.len() ==> skip_ws(s, x) <= s.len()) by {
        lemma_skip_ws(s, x);
    }
}

/// A string literal ends after the position where its content starts.
pub proof fn lemma_parse_string_pos(s: Seq<char>, i: int)
    ensures
        parse_string(s, i) matches Some((c, e)) ==> i < e <= s.len(),
    decreases s.len() - i,
{
    if 0 <= i < s.len() && s[i] != '"' {
        if let Some((c, j)) = decode_unit(s, i) {
            if i < j {
                lemma_parse_string_pos(s, j);
            }
        }
    }
}

/// Reading a value only moves forward.
#[via_fn]
proof fn parse_value_decreases(s: Seq<char>, i: int, t: FloatTableModel) {
    lemma_skip_ws_all(s);
}

/// Reading items only moves forward.
#[via_fn]
proof fn parse_items_decreases(s: Seq<char>, i: int, t: FloatTableModel) {
    lemma_skip_ws_all(s);
}

/// Reading members only moves forward.
#[via_fn]
proof fn parse_members_decreases(s: Seq<char>, i: int, acc: Entries, t: FloatTableModel) {
    lemma_skip_ws_all(s);
    lemma_parse_string_pos(s, i + 1);
}

/// A value at `i` (which must not be whitespace): the value and the position
/// after it.
pub open spec fn parse_value(s: Seq<char>, i: int, t: FloatTableModel) -> Parsed<ValueModel>
    decreases s.len() - i, 0int
    via parse_value_decreases
{
    if !(0 <= i < s.len()) {
        Err(None)
    } else if s[i] == 'n' {
        if has_at(s, i, "null"@) { Ok((ValueModel::Null, i + 4)) } else { Err(None) }
    } else if s[i] == 't' {
        if has_at(s, i, "true"@) { Ok((ValueModel::Bool(true), i + 4)) } else { Err(None) }
    } else if s[i] == 'f' {
        if has_at(s, i, "false"@) { Ok((ValueModel::Bool(false), i + 5)) } else { Err(None) }
    } else if s[i] == '"' {
        match parse_string(s, i + 1) {
            Some((text, j)) => Ok((ValueModel::Text(text), j)),
            None => Err(None),
        }
    } else if s[i] == '-' || is_digit(s[i]) {
        parse_number(s, i, t)
    } else if s[i] == '[' {
        let j = skip_ws(s, i + 1);
        if 0 <= j < s.len() && s[j] == ']' {
            Ok((ValueModel::List(Seq::empty()), j + 1))
        } else {
            match parse_items(s, j, t) {
                Ok((xs, e)) => Ok((ValueModel::List(xs), e)),
                Err(m) => Err(m),
            }
        }
    } else if s[i] == '{' {
        let j = skip_ws(s, i + 1);
        if 0 <= j < s.len() && s[j] == '}' {
            Ok((ValueModel::Object(Seq::empty()), j + 1))
        } else {
            match parse_members(s, j, Seq::empty(), t) {
                Ok((es, e)) => Ok((ValueModel::Object(es), e)),
                Err(m) => Err(m),
            }
        }
    } else {
        Err(None)
    }
}

/// The items of a list from `i` (the start of an item) to the closing `]`:
/// items separated by commas, with whitespace around them.
pub open spec fn parse_items(s: Seq<char>, i: int, t: FloatTableModel) -> Parsed<Seq<ValueModel>>
    decreases s.len() - i, 1int
    via parse_items_decreases
{
    match parse_value(s, i, t) {
        Ok((v, j)) => if j <= i {
            Err(None)
        } else {
            let k = skip_ws(s, j);
            if 0 <= k < s.len() && s[k] == ']' {
                Ok((seq![v], k + 1))
            } else if 0 <= k < s.len() && s[k] == ',' {
                match parse_items(s, skip_ws(s, k + 1), t) {
                    Ok((vs, e)) => Ok((seq![v] + vs, e)),
                    Err(m) => Err(m),
                }
            } else {
                Err(None)
            }
        },
        Err(m) => Err(m),
    }
}

/// The members of an object from `i` (the start of a key) to the closing
/// `}`, bound into `acc` in order: `"key": value` pairs separated by commas;
/// a repeated key keeps its first place and takes the later value.
pub open spec fn parse_members(s: Seq<char>, i: int, acc: Entries, t: FloatTableModel) -> Parsed<Entries>
    decreases s.len() - i, 1int
    via parse_members_decreases
{
    if !(0 <= i < s.len() && s[i] == '"') {
        Err(None)
    } else {
        match parse_string(s, i + 1) {
            None => Err(None),
            Some((k, j)) => {
                let c = skip_ws(s, j);
                if !(0 <= c < s.len() && s[c] == ':') {
                    Err(None)
                } else {
                    let d = skip_ws(s, c + 1);
                    match parse_value(s, d, t) {
                        Ok((v, e)) => if e <= d {
                            Err(None)
                        } else {
                            let acc2 = obj_insert(acc, k, v);
                            let f = skip_ws(s, e);
                            if 0 <= f < s.len() && s[f] == '}' {
                                Ok((acc2, f + 1))
                            } else if 0 <= f < s.len() && s[f] == ',' {
                                parse_members(s, skip_ws(s, f + 1), acc2, t)
                            } else {
                                Err(None)
                            }
                        },
                        Err(m) => Err(m),
                    }
                }
            },
        }
    }
}

/// A whole JSON document: one value with optional whitespace around it.
pub open spec fn parse_document(s: Seq<char>, t: FloatTableModel) -> Parsed<ValueModel> {
    match parse_value(s, skip_ws(s, 0), t) {
        Ok((v, j)) => if skip_ws(s, j) == s.len() { Ok((v, s.len() as int)) } else { Err(None) },
        Err(m) => Err(m),
    }
}


// ---------------------------------------------------------------------------
// Reading: characters and strings
// ---------------------------------------------------------------------------

/// The position of the first non-whitespace character at or after `i`.
pub fn skip_whitespace(s: &Vec<char>, i: usize) -> (r: usize)
    requires
        i <= s@.len(),
    ensures
        r == skip_ws(s@, i as int),
        i <= r <= s@.len(),
{
    let mut k = i;
    while k < s.len() && (s[k] == ' ' || s[k] == '\t' || s[k] == '\n' || s[k] == '\r')
        invariant
            i <= k <= s@.len(),
            skip_ws(s@, i as int) == skip_ws(s@, k as int),
        decreases s@.len() - k,
    {
        k = k + 1;
    }
    k
}

/// The text at `i` is `lit`.
fn text_at(s: &Vec<char>, i: usize, lit: &str) -> (r: bool)
    ensures
        r == has_at(s@, i as int, lit@),
{
    let l = crate::text::chars_of(lit);
    if i > s.len() || l.len() > s.len() - i {
        return false;
    }
    let n = l.len();
    let mut k: usize = 0;
    while k < n
        invariant
            n == l@.len(),
            l@ == lit@,
            i + n <= s@.len(),
            s@.len() == s.len(),
            0 <= k <= n,
            forall|m: int| 0 <= m < k ==> s@[i + m] == l@[m],
        decreases n - k,
    {
        assert(i + k < s@.len());
        if s[i + k] != l[k] {
            assert(s@.subrange(i as int, i + n)[k as int] != lit@[k as int]);
            return false;
        }
        k = k + 1;
    }
    assert(s@.subrange(i as int, i + n) =~= lit@);
    true
}

/// The value of a hexadecimal digit, if it is one.
fn hex_digit_value(c: char) -> (r: Option<u32>)
    ensures
        match r {
            Some(v) => is_hex(c) && v == hex_value(c),
            None => !is_hex(c),
        },
{
    if '0' <= c && c <= '9' {
        Some((c as u32) - 48)
    } else if 'a' <= c && c <= 'f' {
        Some((c as u32) - 87)
    } else if 'A' <= c && c <= 'F' {
        Some((c as u32) - 55)
    } else {
        None
    }
}

/// The value of four hexadecimal digits at `i`.
fn hex4(s: &Vec<char>, i: usize) -> (r: Option<u32>)
    ensures
        match r {
            Some(v) => hex4_at(s@, i as int) == Some(v as int),
            None => hex4_at(s@, i as int) is None,
        },
{
    if i > s.len() || s.len() - i < 4 {
        return None;
    }
    let a = hex_digit_value(s[i]);
    let b = hex_digit_value(s[i + 1]);
    let c = hex_digit_value(s[i + 2]);
    let d = hex_digit_value(s[i + 3]);
    match (a, b, c, d) {
        (Some(a), Some(b), Some(c), Some(d)) => Some(a * 4096 + b * 256 + c * 16 + d),
        _ => None,
    }
}

/// The character that a single-character escape stands for.
fn simple_escape_exec(c: char) -> (r: Option<char>)
    ensures
        r == simple_escape(c),
{
    if c == '"' {
        Some('"')
    } else if c == '\\' {
        Some('\\')
    } else if c == '/' {
        Some('/')
    } else if c == 'b' {
        Some('\x08')
    } else if c == 'f' {
        Some('\x0c')
    } else if c == 'n' {
        Some('\n')
    } else if c == 'r' {
        Some('\r')
    } else if c == 't' {
        Some('\t')
    } else {
        None
    }
}

/// A `\\uXXXX` escape at `i`.
fn decode_u_escape_exec(s: &Vec<char>, i: usize) -> (r: Option<(char, usize)>)
    requires
        i + 1 < s.len(),
    ensures
        match r {
            Some((c, j)) => decode_u_escape(s@, i as int) == Some((c, j as int)),
            None => decode_u_escape(s@, i as int) is None,
        },
{
    match hex4(s, i + 2) {
        Some(cp) => {
            match char_from_code(cp) {
                Some(ch) => {
                    assert(ch as u32 == cp);
                    proof {
                        lemma_char_code(ch, cp);
                    }
                    return Some((ch, i + 6));
                },
                None => {},
            }
            proof {
                reveal_strlit("\\u");
            }
            if 0xD800 <= cp && cp < 0xDC00 && text_at(s, i + 6, "\\u") {
                match hex4(s, i + 8) {
                    Some(lo) => {
                        if 0xDC00 <= lo && lo < 0xE000 {
                            let full = 0x10000 + (cp - 0xD800) * 1024 + (lo - 0xDC00);
                            match char_from_code(full) {
                                Some(ch) => {
                                    proof {
                                        lemma_char_code(ch, full);
                                    }
                                    return Some((ch, i + 12));
                                },
                                None => {
                                    return None;
                                },
                            }
                        }
                        None
                    },
                    None => None,
                }
            } else {
                None
            }
        },
        None => None,
    }
}

/// One unit of string content at `i`.
fn decode_unit_exec(s: &Vec<char>, i: usize) -> (r: Option<(char, usize)>)
    ensures
        match r {
            Some((c, j)) => decode_unit(s@, i as int) == Some((c, j as int)),
            None => decode_unit(s@, i as int) is None,
        },
{
    if i >= s.len() {
        return None;
    }
    let c = s[i];
    if c == '\\' {
        if i + 1 >= s.len() {
            return None;
        }
        if s[i + 1] == 'u' {
            decode_u_escape_exec(s, i)
        } else {
            match simple_escape_exec(s[i + 1]) {
                Some(e) => Some((e, i + 2)),
                None => None,
            }
        }
    } else if (c as u32) < 0x20 {
        None
    } else {
        Some((c, i + 1))
    }
}

/// The content of a string literal whose opening quote is just before `i`.
fn parse_string_exec(s: &Vec<char>, i: usize) -> (r: Option<(String, usize)>)
    ensures
        match r {
            Some((text, e)) => parse_string(s@, i as int) == Some((text@, e as int)) && e <= s.len(),
            None => parse_string(s@, i as int) is None,
        },
{
    let mut out = String::new();
    let mut k = i;
    loop
        invariant
            i <= k,
            parse_string(s@, i as int) == (match parse_string(s@, k as int) {
                Some((rest, e)) => Some((out@ + rest, e)),
                None => None,
            }),
        decreases s@.len() - k,
    {
        if k >= s.len() {
            return None;
        }
        if s[k] == '"' {
            assert(out@ + Seq::<char>::empty() =~= out@);
            return Some((out, k + 1));
        }
        match decode_unit_exec(s, k) {
            Some((c, j)) => {
                if j <= k {
                    return None;
                }
                proof {
                    match parse_string(s@, j as int) {
                        Some((rest, e)) => {
                            assert(out@ + (seq![c] + rest) =~= out@.push(c) + rest);
                        },
                        None => {},
                    }
                }
                push_char(&mut out, c);
                k = j;
            },
            None => {
                return None;
            },
        }
    }
}


// ---------------------------------------------------------------------------
// Reading: numbers
// ---------------------------------------------------------------------------

/// The characters from `i` up to `digits_end` are digits, and the one at
/// `digits_end` (if any) is not.
pub proof fn lemma_digits_end(s: Seq<char>, i: int)
    requires
        0 <= i,
    ensures
        digits_end(s, i) >= i,
        i <= s.len() ==> digits_end(s, i) <= s.len(),
        forall|k: int| i <= k < digits_end(s, i) ==> is_digit(s[k]),
        0 <= digits_end(s, i) < s.len() ==> !is_digit(s[digits_end(s, i)]),
    decreases s.len() - i,
{
    if 0 <= i < s.len() && is_digit(s[i]) {
        lemma_digits_end(s, i + 1);
    }
}

/// The position of the first non-digit at or after `i`.
fn digits_end_exec(s: &Vec<char>, i: usize) -> (r: usize)
    requires
        i <= s.len(),
    ensures
        r == digits_end(s@, i as int),
        i <= r <= s.len(),
{
    let mut k = i;
    while k < s.len() && '0' <= s[k] && s[k] <= '9'
        invariant
            i <= k <= s.len(),
            digits_end(s@, i as int) == digits_end(s@, k as int),
        decreases s.len() - k,
    {
        k = k + 1;
    }
    k
}

/// The end of the integer part of a number literal at `i`.
fn int_part_end_exec(s: &Vec<char>, i: usize) -> (r: Option<usize>)
    requires
        i < s.len(),
    ensures
        match r {
            Some(b) => int_part_end(s@, i as int) == Some(b as int) && b <= s.len(),
            None => int_part_end(s@, i as int) is None,
        },
{
    let a = if s[i] == '-' { i + 1 } else { i };
    if a < s.len() && s[a] == '0' {
        Some(a + 1)
    } else if a < s.len() && '1' <= s[a] && s[a] <= '9' {
        Some(digits_end_exec(s, a))
    } else {
        None
    }
}

/// The end of a number literal at `i`, and the end of its integer part.
fn number_end_exec(s: &Vec<char>, i: usize) -> (r: Option<(usize, usize)>)
    requires
        i < s.len(),
    ensures
        match r {
            Some((e, b)) => number_end(s@, i as int) == Some(e as int) && int_part_end(s@, i as int) == Some(
                b as int,
            ) && i < b <= e <= s.len(),
            None => number_end(s@, i as int) is None,
        },
{
    let b = match int_part_end_exec(s, i) {
        Some(b) => b,
        None => {
            return None;
        },
    };
    proof {
        let a = if s@[i as int] == '-' { i + 1 } else { i as int };
        lemma_digits_end(s@, a);
    }
    let is_frac = b < s.len() && s[b] == '.';
    let c = if is_frac { digits_end_exec(s, b + 1) } else { b };
    if is_frac && c == b + 1 {
        return None;
    }
    if c < s.len() && (s[c] == 'e' || s[c] == 'E') {
        let d0 = if c + 1 < s.len() && (s[c + 1] == '+' || s[c + 1] == '-') { c + 2 } else { c + 1 };
        let d = digits_end_exec(s, d0);
        if d == d0 {
            None
        } else {
            Some((d, b))
        }
    } else {
        Some((c, b))
    }
}

/// The integer that the digits of an integer literal from `i` to `e`
/// denote, if it is within the range of `i64`.
fn int_literal_value(s: &Vec<char>, i: usize, e: usize) -> (r: Option<i64>)
    requires
        i < e <= s.len(),
        int_part_end(s@, i as int) == Some(e as int),
    ensures
        match r {
            Some(n) => n == literal_int_value(s@, i as int, e as int),
            None => !(i64::MIN <= literal_int_value(s@, i as int, e as int) <= i64::MAX),
        },
{
    let neg = s[i] == '-';
    let a = if neg { i + 1 } else { i };
    proof {
        lemma_digits_end(s@, a as int);
    }
    assert(forall|k: int| a <= k < e ==> is_digit(s@[k]));
    let ghost ds = s@.subrange(a as int, e as int);
    let limit: u64 = 0x8000000000000000;
    let mut acc: u64 = 0;
    let mut big = false;
    let mut k = a;
    while k < e
        invariant
            a <= k <= e <= s.len(),
            limit == 0x8000000000000000u64,
            ds == s@.subrange(a as int, e as int),
            forall|m: int| a <= m < e ==> is_digit(s@[m]),
            !big ==> acc as int == digits_value(ds.take(k - a)),
            !big ==> acc <= limit,
            big ==> digits_value(ds.take(k - a)) > limit,
            digits_value(ds.take(k - a)) >= 0,
        decreases e - k,
    {
        assert(is_digit(s@[k as int]));
        let d = (s[k] as u32 - 48) as u64;
        let ghost prev = ds.take(k - a);
        proof {
            let nxt = ds.take(k + 1 - a);
            assert(nxt.subrange(0, nxt.len() - 1) =~= prev);
            assert(nxt[nxt.len() - 1] == s@[k as int]);
            assert(digits_value(nxt) == digits_value(prev) * 10 + d);
        }
        if !big {
            if acc > limit / 10 || acc * 10 > limit - d {
                big = true;
            } else {
                acc = acc * 10 + d;
            }
        }
        k = k + 1;
    }
    proof {
        assert(ds.take(e - a) =~= ds);
    }
    if big {
        return None;
    }
    if neg {
        if acc == limit {
            Some(i64::MIN)
        } else {
            Some(-(acc as i64))
        }
    } else {
        if acc == limit {
            None
        } else {
            Some(acc as i64)
        }
    }
}

/// Number literals and the floats they denote: the table that lets the
/// reader decode literals with a fraction, an exponent, or an integer
/// beyond the range of `i64`.
pub struct FloatTable {
    pub entries: Vec<(String, Number)>,
}

impl View for FloatTable {
    type V = FloatTableModel;

    open spec fn view(&self) -> FloatTableModel {
        Seq::new(self.entries@.len(), |k: int| (self.entries@[k].0@, (self.entries@[k].1.bits, self.entries@[k].1.text@)))
    }
}

impl FloatTable {
    /// The empty table.
    pub fn new() -> (r: FloatTable)
        ensures
            r@ == Seq::<(Seq<char>, (u64, Seq<char>))>::empty(),
    {
        let r = FloatTable { entries: Vec::new() };
        assert(r@ =~= Seq::<(Seq<char>, (u64, Seq<char>))>::empty());
        r
    }

    /// Adds an entry at the end of the table.
    pub fn add(&mut self, literal: String, number: Number)
        ensures
            final(self)@ == old(self)@.push((literal@, (number.bits, number.text@))),
    {
        self.entries.push((literal, number));
        assert(self@ =~= old(self)@.push((literal@, (number.bits, number.text@))));
    }

    /// The float the table gives for a literal.
    pub fn lookup(&self, literal: &str) -> (r: Option<Number>)
        ensures
            match r {
                Some(n) => float_lookup(self@, literal@) == Some((n.bits, n.text@)),
                None => float_lookup(self@, literal@) is None,
            },
    {
        let n = self.entries.len();
        let mut k: usize = 0;
        assert(self@.subrange(0, n as int) =~= self@);
        while k < n
            invariant
                n == self@.len(),
                0 <= k <= n,
                float_lookup(self@, literal@) == float_lookup(self@.subrange(k as int, n as int), literal@),
            decreases n - k,
        {
            let ghost rest = self@.subrange(k as int, n as int);
            assert(rest.drop_first() =~= self@.subrange(k + 1, n as int));
            if crate::text::str_eq(self.entries[k].0.as_str(), literal) {
                return Some(Number { bits: self.entries[k].1.bits, text: self.entries[k].1.text.clone() });
            }
            k = k + 1;
        }
        None
    }
}

/// A number at `i`.
fn parse_number_exec(s: &Vec<char>, i: usize, t: &FloatTable) -> (r: Result<(Value, usize), Option<String>>)
    requires
        i < s.len(),
    ensures
        parsed_value_matches(r, parse_number(s@, i as int, t@)),
        r matches Ok((v, j)) ==> j <= s.len(),
{
    match number_end_exec(s, i) {
        None => Err(None),
        Some((e, b)) => {
            if e == b {
                match int_literal_value(s, i, e) {
                    Some(n) => {
                        return Ok((Value::Int(n), e));
                    },
                    None => {},
                }
            }
            let tok = crate::text::string_of_range(s, i, e);
            match t.lookup(tok.as_str()) {
                Some(num) => Ok((Value::Float(num), e)),
                None => Err(Some(tok)),
            }
        },
    }
}

/// An exec reading outcome agrees with the specified one.
pub open spec fn parsed_value_matches(r: Result<(Value, usize), Option<String>>, p: Parsed<ValueModel>) -> bool {
    match r {
        Ok((v, j)) => p == Ok::<(ValueModel, int), Option<Seq<char>>>((v@, j as int)),
        Err(None) => p == Err::<(ValueModel, int), Option<Seq<char>>>(None),
        Err(Some(tok)) => p == Err::<(ValueModel, int), Option<Seq<char>>>(Some(tok@)),
    }
}


// ---------------------------------------------------------------------------
// Reading: values
// ---------------------------------------------------------------------------

/// The items read so far, followed by what the rest of the list gives.
pub open spec fn prepend_items(acc: Seq<ValueModel>, p: Parsed<Seq<ValueModel>>) -> Parsed<Seq<ValueModel>> {
    match p {
        Ok((vs, e)) => Ok((acc + vs, e)),
        Err(m) => Err(m),
    }
}

/// The models of a vector of values.
pub open spec fn values_model(xs: Seq<Value>) -> Seq<ValueModel> {
    Seq::new(xs.len(), |k: int| value_model(xs[k]))
}

/// A value at `i`.
pub fn parse_value_exec(s: &Vec<char>, i: usize, t: &FloatTable) -> (r: Result<(Value, usize), Option<String>>)
    requires
        i <= s.len(),
    ensures
        parsed_value_matches(r, parse_value(s@, i as int, t@)),
        r matches Ok((v, j)) ==> j <= s.len(),
    decreases s@.len() - i, 0int,
{
    if i >= s.len() {
        return Err(None);
    }
    let c = s[i];
    if c == 'n' {
        if text_at(s, i, "null") {
            proof {
                reveal_strlit("null");
            }
            return Ok((Value::Null, i + 4));
        }
        return Err(None);
    } else if c == 't' {
        if text_at(s, i, "true") {
            proof {
                reveal_strlit("true");
            }
            return Ok((Value::Bool(true), i + 4));
        }
        return Err(None);
    } else if c == 'f' {
        if text_at(s, i, "false") {
            proof {
                reveal_strlit("false");
            }
            return Ok((Value::Bool(false), i + 5));
        }
        return Err(None);
    } else if c == '"' {
        proof {
            lemma_parse_string_pos(s@, i + 1);
        }
        match parse_string_exec(s, i + 1) {
            Some((text, j)) => Ok((Value::Text(text), j)),
            None => Err(None),
        }
    } else if c == '-' || ('0' <= c && c <= '9') {
        parse_number_exec(s, i, t)
    } else if c == '[' {
        let j = skip_whitespace(s, i + 1);
        if j < s.len() && s[j] == ']' {
            let xs: Vec<Value> = Vec::new();
            proof {
                lemma_list_model(xs);
                assert(Seq::new(xs@.len(), |k: int| value_model(xs@[k])) =~= Seq::<ValueModel>::empty());
            }
            return Ok((Value::List(xs), j + 1));
        }
        match parse_items_exec(s, j, t) {
            Ok((xs, e)) => {
                proof {
                    lemma_list_model(xs);
                    assert(Seq::new(xs@.len(), |k: int| value_model(xs@[k])) =~= values_model(xs@));
                }
                Ok((Value::List(xs), e))
            },
            Err(m) => Err(m),
        }
    } else if c == '{' {
        let j = skip_whitespace(s, i + 1);
        if j < s.len() && s[j] == '}' {
            let m = ObjectMap::new();
            proof {
                lemma_object_model(m);
            }
            return Ok((Value::Object(m), j + 1));
        }
        match parse_members_exec(s, j, t) {
            Ok((m, e)) => {
                proof {
                    lemma_object_model(m);
                }
                Ok((Value::Object(m), e))
            },
            Err(err) => Err(err),
        }
    } else {
        Err(None)
    }
}

/// The items of a list from `i` to the closing `]`.
fn parse_items_exec(s: &Vec<char>, i: usize, t: &FloatTable) -> (r: Result<(Vec<Value>, usize), Option<String>>)
    requires
        i <= s.len(),
    ensures
        match r {
            Ok((xs, e)) => parse_items(s@, i as int, t@) == Ok::<(Seq<ValueModel>, int), Option<Seq<char>>>(
                (values_model(xs@), e as int),
            ) && e <= s.len(),
            Err(None) => parse_items(s@, i as int, t@) == Err::<(Seq<ValueModel>, int), Option<Seq<char>>>(None),
            Err(Some(tok)) => parse_items(s@, i as int, t@) == Err::<(Seq<ValueModel>, int), Option<Seq<char>>>(
                Some(tok@),
            ),
        },
    decreases s@.len() - i, 1int,
{
    let mut acc: Vec<Value> = Vec::new();
    let mut k = i;
    proof {
        assert(values_model(acc@) + Seq::<ValueModel>::empty() =~= Seq::<ValueModel>::empty());
        assert(forall|vs: Seq<ValueModel>| values_model(acc@) + vs =~= vs);
    }
    loop
        invariant
            i <= k <= s.len(),
            parse_items(s@, i as int, t@) == prepend_items(values_model(acc@), parse_items(s@, k as int, t@)),
        decreases s@.len() - k,
    {
        let (v, j) = match parse_value_exec(s, k, t) {
            Ok(p) => p,
            Err(m) => {
                return Err(m);
            },
        };
        if j <= k {
            return Err(None);
        }
        let w = skip_whitespace(s, j);
        let ghost before = acc@;
        if w < s.len() && s[w] == ']' {
            acc.push(v);
            proof {
                assert(values_model(acc@) =~= values_model(before) + seq![v@]);
            }
            return Ok((acc, w + 1));
        } else if w < s.len() && s[w] == ',' {
            let next = skip_whitespace(s, w + 1);
            acc.push(v);
            proof {
                assert(values_model(acc@) =~= values_model(before) + seq![v@]);
                match parse_items(s@, next as int, t@) {
                    Ok((vs, e)) => {
                        assert(values_model(before) + (seq![v@] + vs) =~= values_model(acc@) + vs);
                    },
                    Err(m) => {},
                }
            }
            k = next;
        } else {
            return Err(None);
        }
    }
}

/// The members of an object from `i` to the closing `}`.
fn parse_members_exec(s: &Vec<char>, i: usize, t: &FloatTable) -> (r: Result<(ObjectMap, usize), Option<String>>)
    requires
        i <= s.len(),
    ensures
        match r {
            Ok((m, e)) => parse_members(s@, i as int, Seq::empty(), t@) == Ok::<(Entries, int), Option<Seq<char>>>(
                (m@, e as int),
            ) && e <= s.len(),
            Err(None) => parse_members(s@, i as int, Seq::empty(), t@) == Err::<(Entries, int), Option<Seq<char>>>(
                None,
            ),
            Err(Some(tok)) => parse_members(s@, i as int, Seq::empty(), t@) == Err::<(Entries, int), Option<Seq<char>>>(
                Some(tok@),
            ),
        },
    decreases s@.len() - i, 1int,
{
    let mut acc = ObjectMap::new();
    let mut k = i;
    loop
        invariant
            i <= k <= s.len(),
            parse_members(s@, i as int, Seq::empty(), t@) == parse_members(s@, k as int, acc@, t@),
        decreases s@.len() - k,
    {
        if !(k < s.len() && s[k] == '"') {
            return Err(None);
        }
        proof {
            lemma_parse_string_pos(s@, k + 1);
        }
        let (key, j) = match parse_string_exec(s, k + 1) {
            Some(p) => p,
            None => {
                return Err(None);
            },
        };
        let c = skip_whitespace(s, j);
        if !(c < s.len() && s[c] == ':') {
            return Err(None);
        }
        let d = skip_whitespace(s, c + 1);
        let (v, e) = match parse_value_exec(s, d, t) {
            Ok(p) => p,
            Err(m) => {
                return Err(m);
            },
        };
        if e <= d {
            return Err(None);
        }
        let ghost before = acc@;
        acc.insert(key, v);
        let f = skip_whitespace(s, e);
        if f < s.len() && s[f] == '}' {
            return Ok((acc, f + 1));
        } else if f < s.len() && s[f] == ',' {
            k = skip_whitespace(s, f + 1);
        } else {
            return Err(None);
        }
    }
}

/// The decoded characters of string content from `i` to the end.
fn unescape_exec(s: &Vec<char>) -> (r: Option<String>)
    ensures
        match r {
            Some(text) => unescape_from(s@, 0) == Some(text@),
            None => unescape_from(s@, 0) is None,
        },
{
    let mut out = String::new();
    let mut k: usize = 0;
    loop
        invariant
            unescape_from(s@, 0) == (match unescape_from(s@, k as int) {
                Some(rest) => Some(out@ + rest),
                None => None,
            }),
        decreases s@.len() - k,
    {
        if k >= s.len() {
            assert(out@ + Seq::<char>::empty() =~= out@);
            return Some(out);
        }
        if s[k] == '"' {
            return None;
        }
        match decode_unit_exec(s, k) {
            Some((c, j)) => {
                if j <= k {
                    return None;
                }
                proof {
                    match unescape_from(s@, j as int) {
                        Some(rest) => {
                            assert(out@ + (seq![c] + rest) =~= out@.push(c) + rest);
                        },
                        None => {},
                    }
                }
                push_char(&mut out, c);
                k = j;
            },
            None => {
                return None;
            },
        }
    }
}


// ---------------------------------------------------------------------------
// Reading: documents
// ---------------------------------------------------------------------------

/// The members of an object written as `w` (braces included), read in full.
pub open spec fn parse_braced(w: Seq<char>, t: FloatTableModel) -> Parsed<Entries> {
    match parse_value(w, 0, t) {
        Ok((ValueModel::Object(es), e)) => if e == w.len() { Ok((es, e)) } else { Err(None) },
        Ok(_) => Err(None),
        Err(m) => Err(m),
    }
}

/// The members of an object whose content, without braces, is `inner`.
pub open spec fn parse_collection_spec(inner: Seq<char>, t: FloatTableModel) -> Parsed<Entries> {
    parse_braced(seq!['{'] + inner + seq!['}'], t)
}

/// The message of the error for text outside the grammar.
pub open spec fn syntax_message() -> Seq<char> {
    "JSON syntax error."@
}

/// The message of the error for a number literal that the float table does
/// not decode.
pub open spec fn float_message(tok: Seq<char>) -> Seq<char> {
    "Float literal not decoded: "@ + tok
}

/// The error for a failed reading.
pub open spec fn parse_error(m: Option<Seq<char>>, e: DeebeeError) -> bool {
    match m {
        None => e matches DeebeeError::InvalidJson(msg) && msg@ == syntax_message(),
        Some(tok) => e matches DeebeeError::InvalidJson(msg) && msg@ == float_message(tok),
    }
}

/// The error value for a failed reading.
pub fn parse_error_value(m: Option<String>) -> (e: DeebeeError)
    ensures
        parse_error(
            match m {
                Some(t) => Some(t@),
                None => None,
            },
            e,
        ),
{
    match m {
        None => DeebeeError::InvalidJson(String::from_str("JSON syntax error.")),
        Some(tok) => {
            let mut msg = String::from_str("Float literal not decoded: ");
            msg.append(tok.as_str());
            DeebeeError::InvalidJson(msg)
        },
    }
}

/// The members of an object written as `w`, braces included.
pub fn parse_braced_exec(w: &Vec<char>, t: &FloatTable) -> (r: Result<ObjectMap, Option<String>>)
    ensures
        match r {
            Ok(m) => parse_braced(w@, t@) == Ok::<(Entries, int), Option<Seq<char>>>((m@, w@.len() as int)),
            Err(None) => parse_braced(w@, t@) == Err::<(Entries, int), Option<Seq<char>>>(None),
            Err(Some(tok)) => parse_braced(w@, t@) == Err::<(Entries, int), Option<Seq<char>>>(Some(tok@)),
        },
{
    match parse_value_exec(w, 0, t) {
        Ok((v, e)) => {
            if e != w.len() {
                return Err(None);
            }
            match v {
                Value::Object(m) => {
                    proof {
                        lemma_object_model(m);
                    }
                    Ok(m)
                },
                _ => Err(None),
            }
        },
        Err(m) => Err(m),
    }
}

/// Reads a whole document.
fn parse_document_exec(s: &Vec<char>, t: &FloatTable) -> (r: Result<Value, Option<String>>)
    ensures
        match r {
            Ok(v) => parse_document(s@, t@) == Ok::<(ValueModel, int), Option<Seq<char>>>((v@, s@.len() as int)),
            Err(None) => parse_document(s@, t@) == Err::<(ValueModel, int), Option<Seq<char>>>(None),
            Err(Some(tok)) => parse_document(s@, t@) == Err::<(ValueModel, int), Option<Seq<char>>>(Some(tok@)),
        },
{
    let i = skip_whitespace(s, 0);
    match parse_value_exec(s, i, t) {
        Ok((v, j)) => {
            if skip_whitespace(s, j) == s.len() {
                Ok(v)
            } else {
                Err(None)
            }
        },
        Err(m) => Err(m),
    }
}

impl Value {
    /// Reads a JSON document, decoding number literals that are not 64-bit
    /// integers with the float table. `Err(InvalidJson(..))` exactly when
    /// the text is not one JSON value with optional whitespace around it, or
    /// holds a literal that the table does not decode.
    pub fn deserialize_with(data: &str, floats: &FloatTable) -> (r: Result<Value, DeebeeError>)
        ensures
            match r {
                Ok(v) => parse_document(data@, floats@) == Ok::<(ValueModel, int), Option<Seq<char>>>(
                    (v@, data@.len() as int),
                ),
                Err(e) => match parse_document(data@, floats@) {
                    Ok(_) => false,
                    Err(m) => parse_error(m, e),
                },
            },
    {
        let s = chars_of(data);
        match parse_document_exec(&s, floats) {
            Ok(v) => Ok(v),
            Err(m) => Err(parse_error_value(m)),
        }
    }

    /// Reads a JSON document; with no float table, only number literals
    /// that are 64-bit integers are read.
    pub fn deserialize(data: &str) -> (r: Result<Value, DeebeeError>)
        ensures
            match r {
                Ok(v) => parse_document(data@, Seq::empty()) == Ok::<(ValueModel, int), Option<Seq<char>>>(
                    (v@, data@.len() as int),
                ),
                Err(e) => match parse_document(data@, Seq::empty()) {
                    Ok(_) => false,
                    Err(m) => parse_error(m, e),
                },
            },
    {
        let t = FloatTable::new();
        Value::deserialize_with(data, &t)
    }

    /// The first number literal in the document that the float table does
    /// not decode, where reading stops for want of it.
    pub fn missing_float(data: &str, floats: &FloatTable) -> (r: Option<String>)
        ensures
            match r {
                Some(tok) => parse_document(data@, floats@) == Err::<(ValueModel, int), Option<Seq<char>>>(
                    Some(tok@),
                ),
                None => !(parse_document(data@, floats@) is Err && parse_document(data@, floats@)->Err_0 is Some),
            },
    {
        let s = chars_of(data);
        match parse_document_exec(&s, floats) {
            Err(Some(tok)) => Some(tok),
            _ => None,
        }
    }

    /// Decodes the content of a JSON string literal, without its quotes.
    /// `Err(InvalidJson(..))` exactly when it holds an unescaped quote, a raw
    /// control character or a malformed escape.
    pub fn unescape(data: &str) -> (r: Result<String, DeebeeError>)
        ensures
            match r {
                Ok(text) => unescape_from(data@, 0) == Some(text@),
                Err(e) => unescape_from(data@, 0) is None && parse_error(None, e),
            },
    {
        let s = chars_of(data);
        match unescape_exec(&s) {
            Some(text) => Ok(text),
            None => Err(parse_error_value(None)),
        }
    }

    /// Reads the members of a JSON object whose content, without braces, is
    /// `data`. `Err(InvalidJson(..))` exactly when `{data}` is not a JSON
    /// object.
    pub fn parse_collection(data: &str) -> (r: Result<ObjectMap, DeebeeError>)
        ensures
            match r {
                Ok(m) => parse_collection_spec(data@, Seq::empty()) matches Ok((es, _)) && es == m@,
                Err(e) => match parse_collection_spec(data@, Seq::empty()) {
                    Ok(_) => false,
                    Err(m) => parse_error(m, e),
                },
            },
    {
        let inner = chars_of(data);
        let mut w: Vec<char> = Vec::new();
        w.push('{');
        let n = inner.len();
        let mut k: usize = 0;
        while k < n
            invariant
                n == inner@.len(),
                0 <= k <= n,
                w@ == seq!['{'] + inner@.take(k as int),
            decreases n - k,
        {
            w.push(inner[k]);
            assert(w@ =~= seq!['{'] + inner@.take(k + 1));
            k = k + 1;
        }
        w.push('}');
        assert(inner@.take(n as int) =~= inner@);
        assert(w@ =~= seq!['{'] + data@ + seq!['}']);
        let t = FloatTable::new();
        match parse_braced_exec(&w, &t) {
            Ok(m) => Ok(m),
            Err(m) => Err(parse_error_value(m)),
        }
    }
}

} // verus!
