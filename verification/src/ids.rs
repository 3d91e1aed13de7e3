//! Node identifiers: 128-bit UUIDs, their text, and fresh random ones.
use vstd::prelude::*;
use crate::parse::{is_hex, hex_value};
use crate::json::hex_char;

verus! {

/// `16` to the power `n`.
pub open spec fn pow16(n: nat) -> int
    decreases n,
{
    if n == 0 {
        1
    } else {
        16 * pow16((n - 1) as nat)
    }
}

/// The `k`-th hexadecimal digit of `id`, counting from the most significant.
pub open spec fn id_nibble(id: u128, k: int) -> int {
    (id as int / pow16((31 - k) as nat)) % 16
}

/// The 32 lowercase hexadecimal digits of `id`, most significant first.
pub open spec fn id_hex(id: u128) -> Seq<char> {
    Seq::new(32, |k: int| hex_char(id_nibble(id, k)))
}

/// The hyphenated text of a UUID: 8-4-4-4-12 lowercase hexadecimal digits.
pub open spec fn id_text_spec(id: u128) -> Seq<char> {
    let h = id_hex(id);
    h.subrange(0, 8) + seq!['-'] + h.subrange(8, 12) + seq!['-'] + h.subrange(12, 16) + seq!['-'] + h.subrange(
        16,
        20,
    ) + seq!['-'] + h.subrange(20, 32)
}

/// The number that a sequence of hexadecimal digits denotes.
pub open spec fn hex_seq_value(h: Seq<char>) -> int
    decreases h.len(),
{
    if h.len() == 0 {
        0
    } else {
        hex_seq_value(h.subrange(0, h.len() - 1)) * 16 + hex_value(h[h.len() - 1])
    }
}

/// All characters are hexadecimal digits.
pub open spec fn all_hex(h: Seq<char>) -> bool {
    forall|k: int| 0 <= k < h.len() ==> is_hex(#[trigger] h[k])
}

/// The 32 digits of a hyphenated UUID text (hyphens at 8, 13, 18 and 23).
pub open spec fn hyphenated_digits(s: Seq<char>) -> Seq<char> {
    s.subrange(0, 8) + s.subrange(9, 13) + s.subrange(14, 18) + s.subrange(19, 23) + s.subrange(24, 36)
}

/// The UUID that a hyphenated text of 36 characters denotes, if any.
pub open spec fn parse_hyphenated(s: Seq<char>) -> Option<u128> {
    if s.len() == 36 && s[8] == '-' && s[13] == '-' && s[18] == '-' && s[23] == '-' && all_hex(
        hyphenated_digits(s),
    ) {
        Some(hex_seq_value(hyphenated_digits(s)) as u128)
    } else {
        None
    }
}

/// ASCII letters compared without regard to case.
pub open spec fn eq_ignore_case(a: char, b: char) -> bool {
    a == b || ('A' <= a && a <= 'Z' && (a as int) + 32 == b as int) || ('A' <= b && b <= 'Z' && (b as int) + 32
        == a as int)
}

/// The UUID that a text denotes, in any of the formats the `uuid` crate
/// reads: 32 hexadecimal digits; the hyphenated form; the hyphenated form
/// between braces; or `urn:uuid:` (in any case) followed by the hyphenated
/// form. Hexadecimal digits may be in either case.
pub open spec fn parse_id_spec(s: Seq<char>) -> Option<u128> {
    if s.len() == 32 {
        if all_hex(s) {
            Some(hex_seq_value(s) as u128)
        } else {
            None
        }
    } else if s.len() == 36 {
        parse_hyphenated(s)
    } else if s.len() == 38 && s[0] == '{' && s[37] == '}' {
        parse_hyphenated(s.subrange(1, 37))
    } else if s.len() == 45 && forall|k: int| 0 <= k < 9 ==> eq_ignore_case(#[trigger] s[k], "urn:uuid:"@[k]) {
        parse_hyphenated(s.subrange(9, 45))
    } else {
        None
    }
}

/// The message of the `uuid` crate's error for a text it cannot read.
pub uninterp spec fn id_error_text(s: Seq<char>) -> Seq<char>;

/// The hyphenated lowercase text of a UUID, from `uuid::Uuid`'s `Display`,
/// which the `uuid` crate documents and writes as the 8-4-4-4-12 hyphenated
/// lowercase form.
#[verifier::external_body]
pub fn id_text(id: u128) -> (r: String)
    ensures
        r@ == id_text_spec(id),
{
    uuid::Uuid::from_u128(id).to_string()
}

/// Reads a UUID with `uuid::Uuid::parse_str`: the UUID for each text in one
/// of its formats, and otherwise an error whose message is that of the
/// crate's error.
#[verifier::external_body]
pub fn parse_id(s: &str) -> (r: Result<u128, String>)
    ensures
        match r {
            Ok(id) => parse_id_spec(s@) == Some(id),
            Err(msg) => parse_id_spec(s@) is None && msg@ == id_error_text(s@),
        },
{
    match uuid::Uuid::parse_str(s) {
        Ok(id) => Ok(id.as_u128()),
        Err(e) => Err(e.to_string()),
    }
}

/// A fresh random UUID from `uuid::Uuid::new_v4`: random, except that its
/// version field is 4 and its variant bits are `10`, as the crate sets them.
/// Nothing is promised about its relation to other UUIDs; the crate panics
/// when the system has no source of randomness.
#[verifier::external_body]
pub fn new_id() -> (r: u128)
    ensures
        (r as int / pow16(19)) % 16 == 4,
        (r as int / 0x4000000000000000) % 4 == 2,
{
    uuid::Uuid::new_v4().as_u128()
}

} // verus!
