//! Small standalone helpers over text.

use vstd::prelude::*;

use crate::text::{digits_val, is_uint_string, numeric_body, parse_uint, seq_starts_with,
    str_starts_with};

verus! {

/// Relies on char::from_u32 of std: it returns `Some` exactly for
/// Unicode scalar values — all values up to 0x10FFFF except the
/// surrogate range 0xD800..=0xDFFF — and the character returned has the
/// given value.
#[verifier::external_body]
fn char_from_u32(v: u32) -> (r: Option<char>)
    ensures
        r is Some <==> (v < 0xD800 || (0xE000 <= v && v <= 0x10FFFF)),
        r matches Some(c) ==> c as u32 == v,
{
    char::from_u32(v)
}

/// Reads `string` as a decimal number and returns the character with
/// that code point: `Some` exactly when the text parses as a 32-bit
/// number that is a Unicode scalar value.
pub fn convert_str_u32_to_char(string: &str) -> (r: Option<char>)
    ensures
        match r {
            Some(c) => is_uint_string(string@, u32::MAX as int) && c as u32 == digits_val(
                numeric_body(string@),
            ),
            None => !is_uint_string(string@, u32::MAX as int) || ({
                let v = digits_val(numeric_body(string@));
                0xD800 <= v < 0xE000 || v > 0x10FFFF
            }),
        },
{
    match parse_uint(string, u32::MAX) {
        Some(v) => char_from_u32(v),
        None => None,
    }
}

/// Whether `string` starts with any entry of `list`.
pub fn vec_starts_with(string: &str, list: &Vec<String>) -> (r: bool)
    ensures
        r == exists|i: int|
            0 <= i < list@.len() && #[trigger] seq_starts_with(string@, list@[i]@),
{
    let n: usize = list.len();
    let mut i: usize = 0;
    while i < n
        invariant
            i <= n,
            n == list@.len(),
            forall|j: int| 0 <= j < i ==> !seq_starts_with(string@, #[trigger] list@[j]@),
        decreases n - i,
    {
        if str_starts_with(string, list[i].as_str()) {
            return true;
        }
        i += 1;
    }
    false
}

} // verus!
