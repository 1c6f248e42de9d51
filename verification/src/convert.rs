//! Conversions between uppercase ASCII text and dense code-point vectors,
//! for callers that work with the plain 26-letter alphabet.

use vstd::prelude::*;

verus! {

/// Is `c` an ASCII character whose uppercase form sits at or above `'A'`?
/// These are the characters the conversions accept: ASCII letters of
/// either case, and the ASCII characters past `'A'` that are their own
/// uppercase.
pub open spec fn is_convertible(c: char) -> bool {
    65 <= (c as u32) < 128
}

/// The uppercase code of a convertible ASCII character: lowercase letters
/// move to their uppercase, everything else is its own uppercase.
pub open spec fn upper_code(c: char) -> int
    recommends
        is_convertible(c),
{
    if 97 <= (c as u32) <= 122 {
        c as u32 - 32
    } else {
        c as u32 as int
    }
}

/// Converts a borrowed vector of code points to an uppercase string, mapping
/// each value to the letter `'A' + value`.
pub fn to_string(arr: &Vec<u16>) -> (r: String)
    requires
        forall|i: int| 0 <= i < arr@.len() ==> #[trigger] arr@[i] < 26,
    ensures
        r@.len() == arr@.len(),
        forall|i: int| 0 <= i < r@.len() ==> #[trigger] r@[i] as u32 == arr@[i] + 65,
{
    let mut result = String::new();
    let mut i: usize = 0;
    while i < arr.len()
        invariant
            i <= arr@.len(),
            forall|k: int| 0 <= k < arr@.len() ==> #[trigger] arr@[k] < 26,
            result@.len() == i,
            forall|k: int| 0 <= k < i ==> #[trigger] result@[k] as u32 == arr@[k] + 65,
        decreases arr@.len() - i,
    {
        let code = (arr[i] as u8) + 65;
        result.push(code as char);
        i = i + 1;
    }
    result
}

/// Converts a borrowed string to code points, ignoring case: each
/// character's uppercase code, less the code of `'A'`.
pub fn from_str(string: &str) -> (r: Vec<u16>)
    requires
        forall|i: int| 0 <= i < string@.len() ==> is_convertible(#[trigger] string@[i]),
    ensures
        r@.len() == string@.len(),
        forall|i: int| 0 <= i < r@.len() ==> #[trigger] r@[i] == upper_code(string@[i]) - 65,
{
    let n = string.unicode_len();
    let mut result: Vec<u16> = Vec::new();
    let mut i: usize = 0;
    while i < n
        invariant
            i <= n,
            n == string@.len(),
            forall|k: int| 0 <= k < string@.len() ==> is_convertible(#[trigger] string@[k]),
            result@.len() == i,
            forall|k: int| 0 <= k < i ==> #[trigger] result@[k] == upper_code(string@[k]) - 65,
        decreases n - i,
    {
        let c = string.get_char(i);
        let code = c as u32;
        let upper = if code >= 97 && code <= 122 {
            code - 32
        } else {
            code
        };
        result.push((upper - 65) as u16);
        i = i + 1;
    }
    result
}

/// Converts a borrowed `String` to code points, ignoring case.
pub fn from_string(string: &String) -> (r: Vec<u16>)
    requires
        forall|i: int| 0 <= i < string@.len() ==> is_convertible(#[trigger] string@[i]),
    ensures
        r@.len() == string@.len(),
        forall|i: int| 0 <= i < r@.len() ==> #[trigger] r@[i] == upper_code(string@[i]) - 65,
{
    from_str(string.as_str())
}

} // verus!
