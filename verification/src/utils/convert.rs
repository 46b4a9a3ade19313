//! The alphabet codec: ASCII `a..z` to symbol indices `0..25` and back.

use vstd::prelude::*;
use vstd::string::StringSliceAdditionalSpecFns;

verus! {

/// Appends one character to a string.
///
/// Relies on `String::push`: pushes exactly the given character onto the end.
#[verifier::external_body]
pub(crate) fn push_char(s: &mut String, c: char)
    ensures
        final(s)@ == old(s)@ + seq![c],
{
    s.push(c)
}

/// The symbol index of a lowercase letter.
pub fn from_alpha(c: char) -> (r: u8)
    requires
        97 <= c as u32 <= 122,
    ensures
        r == c as u32 - 97,
        r < 26,
{
    (c as u32 - 97) as u8
}

/// The lowercase letter of a symbol index.
pub fn into_alpha(v: u8) -> (r: char)
    requires
        v < 26,
    ensures
        r as u32 == v + 97,
{
    (v + 97) as char
}

/// The symbols of a lowercase word, read from its ASCII bytes.
pub fn from_word(s: &str) -> (r: Vec<u8>)
    requires
        forall|k: int|
            0 <= k < s.spec_bytes().len() ==> 97 <= #[trigger] s.spec_bytes()[k] <= 122,
    ensures
        r@.len() == s.spec_bytes().len(),
        forall|k: int|
            0 <= k < r@.len() ==> r@[k] == s.spec_bytes()[k] - 97 && #[trigger] r@[k] < 26,
{
    let bytes = s.as_bytes_vec();
    let mut r: Vec<u8> = Vec::new();
    let mut k: usize = 0;
    while k < bytes.len()
        invariant
            bytes@ == s.spec_bytes(),
            forall|j: int|
                0 <= j < s.spec_bytes().len() ==> 97 <= #[trigger] s.spec_bytes()[j] <= 122,
            k <= bytes@.len(),
            r@.len() == k,
            forall|j: int|
                0 <= j < k ==> r@[j] == s.spec_bytes()[j] - 97 && #[trigger] r@[j] < 26,
        decreases bytes@.len() - k,
    {
        let b = bytes[k];
        proof {
            assert(97 <= s.spec_bytes()[k as int] <= 122);
        }
        r.push(b - 97);
        k += 1;
    }
    r
}

/// The lowercase word of a symbol sequence.
pub fn into_word(v: &[u8]) -> (r: String)
    requires
        forall|k: int| 0 <= k < v@.len() ==> v@[k] < 26,
    ensures
        r@.len() == v@.len(),
        forall|k: int| 0 <= k < r@.len() ==> (#[trigger] r@[k]) as u32 == v@[k] + 97,
{
    let mut r = String::new();
    let mut k: usize = 0;
    while k < v.len()
        invariant
            forall|j: int| 0 <= j < v@.len() ==> v@[j] < 26,
            k <= v@.len(),
            r@.len() == k,
            forall|j: int| 0 <= j < k ==> (#[trigger] r@[j]) as u32 == v@[j] + 97,
        decreases v@.len() - k,
    {
        let c = into_alpha(v[k]);
        push_char(&mut r, c);
        k += 1;
    }
    r
}

} // verus!
