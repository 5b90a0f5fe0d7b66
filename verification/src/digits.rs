//! Conversion from characters to digit values.

use vstd::prelude::*;

verus! {

/// The numeric value of an ASCII digit character, or `None` for any other
/// character.
pub open spec fn spec_digit_of(c: char) -> Option<u8> {
    if 48 <= c as u32 && c as u32 <= 57 {
        Some((c as u32 - 48) as u8)
    } else {
        None
    }
}

/// Converts one character to its digit value, accepting exactly `'0'`
/// through `'9'`.
pub fn digit_of(c: char) -> (r: Option<u8>)
    ensures
        r == spec_digit_of(c),
{
    let u = c as u32;
    if 48 <= u && u <= 57 {
        Some((u - 48) as u8)
    } else {
        None
    }
}

/// The first position at or after `i` in `s` that does not hold an ASCII
/// digit, or the length of `s` when digits run to the end.
pub open spec fn non_digit_from(s: Seq<char>, i: int) -> int
    decreases s.len() - i,
{
    if i < 0 || i >= s.len() {
        s.len() as int
    } else if spec_digit_of(s[i]) is Some {
        non_digit_from(s, i + 1)
    } else {
        i
    }
}

/// Position and digit facts about `non_digit_from`.
pub proof fn lemma_non_digit_from(s: Seq<char>, i: int)
    requires
        0 <= i <= s.len(),
    ensures
        i <= non_digit_from(s, i) <= s.len(),
        forall|k: int| i <= k < non_digit_from(s, i) ==> spec_digit_of(s[k]) is Some,
        non_digit_from(s, i) < s.len() ==> spec_digit_of(s[non_digit_from(s, i)]) is None,
    decreases s.len() - i,
{
    if i < s.len() && spec_digit_of(s[i]) is Some {
        lemma_non_digit_from(s, i + 1);
    }
}

/// The digit values of a character string made of digits.
pub open spec fn digits_of(cs: Seq<char>) -> Seq<u8> {
    Seq::new(cs.len(), |k: int| spec_digit_of(cs[k]).unwrap())
}

} // verus!
