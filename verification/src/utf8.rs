//! Validation of UTF-8 text. The codec rejects a text payload whose bytes are
//! not a well-formed UTF-8 sequence, so well-formedness is defined here as a
//! specification over byte sequences, together with a verified checker.

use vstd::prelude::*;

verus! {

/// A continuation byte of a multi-byte sequence.
pub open spec fn is_cont(b: u8) -> bool {
    0x80 <= b && b <= 0xBF
}

/// The bytes of `s` from position `i` on form a well-formed UTF-8 sequence.
/// The ranges follow the standard well-formed byte patterns: overlong forms,
/// surrogate code points and values above U+10FFFF are all excluded.
pub open spec fn utf8_ok_from(s: Seq<u8>, i: int) -> bool
    decreases s.len() - i,
{
    if i < 0 || i >= s.len() {
        true
    } else {
        let b0 = s[i];
        if b0 <= 0x7F {
            utf8_ok_from(s, i + 1)
        } else if 0xC2 <= b0 && b0 <= 0xDF {
            i + 2 <= s.len() && is_cont(s[i + 1]) && utf8_ok_from(s, i + 2)
        } else if b0 == 0xE0 {
            i + 3 <= s.len() && 0xA0 <= s[i + 1] && s[i + 1] <= 0xBF && is_cont(s[i + 2])
                && utf8_ok_from(s, i + 3)
        } else if b0 == 0xED {
            i + 3 <= s.len() && 0x80 <= s[i + 1] && s[i + 1] <= 0x9F && is_cont(s[i + 2])
                && utf8_ok_from(s, i + 3)
        } else if 0xE0 <= b0 && b0 <= 0xEF {
            i + 3 <= s.len() && is_cont(s[i + 1]) && is_cont(s[i + 2]) && utf8_ok_from(s, i + 3)
        } else if b0 == 0xF0 {
            i + 4 <= s.len() && 0x90 <= s[i + 1] && s[i + 1] <= 0xBF && is_cont(s[i + 2])
                && is_cont(s[i + 3]) && utf8_ok_from(s, i + 4)
        } else if 0xF1 <= b0 && b0 <= 0xF3 {
            i + 4 <= s.len() && is_cont(s[i + 1]) && is_cont(s[i + 2]) && is_cont(s[i + 3])
                && utf8_ok_from(s, i + 4)
        } else if b0 == 0xF4 {
            i + 4 <= s.len() && 0x80 <= s[i + 1] && s[i + 1] <= 0x8F && is_cont(s[i + 2])
                && is_cont(s[i + 3]) && utf8_ok_from(s, i + 4)
        } else {
            false
        }
    }
}

/// The whole byte sequence is well-formed UTF-8.
pub open spec fn utf8_ok(s: Seq<u8>) -> bool {
    utf8_ok_from(s, 0)
}

/// Checks a byte slice for UTF-8 well-formedness.
pub fn check_utf8(s: &[u8]) -> (r: bool)
    ensures
        r == utf8_ok(s@),
{
    let n = s.len();
    let mut i: usize = 0;
    while i < n
        invariant
            i <= n,
            n == s@.len(),
            utf8_ok(s@) == utf8_ok_from(s@, i as int),
        decreases n - i,
    {
        let b0 = s[i];
        if b0 <= 0x7F {
            i = i + 1;
        } else if 0xC2 <= b0 && b0 <= 0xDF {
            if n - i < 2 || !cont_byte(s[i + 1]) {
                return false;
            }
            i = i + 2;
        } else if b0 == 0xE0 {
            if n - i < 3 || !(0xA0 <= s[i + 1] && s[i + 1] <= 0xBF) || !cont_byte(s[i + 2]) {
                return false;
            }
            i = i + 3;
        } else if b0 == 0xED {
            if n - i < 3 || !(0x80 <= s[i + 1] && s[i + 1] <= 0x9F) || !cont_byte(s[i + 2]) {
                return false;
            }
            i = i + 3;
        } else if 0xE0 <= b0 && b0 <= 0xEF {
            if n - i < 3 || !cont_byte(s[i + 1]) || !cont_byte(s[i + 2]) {
                return false;
            }
            i = i + 3;
        } else if b0 == 0xF0 {
            if n - i < 4 || !(0x90 <= s[i + 1] && s[i + 1] <= 0xBF) || !cont_byte(s[i + 2])
                || !cont_byte(s[i + 3]) {
                return false;
            }
            i = i + 4;
        } else if 0xF1 <= b0 && b0 <= 0xF3 {
            if n - i < 4 || !cont_byte(s[i + 1]) || !cont_byte(s[i + 2]) || !cont_byte(s[i + 3]) {
                return false;
            }
            i = i + 4;
        } else if b0 == 0xF4 {
            if n - i < 4 || !(0x80 <= s[i + 1] && s[i + 1] <= 0x8F) || !cont_byte(s[i + 2])
                || !cont_byte(s[i + 3]) {
                return false;
            }
            i = i + 4;
        } else {
            return false;
        }
    }
    true
}

/// Checks one continuation byte.
fn cont_byte(b: u8) -> (r: bool)
    ensures
        r == is_cont(b),
{
    0x80 <= b && b <= 0xBF
}

} // verus!
