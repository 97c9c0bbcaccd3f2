//! Character-level comparison rules for fuzzy matching.
//!
//! The matcher compares a query against a candidate key one character at a
//! time. Comparison is case-insensitive by default; it becomes case-sensitive
//! ("smart case") as soon as the query holds an ASCII uppercase letter.
//! Case-insensitive comparison folds only ASCII uppercase letters, so every
//! other Unicode character compares by identity.
use vstd::prelude::*;

verus! {

/// The Unicode code point of `c`, with ASCII uppercase letters folded to
/// their lowercase counterparts (`'A'..='Z'` map to `'a'..='z'`).
pub open spec fn lower_code(c: char) -> int {
    if 65 <= c as int && c as int <= 90 {
        c as int + 32
    } else {
        c as int
    }
}

/// Whether `c` is an ASCII uppercase letter.
pub open spec fn is_ascii_upper(c: char) -> bool {
    65 <= c as int && c as int <= 90
}

/// Whether two characters are considered equal by the matcher: identical when
/// `sensitive`, equal up to ASCII case folding otherwise.
pub open spec fn chars_equal(a: char, b: char, sensitive: bool) -> bool {
    if sensitive {
        a == b
    } else {
        lower_code(a) == lower_code(b)
    }
}

/// Whether a query demands case-sensitive comparison under the smart-case
/// rule: it does exactly when it holds an ASCII uppercase letter.
pub open spec fn pattern_sensitive(pattern: Seq<char>) -> bool {
    exists|i: int| 0 <= i < pattern.len() && is_ascii_upper(pattern[i])
}

/// Compares two characters under the matcher's case rule.
pub fn char_eq_fuzzy(a: char, b: char, sensitive: bool) -> (r: bool)
    ensures
        r == chars_equal(a, b, sensitive),
{
    if sensitive {
        a == b
    } else {
        let ca: u32 = a as u32;
        let cb: u32 = b as u32;
        let la: u32 = if 65 <= ca && ca <= 90 {
            ca + 32
        } else {
            ca
        };
        let lb: u32 = if 65 <= cb && cb <= 90 {
            cb + 32
        } else {
            cb
        };
        la == lb
    }
}

/// Decides the smart-case rule for a query: case-sensitive exactly when the
/// query holds an ASCII uppercase letter.
pub fn pattern_is_sensitive(pattern: &str) -> (r: bool)
    ensures
        r == pattern_sensitive(pattern@),
{
    let n: usize = pattern.unicode_len();
    let mut i: usize = 0;
    while i < n
        invariant
            n == pattern@.len(),
            0 <= i <= n,
            forall|j: int| 0 <= j < i ==> !is_ascii_upper(pattern@[j]),
        decreases n - i,
    {
        let c = pattern.get_char(i);
        let code: u32 = c as u32;
        if 65 <= code && code <= 90 {
            assert(is_ascii_upper(pattern@[i as int]));
            return true;
        }
        i += 1;
    }
    false
}

} // verus!
