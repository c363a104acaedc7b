//! Recognizer for numeric payload tokens.
//!
//! A token contributes a sample to the dataset exactly when it is a
//! floating-point literal: an optional sign followed by `inf`, `infinity` or
//! `nan` (case-insensitive), or by a decimal mantissa (`digits`,
//! `digits . digits?` or `. digits`) with an optional exponent
//! (`e`/`E`, optional sign, digits). The library never computes the denoted
//! value; samples are carried as their token text.
use vstd::prelude::*;

use crate::text::is_digit;
use crate::text::is_digit_char;

verus! {

/// Index of the first non-digit character at or after `i`.
pub open spec fn skip_digits(s: Seq<char>, i: int) -> int
    decreases s.len() - i,
{
    if i < s.len() && is_digit(s[i]) {
        skip_digits(s, i + 1)
    } else {
        i
    }
}

/// Lower-casing for the letters that may occur in `inf`, `infinity`, `nan`.
pub open spec fn lower_char(c: char) -> char {
    if c == 'A' { 'a' }
    else if c == 'F' { 'f' }
    else if c == 'I' { 'i' }
    else if c == 'N' { 'n' }
    else if c == 'T' { 't' }
    else if c == 'Y' { 'y' }
    else { c }
}

fn lower_char_exec(c: char) -> (r: char)
    ensures
        r == lower_char(c),
{
    if c == 'A' { 'a' }
    else if c == 'F' { 'f' }
    else if c == 'I' { 'i' }
    else if c == 'N' { 'n' }
    else if c == 'T' { 't' }
    else if c == 'Y' { 'y' }
    else { c }
}

/// One if the token starts with a sign, zero otherwise.
pub open spec fn sign_start(s: Seq<char>) -> int {
    if s.len() > 0 && (s[0] == '+' || s[0] == '-') {
        1
    } else {
        0
    }
}

/// The rest of the token, from `b` on, spells `inf`, `infinity` or `nan`,
/// in any letter case.
pub open spec fn is_special_from(s: Seq<char>, b: int) -> bool {
    ||| (s.len() - b == 3 && lower_char(s[b]) == 'i' && lower_char(s[b + 1]) == 'n'
        && lower_char(s[b + 2]) == 'f')
    ||| (s.len() - b == 8 && lower_char(s[b]) == 'i' && lower_char(s[b + 1]) == 'n'
        && lower_char(s[b + 2]) == 'f' && lower_char(s[b + 3]) == 'i'
        && lower_char(s[b + 4]) == 'n' && lower_char(s[b + 5]) == 'i'
        && lower_char(s[b + 6]) == 't' && lower_char(s[b + 7]) == 'y')
    ||| (s.len() - b == 3 && lower_char(s[b]) == 'n' && lower_char(s[b + 1]) == 'a'
        && lower_char(s[b + 2]) == 'n')
}

/// From `j` (the position after the mantissa) the token either ends or
/// carries a well-formed exponent that ends it.
pub open spec fn tail_ok_from(s: Seq<char>, j: int) -> bool {
    if j == s.len() {
        true
    } else if s[j] == 'e' || s[j] == 'E' {
        let k = if j + 1 < s.len() && (s[j + 1] == '+' || s[j + 1] == '-') {
            j + 2
        } else {
            j + 1
        };
        skip_digits(s, k) > k && skip_digits(s, k) == s.len()
    } else {
        false
    }
}

/// The rest of the token, from `b` on, is a decimal mantissa with an
/// optional exponent.
pub open spec fn is_number_from(s: Seq<char>, b: int) -> bool {
    let i = skip_digits(s, b);
    if i > b {
        let j = if i < s.len() && s[i] == '.' { skip_digits(s, i + 1) } else { i };
        tail_ok_from(s, j)
    } else if b < s.len() && s[b] == '.' {
        let j = skip_digits(s, b + 1);
        j > b + 1 && tail_ok_from(s, j)
    } else {
        false
    }
}

/// Whether a (already trimmed) token parses as a floating-point number.
pub open spec fn is_numeric(s: Seq<char>) -> bool {
    let b = sign_start(s);
    b < s.len() && (is_special_from(s, b) || is_number_from(s, b))
}

fn skip_digits_exec(s: &str, from: usize) -> (r: usize)
    requires
        from <= s@.len(),
    ensures
        r == skip_digits(s@, from as int),
        from <= r <= s@.len(),
{
    let n = s.unicode_len();
    let mut i: usize = from;
    while i < n && is_digit_char(s.get_char(i))
        invariant
            from <= i <= n,
            n == s@.len(),
            skip_digits(s@, from as int) == skip_digits(s@, i as int),
        decreases n - i,
    {
        i = i + 1;
    }
    i
}

fn is_special_exec(s: &str, b: usize) -> (r: bool)
    requires
        b <= s@.len(),
    ensures
        r == is_special_from(s@, b as int),
{
    let n = s.unicode_len();
    if n - b == 3 {
        let c0 = lower_char_exec(s.get_char(b));
        let c1 = lower_char_exec(s.get_char(b + 1));
        let c2 = lower_char_exec(s.get_char(b + 2));
        (c0 == 'i' && c1 == 'n' && c2 == 'f') || (c0 == 'n' && c1 == 'a' && c2 == 'n')
    } else if n - b == 8 {
        let c0 = lower_char_exec(s.get_char(b));
        let c1 = lower_char_exec(s.get_char(b + 1));
        let c2 = lower_char_exec(s.get_char(b + 2));
        let c3 = lower_char_exec(s.get_char(b + 3));
        let c4 = lower_char_exec(s.get_char(b + 4));
        let c5 = lower_char_exec(s.get_char(b + 5));
        let c6 = lower_char_exec(s.get_char(b + 6));
        let c7 = lower_char_exec(s.get_char(b + 7));
        c0 == 'i' && c1 == 'n' && c2 == 'f' && c3 == 'i' && c4 == 'n' && c5 == 'i'
            && c6 == 't' && c7 == 'y'
    } else {
        false
    }
}

fn tail_ok_exec(s: &str, j: usize) -> (r: bool)
    requires
        j <= s@.len(),
    ensures
        r == tail_ok_from(s@, j as int),
{
    let n = s.unicode_len();
    if j == n {
        return true;
    }
    let c = s.get_char(j);
    if c != 'e' && c != 'E' {
        return false;
    }
    let mut k: usize = j + 1;
    if k < n {
        let c2 = s.get_char(k);
        if c2 == '+' || c2 == '-' {
            k = k + 1;
        }
    }
    let m = skip_digits_exec(s, k);
    m > k && m == n
}

/// Whether a trimmed token is a floating-point literal, so that it
/// contributes one sample to the current frame.
pub fn is_numeric_token(s: &str) -> (r: bool)
    ensures
        r == is_numeric(s@),
{
    let n = s.unicode_len();
    let mut b: usize = 0;
    if n > 0 {
        let c = s.get_char(0);
        if c == '+' || c == '-' {
            b = 1;
        }
    }
    if b >= n {
        return false;
    }
    if is_special_exec(s, b) {
        return true;
    }
    let i = skip_digits_exec(s, b);
    if i > b {
        let mut j: usize = i;
        if i < n {
            let c = s.get_char(i);
            if c == '.' {
                j = skip_digits_exec(s, i + 1);
            }
        }
        tail_ok_exec(s, j)
    } else {
        let c = s.get_char(b);
        if c == '.' {
            let j = skip_digits_exec(s, b + 1);
            j > b + 1 && tail_ok_exec(s, j)
        } else {
            false
        }
    }
}


/// The characters a numeric token can be made of: digits, signs, the
/// decimal point, the exponent markers and the letters of the special
/// words, in either case.
pub open spec fn numeric_char(c: char) -> bool {
    is_digit(c) || c == '+' || c == '-' || c == '.' || c == 'e' || c == 'E' || c == 'i'
        || c == 'I' || c == 'n' || c == 'N' || c == 'f' || c == 'F' || c == 'a' || c == 'A'
        || c == 't' || c == 'T' || c == 'y' || c == 'Y'
}

proof fn lemma_skip_digits_range(s: Seq<char>, i: int)
    requires
        0 <= i <= s.len(),
    ensures
        i <= skip_digits(s, i) <= s.len(),
        forall|j: int| i <= j < skip_digits(s, i) ==> is_digit(#[trigger] s[j]),
    decreases s.len() - i,
{
    if i < s.len() && is_digit(s[i]) {
        lemma_skip_digits_range(s, i + 1);
    }
}

proof fn lemma_tail_chars(s: Seq<char>, j: int)
    requires
        0 <= j <= s.len(),
        tail_ok_from(s, j),
    ensures
        forall|idx: int| j <= idx < s.len() ==> numeric_char(#[trigger] s[idx]),
{
    if j < s.len() {
        let k = if j + 1 < s.len() && (s[j + 1] == '+' || s[j + 1] == '-') {
            j + 2
        } else {
            j + 1
        };
        if k <= s.len() {
            lemma_skip_digits_range(s, k);
        }
        assert forall|idx: int| j <= idx < s.len() implies numeric_char(#[trigger] s[idx]) by {
            if idx == j {
                assert(s[j] == 'e' || s[j] == 'E');
            } else if idx < k {
                assert(s[idx] == '+' || s[idx] == '-');
            } else {
                assert(is_digit(s[idx]));
            }
        }
    }
}

/// Every character of a numeric token is one of the token characters; in
/// particular no comma, quote or line break occurs in one.
pub proof fn lemma_numeric_chars(s: Seq<char>)
    requires
        is_numeric(s),
    ensures
        forall|idx: int| 0 <= idx < s.len() ==> numeric_char(#[trigger] s[idx]),
{
    let b = sign_start(s);
    if is_special_from(s, b) {
        assert forall|idx: int| 0 <= idx < s.len() implies numeric_char(#[trigger] s[idx]) by {
            if idx < b {
                assert(s[0] == '+' || s[0] == '-');
            } else {
                assert(lower_char(s[idx]) == 'i' || lower_char(s[idx]) == 'n' || lower_char(
                    s[idx],
                ) == 'f' || lower_char(s[idx]) == 'a' || lower_char(s[idx]) == 't' || lower_char(
                    s[idx],
                ) == 'y');
            }
        }
    } else {
        let i = skip_digits(s, b);
        lemma_skip_digits_range(s, b);
        if i > b {
            let j = if i < s.len() && s[i] == '.' { skip_digits(s, i + 1) } else { i };
            if i < s.len() && s[i] == '.' {
                lemma_skip_digits_range(s, i + 1);
            }
            lemma_tail_chars(s, j);
            assert forall|idx: int| 0 <= idx < s.len() implies numeric_char(#[trigger] s[idx]) by {
                if idx < b {
                    assert(s[0] == '+' || s[0] == '-');
                } else if idx < i {
                    assert(is_digit(s[idx]));
                } else if idx < j {
                    assert(idx == i ==> s[idx] == '.');
                    assert(idx > i ==> is_digit(s[idx]));
                } else {
                }
            }
        } else {
            let j = skip_digits(s, b + 1);
            lemma_skip_digits_range(s, b + 1);
            lemma_tail_chars(s, j);
            assert forall|idx: int| 0 <= idx < s.len() implies numeric_char(#[trigger] s[idx]) by {
                if idx < b {
                    assert(s[0] == '+' || s[0] == '-');
                } else if idx == b {
                    assert(s[b] == '.');
                } else if idx < j {
                    assert(is_digit(s[idx]));
                } else {
                }
            }
        }
    }
}

} // verus!
