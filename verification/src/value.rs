//! Type inference for raw configuration values: a strict priority chain of
//! boolean literal, then floating-point literal, then plain string.

use vstd::prelude::*;

use crate::text::str_eq;
use crate::tree::ConfigValue;
use crate::tree::ValueModel;

verus! {

/// A decimal digit.
pub open spec fn is_digit(c: char) -> bool {
    0x30 <= c as u32 <= 0x39
}

/// An exponent marker of a floating-point literal.
pub open spec fn is_exp_marker(c: char) -> bool {
    c == 'e' || c == 'E'
}

/// Drops one leading `+` or `-`, if present.
pub open spec fn strip_sign(s: Seq<char>) -> Seq<char> {
    if s.len() > 0 && (s[0] == '+' || s[0] == '-') {
        s.drop_first()
    } else {
        s
    }
}

/// `c` is the letter `lower` (a lower-case ASCII letter), in either case.
pub open spec fn matches_lower(c: char, lower: char) -> bool {
    c == lower || c as u32 + 32 == lower as u32
}

/// `s` spells the lower-case ASCII word `lit`, ignoring ASCII case.
pub open spec fn eq_ignore_ascii_case(s: Seq<char>, lit: Seq<char>) -> bool {
    s.len() == lit.len() && forall|i: int|
        0 <= i < s.len() ==> #[trigger] matches_lower(s[i], lit[i])
}

/// A significand: digits with at most one `.` among them, and at least one
/// digit.
pub open spec fn is_mantissa(s: Seq<char>) -> bool {
    &&& forall|i: int| 0 <= i < s.len() ==> is_digit(#[trigger] s[i]) || s[i] == '.'
    &&& exists|i: int| 0 <= i < s.len() && is_digit(#[trigger] s[i])
    &&& forall|i: int, j: int|
        #![trigger s[i], s[j]]
        0 <= i < j < s.len() ==> !(s[i] == '.' && s[j] == '.')
}

/// An exponent: an optional sign, then one or more digits.
pub open spec fn is_exponent(s: Seq<char>) -> bool {
    let b = strip_sign(s);
    b.len() > 0 && forall|i: int| 0 <= i < b.len() ==> is_digit(#[trigger] b[i])
}

/// The unsigned body of a numeric literal: a significand, optionally followed
/// by an exponent marker and an exponent.
pub open spec fn is_number_body(s: Seq<char>) -> bool {
    is_mantissa(s) || (exists|k: int|
        0 <= k < s.len() && is_exp_marker(#[trigger] s[k]) && is_mantissa(s.take(k)) && is_exponent(
            s.skip(k + 1),
        ))
}

/// A string accepted by the platform's floating-point parse: an optional
/// sign, then `inf`, `infinity` or `nan` in any case, or a numeric body.
pub open spec fn is_float_literal(s: Seq<char>) -> bool {
    let b = strip_sign(s);
    ||| eq_ignore_ascii_case(b, "inf"@)
    ||| eq_ignore_ascii_case(b, "infinity"@)
    ||| eq_ignore_ascii_case(b, "nan"@)
    ||| is_number_body(b)
}

/// The classification of a trimmed raw value: exactly `true` or `false` makes
/// a boolean, else a floating-point literal makes a number, else the text
/// stays a string.
pub open spec fn infer_model(s: Seq<char>) -> ValueModel {
    if s == "true"@ {
        ValueModel::Bool(true)
    } else if s == "false"@ {
        ValueModel::Bool(false)
    } else if is_float_literal(s) {
        ValueModel::Num(s)
    } else {
        ValueModel::Str(s)
    }
}

fn is_digit_exec(c: char) -> (r: bool)
    ensures
        r == is_digit(c),
{
    let u = c as u32;
    0x30 <= u && u <= 0x39
}

#[verifier::loop_isolation(false)]
fn eq_ignore_case_exec(s: &str, lit: &str) -> (r: bool)
    ensures
        r == eq_ignore_ascii_case(s@, lit@),
{
    let n = s.unicode_len();
    if n != lit.unicode_len() {
        return false;
    }
    let mut i: usize = 0;
    while i < n
        invariant
            i <= n,
            forall|j: int| 0 <= j < i ==> #[trigger] matches_lower(s@[j], lit@[j]),
        decreases n - i,
    {
        let c = s.get_char(i);
        let l = lit.get_char(i);
        if !(c == l || (c as u32) + 32 == (l as u32)) {
            proof {
                assert(!matches_lower(s@[i as int], lit@[i as int]));
            }
            return false;
        }
        i += 1;
    }
    true
}

#[verifier::loop_isolation(false)]
fn is_mantissa_exec(s: &str) -> (r: bool)
    ensures
        r == is_mantissa(s@),
{
    let n = s.unicode_len();
    let mut seen_digit = false;
    let mut seen_dot = false;
    let mut i: usize = 0;
    while i < n
        invariant
            i <= n,
            seen_digit == exists|j: int| 0 <= j < i && is_digit(#[trigger] s@[j]),
            seen_dot == exists|j: int| 0 <= j < i && #[trigger] s@[j] == '.',
            forall|j: int| 0 <= j < i ==> is_digit(#[trigger] s@[j]) || s@[j] == '.',
            forall|j: int, k: int|
                #![trigger s@[j], s@[k]]
                0 <= j < k < i ==> !(s@[j] == '.' && s@[k] == '.'),
        decreases n - i,
    {
        let c = s.get_char(i);
        if is_digit_exec(c) {
            seen_digit = true;
            proof {
                assert(is_digit(s@[i as int]));
            }
        } else if c == '.' {
            if seen_dot {
                return false;
            }
            seen_dot = true;
        } else {
            return false;
        }
        i += 1;
    }
    seen_digit
}

#[verifier::loop_isolation(false)]
fn is_exponent_exec(s: &str) -> (r: bool)
    ensures
        r == is_exponent(s@),
{
    let n = s.unicode_len();
    let start: usize = if n > 0 && (s.get_char(0) == '+' || s.get_char(0) == '-') {
        1
    } else {
        0
    };
    proof {
        assert(strip_sign(s@) =~= s@.skip(start as int));
    }
    if start == n {
        return false;
    }
    let mut i: usize = start;
    while i < n
        invariant
            start <= i <= n,
            forall|j: int| start <= j < i ==> is_digit(#[trigger] s@[j]),
        decreases n - i,
    {
        if !is_digit_exec(s.get_char(i)) {
            proof {
                assert(s@.skip(start as int)[i - start as int] == s@[i as int]);
            }
            return false;
        }
        i += 1;
    }
    proof {
        assert forall|j: int| 0 <= j < s@.skip(start as int).len() implies is_digit(
            #[trigger] s@.skip(start as int)[j],
        ) by {
            assert(s@.skip(start as int)[j] == s@[j + start as int]);
        }
    }
    true
}

/// Finds the first exponent marker.
#[verifier::loop_isolation(false)]
fn find_exp(s: &str) -> (r: Option<usize>)
    ensures
        match r {
            Some(k) => k < s@.len() && is_exp_marker(s@[k as int]) && forall|j: int|
                0 <= j < k ==> !is_exp_marker(#[trigger] s@[j]),
            None => forall|j: int| 0 <= j < s@.len() ==> !is_exp_marker(#[trigger] s@[j]),
        },
{
    let n = s.unicode_len();
    let mut k: usize = 0;
    while k < n
        invariant
            k <= n,
            forall|j: int| 0 <= j < k ==> !is_exp_marker(#[trigger] s@[j]),
        decreases n - k,
    {
        let c = s.get_char(k);
        if c == 'e' || c == 'E' {
            return Some(k);
        }
        k += 1;
    }
    None
}

fn is_number_body_exec(s: &str) -> (r: bool)
    ensures
        r == is_number_body(s@),
{
    let n = s.unicode_len();
    match find_exp(s) {
        None => {
            let r = is_mantissa_exec(s);
            proof {
                assert(forall|k: int| 0 <= k < s@.len() ==> !is_exp_marker(#[trigger] s@[k]));
            }
            r
        },
        Some(k) => {
            let head = is_mantissa_exec(s.substring_char(0, k));
            proof {
                assert(s@.subrange(0, k as int) =~= s@.take(k as int));
            }
            if !head {
                proof {
                    // no other split point works: an earlier one is not a
                    // marker, a later one leaves this marker inside the
                    // significand
                    assert(!is_mantissa(s@)) by {
                        assert(is_exp_marker(s@[k as int]));
                    }
                    assert forall|k2: int|
                        0 <= k2 < s@.len() && is_exp_marker(#[trigger] s@[k2]) implies !(
                    is_mantissa(s@.take(k2)) && is_exponent(s@.skip(k2 + 1))) by {
                        if k2 > k {
                            assert(s@.take(k2)[k as int] == s@[k as int]);
                            assert(!is_mantissa(s@.take(k2)));
                        }
                    }
                }
                return false;
            }
            let tail = is_exponent_exec(s.substring_char(k + 1, n));
            proof {
                assert(s@.subrange(k + 1, n as int) =~= s@.skip(k + 1));
                if tail {
                    assert(is_exp_marker(s@[k as int]) && is_mantissa(s@.take(k as int))
                        && is_exponent(s@.skip(k as int + 1)));
                } else {
                    assert(!is_mantissa(s@)) by {
                        assert(is_exp_marker(s@[k as int]));
                    }
                    assert forall|k2: int|
                        0 <= k2 < s@.len() && is_exp_marker(#[trigger] s@[k2]) implies !(
                    is_mantissa(s@.take(k2)) && is_exponent(s@.skip(k2 + 1))) by {
                        if k2 > k {
                            assert(s@.take(k2)[k as int] == s@[k as int]);
                            assert(!is_mantissa(s@.take(k2)));
                        }
                    }
                }
            }
            tail
        },
    }
}

/// Decides whether the platform's floating-point parse accepts `s`.
fn is_float_literal_exec(s: &str) -> (r: bool)
    ensures
        r == is_float_literal(s@),
{
    let n = s.unicode_len();
    let start: usize = if n > 0 && (s.get_char(0) == '+' || s.get_char(0) == '-') {
        1
    } else {
        0
    };
    let b = s.substring_char(start, n);
    proof {
        assert(b@ =~= strip_sign(s@));
    }
    if eq_ignore_case_exec(b, "inf") {
        return true;
    }
    if eq_ignore_case_exec(b, "infinity") {
        return true;
    }
    if eq_ignore_case_exec(b, "nan") {
        return true;
    }
    is_number_body_exec(b)
}

/// Classifies a trimmed raw value by the priority chain: boolean literal,
/// then floating-point literal, then plain string.
pub fn infer_value(s: &str) -> (v: ConfigValue)
    ensures
        v@ == infer_model(s@),
{
    if str_eq(s, "true") {
        ConfigValue::Bool(true)
    } else if str_eq(s, "false") {
        ConfigValue::Bool(false)
    } else if is_float_literal_exec(s) {
        ConfigValue::Num(String::from_str(s))
    } else {
        ConfigValue::Str(String::from_str(s))
    }
}

} // verus!
