//! The tagged value type for document variables, and the coercion that
//! classifies a raw value literal as quoted text, a boolean, a decimal
//! number, or the empty value.

use vstd::prelude::*;

use crate::text::{eq_str, is_digit, is_digit_c, subvec, chars_to_string};

verus! {

// ---------------------------------------------------------------------------
// Decimal number lexing
// ---------------------------------------------------------------------------

pub open spec fn all_digits(s: Seq<char>) -> bool {
    forall|i: int| 0 <= i < s.len() ==> is_digit_c(s[i])
}

/// A mantissa: only digits and at most one decimal point, with at least
/// one digit somewhere.
pub open spec fn mantissa_ok(s: Seq<char>) -> bool {
    &&& forall|i: int| 0 <= i < s.len() ==> (is_digit_c(s[i]) || s[i] == '.')
    &&& forall|i: int, j: int| 0 <= i < j < s.len() ==> !(s[i] == '.' && s[j] == '.')
    &&& exists|i: int| 0 <= i < s.len() && is_digit_c(s[i])
}

/// `s` without one optional leading sign.
pub open spec fn strip_sign(s: Seq<char>) -> Seq<char> {
    if s.len() > 0 && (s[0] == '+' || s[0] == '-') {
        s.drop_first()
    } else {
        s
    }
}

pub open spec fn is_e(c: char) -> bool {
    c == 'e' || c == 'E'
}

/// Index of the first exponent marker in `s`; `s.len()` if absent.
pub open spec fn idx_of_e(s: Seq<char>) -> int
    decreases s.len(),
{
    if s.len() == 0 {
        0
    } else if is_e(s[0]) {
        0
    } else {
        1 + idx_of_e(s.drop_first())
    }
}

pub proof fn lemma_idx_of_e_is(s: Seq<char>, k: int)
    requires
        0 <= k <= s.len(),
        forall|j: int| 0 <= j < k ==> !is_e(s[j]),
        k < s.len() ==> is_e(s[k]),
    ensures
        idx_of_e(s) == k,
    decreases k,
{
    if s.len() > 0 && !is_e(s[0]) {
        lemma_idx_of_e_is(s.drop_first(), k - 1);
    }
}

/// An exponent: an optional sign, then at least one digit.
pub open spec fn exp_ok(s: Seq<char>) -> bool {
    let t = strip_sign(s);
    t.len() > 0 && all_digits(t)
}

/// The decimal lexical form of a finite number: an optional sign, a
/// mantissa, and an optional exponent introduced by `e` or `E`.  The
/// textual infinity and not-a-number forms are not numbers here.
pub open spec fn number_ok(s: Seq<char>) -> bool {
    let u = strip_sign(s);
    let k = idx_of_e(u);
    if k == u.len() {
        mantissa_ok(u)
    } else {
        mantissa_ok(u.take(k)) && exp_ok(u.skip(k + 1))
    }
}

/// Whether `v[a..b]` is a valid mantissa.
fn mantissa_check(v: &Vec<char>, a: usize, b: usize) -> (r: bool)
    requires
        a <= b <= v@.len(),
    ensures
        r == mantissa_ok(v@.subrange(a as int, b as int)),
{
    let ghost s = v@.subrange(a as int, b as int);
    let mut saw_digit = false;
    let mut saw_dot = false;
    let mut first_dot: usize = b;
    let mut i: usize = a;
    while i < b
        invariant
            a <= i <= b <= v@.len(),
            s == v@.subrange(a as int, b as int),
            forall|j: int| a <= j < i ==> (is_digit_c(v@[j]) || v@[j] == '.'),
            saw_digit == exists|j: int| a <= j < i && is_digit_c(v@[j]),
            saw_dot ==> a <= first_dot < i && v@[first_dot as int] == '.',
            forall|j: int| a <= j < i && v@[j] == '.' ==> saw_dot && j == first_dot,
        decreases b - i,
    {
        let c = v[i];
        if is_digit(c) {
            saw_digit = true;
        } else if c == '.' {
            if saw_dot {
                assert(s[first_dot - a] == '.' && s[i - a] == '.');
                return false;
            }
            saw_dot = true;
            first_dot = i;
        } else {
            assert(s[i - a] == c);
            return false;
        }
        i += 1;
    }
    if saw_digit {
        assert(mantissa_ok(s)) by {
            assert(forall|j: int| 0 <= j < s.len() ==> s[j] == v@[a + j]);
            let w = choose|j: int| a <= j < b && is_digit_c(v@[j]);
            assert(is_digit_c(s[w - a]));
        }
    } else {
        assert(!mantissa_ok(s)) by {
            if exists|j: int| 0 <= j < s.len() && is_digit_c(s[j]) {
                let w = choose|j: int| 0 <= j < s.len() && is_digit_c(s[j]);
                assert(is_digit_c(v@[a + w]));
            }
        }
    }
    saw_digit
}

/// Whether the characters of `v` form a valid decimal number literal.
pub fn is_number(v: &Vec<char>) -> (r: bool)
    ensures
        r == number_ok(v@),
{
    let n = v.len();
    let start: usize = if n > 0 && (v[0] == '+' || v[0] == '-') {
        1
    } else {
        0
    };
    let ghost u = strip_sign(v@);
    proof {
        assert(u =~= v@.skip(start as int));
    }
    // find the first exponent marker
    let mut e: usize = start;
    while e < n && !(v[e] == 'e' || v[e] == 'E')
        invariant
            start <= e <= n,
            n == v@.len(),
            forall|j: int| start <= j < e ==> !is_e(v@[j]),
        decreases n - e,
    {
        e += 1;
    }
    proof {
        assert(forall|j: int| 0 <= j < e - start ==> u[j] == v@[start + j]);
        lemma_idx_of_e_is(u, e - start);
    }
    let m_ok = mantissa_check(v, start, e);
    proof {
        assert(u.take(e - start) =~= v@.subrange(start as int, e as int));
    }
    if e == n {
        assert(idx_of_e(u) == u.len());
        m_ok
    } else {
        if !m_ok {
            return false;
        }
        // exponent part: optional sign, then at least one digit
        let es: usize = if e + 1 < n && (v[e + 1] == '+' || v[e + 1] == '-') {
            e + 2
        } else {
            e + 1
        };
        let ghost t = strip_sign(u.skip(e - start + 1));
        proof {
            assert(u.skip(e - start + 1) =~= v@.skip(e + 1));
            assert(t =~= v@.skip(es as int));
        }
        if es == n {
            assert(t.len() == 0);
            return false;
        }
        assert(number_ok(v@) == (t.len() > 0 && all_digits(t)));
        let mut k: usize = es;
        while k < n
            invariant
                es <= k <= n,
                n == v@.len(),
                t == v@.skip(es as int),
                number_ok(v@) == (t.len() > 0 && all_digits(t)),
                forall|j: int| es <= j < k ==> is_digit_c(v@[j]),
            decreases n - k,
        {
            if !is_digit(v[k]) {
                assert(t[k - es] == v@[k as int]);
                return false;
            }
            k += 1;
        }
        assert(forall|j: int| 0 <= j < t.len() ==> t[j] == v@[es + j]);
        true
    }
}

// ---------------------------------------------------------------------------
// The value type and its model
// ---------------------------------------------------------------------------

/// Specification-level shape of a variable value.
#[verifier::ext_equal]
pub ghost enum ValueModel {
    VStr(Seq<char>),
    VNum(Seq<char>),
    VBool(bool),
    VEmpty,
}

/// A typed variable value.
///
/// `Number` keeps the validated decimal literal exactly as written, so
/// that the crate stays free of machine floating point; evaluating the
/// literal numerically is a caller's concern.
#[derive(Debug, Clone, PartialEq)]
pub enum BdlValue {
    String(String),
    Number(String),
    Boolean(bool),
    Empty,
}

impl View for BdlValue {
    type V = ValueModel;

    open spec fn view(&self) -> ValueModel {
        match self {
            BdlValue::String(s) => ValueModel::VStr(s@),
            BdlValue::Number(s) => ValueModel::VNum(s@),
            BdlValue::Boolean(b) => ValueModel::VBool(*b),
            BdlValue::Empty => ValueModel::VEmpty,
        }
    }
}

// ---------------------------------------------------------------------------
// Value coercion
// ---------------------------------------------------------------------------

/// Classification of a cleaned value literal, in fixed precedence:
/// quoted text, then booleans, then numbers, then the empty forms;
/// anything else is malformed.
pub open spec fn classify_value(v: Seq<char>) -> Option<ValueModel> {
    if v.len() >= 2 && v[0] == '"' && v.last() == '"' {
        Some(ValueModel::VStr(v.subrange(1, v.len() - 1)))
    } else if v == "true"@ {
        Some(ValueModel::VBool(true))
    } else if v == "false"@ {
        Some(ValueModel::VBool(false))
    } else if number_ok(v) {
        Some(ValueModel::VNum(v))
    } else if v.len() == 0 || v == "{}"@ {
        Some(ValueModel::VEmpty)
    } else {
        None
    }
}

/// Coerce a cleaned value literal into a typed value; `None` marks a
/// malformed literal.
pub fn parse_value(v: &Vec<char>) -> (r: Option<BdlValue>)
    ensures
        match r {
            Some(val) => classify_value(v@) == Some(val@),
            None => classify_value(v@) is None,
        },
{
    let n = v.len();
    if n >= 2 && v[0] == '"' && v[n - 1] == '"' {
        let inner = subvec(v, 1, n - 1);
        Some(BdlValue::String(chars_to_string(&inner)))
    } else if eq_str(v, "true") {
        Some(BdlValue::Boolean(true))
    } else if eq_str(v, "false") {
        Some(BdlValue::Boolean(false))
    } else if is_number(v) {
        Some(BdlValue::Number(chars_to_string(v)))
    } else if n == 0 || eq_str(v, "{}") {
        Some(BdlValue::Empty)
    } else {
        None
    }
}

} // verus!
