//! Arbitrary-precision arithmetic on decimal strings, for values that
//! exceed the native `u128` range.
//!
//! A big value is a nonempty string of decimal digits. The meaning of
//! such a string is given by `str_to_nat`; the canonical decimal
//! encoding of a natural number by `nat_to_str`. The arithmetic itself
//! is done by `num_bigint` behind trusted wrappers whose contracts are
//! stated over those two spec functions.

use vstd::prelude::*;

use vstd::string::StrSliceExecFns;
use vstd::string::StringExecFns;

use crate::{FinancialError, FinancialResult};

verus! {

/// Whether `c` is a decimal digit.
pub open spec fn is_digit(c: char) -> bool {
    '0' <= c && c <= '9'
}

/// The numeric value of a decimal digit.
pub open spec fn digit_val(c: char) -> int {
    c as u32 - '0' as u32
}

/// Whether `s` is a nonempty string of decimal digits.
pub open spec fn is_dec_string(s: Seq<char>) -> bool {
    s.len() > 0 && forall|i: int| 0 <= i < s.len() ==> is_digit(#[trigger] s[i])
}

/// The natural number denoted by a string of decimal digits.
pub open spec fn str_to_nat(s: Seq<char>) -> nat
    decreases s.len(),
{
    if s.len() == 0 {
        0
    } else {
        (str_to_nat(s.drop_last()) * 10 + digit_val(s.last())) as nat
    }
}

/// The decimal digit for a value below ten.
pub open spec fn digit_char(d: nat) -> char {
    seq!['0', '1', '2', '3', '4', '5', '6', '7', '8', '9'][d as int]
}

/// The canonical decimal encoding of a natural number: no leading
/// zeros, and `"0"` for zero.
pub open spec fn nat_to_str(n: nat) -> Seq<char>
    decreases n,
{
    if n < 10 {
        seq![digit_char(n)]
    } else {
        nat_to_str(n / 10) + seq![digit_char(n % 10)]
    }
}

/// Relies on `num_bigint::BigUint`: `FromStr` parses a nonempty
/// all-digit string to the natural number it denotes in base ten, `+`
/// adds exactly, and `Display` prints the canonical decimal encoding.
#[verifier::external_body]
fn big_add_str(a: &str, b: &str) -> (r: String)
    requires
        is_dec_string(a@),
        is_dec_string(b@),
    ensures
        r@ == nat_to_str(str_to_nat(a@) + str_to_nat(b@)),
{
    let x = a.parse::<num_bigint::BigUint>().unwrap();
    let y = b.parse::<num_bigint::BigUint>().unwrap();
    (x + y).to_string()
}

/// Relies on `num_bigint::BigUint`: `FromStr` parses a nonempty
/// all-digit string, `-` subtracts exactly when the minuend is at least
/// the subtrahend, and `Display` prints the canonical decimal encoding.
#[verifier::external_body]
fn big_sub_str(a: &str, b: &str) -> (r: String)
    requires
        is_dec_string(a@),
        is_dec_string(b@),
        str_to_nat(a@) >= str_to_nat(b@),
    ensures
        r@ == nat_to_str((str_to_nat(a@) - str_to_nat(b@)) as nat),
{
    let x = a.parse::<num_bigint::BigUint>().unwrap();
    let y = b.parse::<num_bigint::BigUint>().unwrap();
    (x - y).to_string()
}

/// Relies on `num_bigint::BigUint`: `FromStr` parses a nonempty
/// all-digit string, `*` multiplies exactly, and `Display` prints the
/// canonical decimal encoding.
#[verifier::external_body]
fn big_mul_str(a: &str, b: &str) -> (r: String)
    requires
        is_dec_string(a@),
        is_dec_string(b@),
    ensures
        r@ == nat_to_str(str_to_nat(a@) * str_to_nat(b@)),
{
    let x = a.parse::<num_bigint::BigUint>().unwrap();
    let y = b.parse::<num_bigint::BigUint>().unwrap();
    (x * y).to_string()
}

/// Relies on `num_bigint::BigUint`: `FromStr` parses a nonempty
/// all-digit string, `/` is exact truncating division for a nonzero
/// divisor, and `Display` prints the canonical decimal encoding.
#[verifier::external_body]
fn big_div_str(a: &str, b: &str) -> (r: String)
    requires
        is_dec_string(a@),
        is_dec_string(b@),
        str_to_nat(b@) > 0,
    ensures
        r@ == nat_to_str((str_to_nat(a@) as int / str_to_nat(b@) as int) as nat),
{
    let x = a.parse::<num_bigint::BigUint>().unwrap();
    let y = b.parse::<num_bigint::BigUint>().unwrap();
    (x / y).to_string()
}

/// Relies on `num_bigint::BigUint`: `FromStr` parses a nonempty
/// all-digit string, and `Ord::cmp` orders values by magnitude.
#[verifier::external_body]
fn big_cmp_str(a: &str, b: &str) -> (r: i32)
    requires
        is_dec_string(a@),
        is_dec_string(b@),
    ensures
        r == -1 ==> str_to_nat(a@) < str_to_nat(b@),
        r == 0 ==> str_to_nat(a@) == str_to_nat(b@),
        r == 1 ==> str_to_nat(a@) > str_to_nat(b@),
        r == -1 || r == 0 || r == 1,
{
    let x = a.parse::<num_bigint::BigUint>().unwrap();
    let y = b.parse::<num_bigint::BigUint>().unwrap();
    match x.cmp(&y) {
        core::cmp::Ordering::Less => -1,
        core::cmp::Ordering::Equal => 0,
        core::cmp::Ordering::Greater => 1,
    }
}

/// Whether a string is a nonempty run of decimal digits.
fn is_valid_big(s: &str) -> (r: bool)
    ensures
        r == is_dec_string(s@),
{
    let n = s.unicode_len();
    if n == 0 {
        return false;
    }
    let mut i: usize = 0;
    while i < n
        invariant
            i <= n,
            n == s@.len(),
            forall|j: int| 0 <= j < i ==> is_digit(#[trigger] s@[j]),
        decreases n - i,
    {
        let c = s.get_char(i);
        if c < '0' || c > '9' {
            return false;
        }
        i = i + 1;
    }
    true
}

/// Addition of two big decimal strings; a malformed input is rejected
/// with `InvalidValue`.
pub fn big_safe_add(a: &str, b: &str) -> (r: FinancialResult<String>)
    ensures
        !(is_dec_string(a@) && is_dec_string(b@)) ==> r == FinancialResult::<String>::Err(
            FinancialError::InvalidValue,
        ),
        is_dec_string(a@) && is_dec_string(b@) ==> r is Ok && r->Ok_0@ == nat_to_str(
            str_to_nat(a@) + str_to_nat(b@),
        ),
{
    if !is_valid_big(a) || !is_valid_big(b) {
        return Err(FinancialError::InvalidValue);
    }
    Ok(big_add_str(a, b))
}

/// Subtraction of two big decimal strings; a malformed input is
/// rejected with `InvalidValue`, and a negative result with
/// `NegativeValue`.
pub fn big_safe_subtract(a: &str, b: &str) -> (r: FinancialResult<String>)
    ensures
        !(is_dec_string(a@) && is_dec_string(b@)) ==> r == FinancialResult::<String>::Err(
            FinancialError::InvalidValue,
        ),
        is_dec_string(a@) && is_dec_string(b@) && str_to_nat(a@) < str_to_nat(b@) ==> r
            == FinancialResult::<String>::Err(FinancialError::NegativeValue),
        is_dec_string(a@) && is_dec_string(b@) && str_to_nat(a@) >= str_to_nat(b@) ==> r is Ok
            && r->Ok_0@ == nat_to_str((str_to_nat(a@) - str_to_nat(b@)) as nat),
{
    if !is_valid_big(a) || !is_valid_big(b) {
        return Err(FinancialError::InvalidValue);
    }
    if big_cmp_str(a, b) == -1 {
        return Err(FinancialError::NegativeValue);
    }
    Ok(big_sub_str(a, b))
}

/// Multiplication of two big decimal strings; a malformed input is
/// rejected with `InvalidValue`.
pub fn big_safe_multiply(a: &str, b: &str) -> (r: FinancialResult<String>)
    ensures
        !(is_dec_string(a@) && is_dec_string(b@)) ==> r == FinancialResult::<String>::Err(
            FinancialError::InvalidValue,
        ),
        is_dec_string(a@) && is_dec_string(b@) ==> r is Ok && r->Ok_0@ == nat_to_str(
            str_to_nat(a@) * str_to_nat(b@),
        ),
{
    if !is_valid_big(a) || !is_valid_big(b) {
        return Err(FinancialError::InvalidValue);
    }
    Ok(big_mul_str(a, b))
}

/// Truncating division of two big decimal strings; a malformed input is
/// rejected with `InvalidValue` and a zero divisor with
/// `DivisionByZero`.
pub fn big_safe_divide(a: &str, b: &str) -> (r: FinancialResult<String>)
    ensures
        !(is_dec_string(a@) && is_dec_string(b@)) ==> r == FinancialResult::<String>::Err(
            FinancialError::InvalidValue,
        ),
        is_dec_string(a@) && is_dec_string(b@) && str_to_nat(b@) == 0 ==> r
            == FinancialResult::<String>::Err(FinancialError::DivisionByZero),
        is_dec_string(a@) && is_dec_string(b@) && str_to_nat(b@) > 0 ==> r is Ok && r->Ok_0@
            == nat_to_str((str_to_nat(a@) as int / str_to_nat(b@) as int) as nat),
{
    if !is_valid_big(a) || !is_valid_big(b) {
        return Err(FinancialError::InvalidValue);
    }
    proof {
        reveal_strlit("0");
        assert forall|i: int| 0 <= i < "0"@.len() implies is_digit(#[trigger] "0"@[i]) by {
            assert("0"@[i] == '0');
        }
        assert(is_dec_string("0"@));
        assert(str_to_nat("0"@) == 0) by {
            let s = "0"@;
            assert(s.len() == 1);
            assert(s.last() == '0');
            assert(s.drop_last() =~= Seq::<char>::empty());
            assert(str_to_nat(s.drop_last()) == 0);
            assert(digit_val('0') == 0);
            assert(str_to_nat(s) == (str_to_nat(s.drop_last()) * 10 + digit_val(s.last())) as nat);
        }
    }
    if big_cmp_str(b, "0") == 0 {
        return Err(FinancialError::DivisionByZero);
    }
    Ok(big_div_str(a, b))
}

/// The absolute difference `|a - b|` of two big decimal strings; a
/// malformed input is rejected with `InvalidValue`.
pub fn big_absolute_difference(a: &str, b: &str) -> (r: FinancialResult<String>)
    ensures
        !(is_dec_string(a@) && is_dec_string(b@)) ==> r == FinancialResult::<String>::Err(
            FinancialError::InvalidValue,
        ),
        is_dec_string(a@) && is_dec_string(b@) ==> r is Ok && r->Ok_0@ == nat_to_str(
            if str_to_nat(a@) >= str_to_nat(b@) {
                (str_to_nat(a@) - str_to_nat(b@)) as nat
            } else {
                (str_to_nat(b@) - str_to_nat(a@)) as nat
            },
        ),
{
    if !is_valid_big(a) || !is_valid_big(b) {
        return Err(FinancialError::InvalidValue);
    }
    if big_cmp_str(a, b) == -1 {
        Ok(big_sub_str(b, a))
    } else {
        Ok(big_sub_str(a, b))
    }
}

/// Three-way comparison of two big decimal strings: `-1`, `0` or `1`.
/// A malformed input is rejected with `InvalidValue`.
pub fn big_compare(a: &str, b: &str) -> (r: FinancialResult<i32>)
    ensures
        !(is_dec_string(a@) && is_dec_string(b@)) ==> r == FinancialResult::<i32>::Err(
            FinancialError::InvalidValue,
        ),
        is_dec_string(a@) && is_dec_string(b@) ==> {
            &&& r is Ok
            &&& (r->Ok_0 == -1 <==> str_to_nat(a@) < str_to_nat(b@))
            &&& (r->Ok_0 == 0 <==> str_to_nat(a@) == str_to_nat(b@))
            &&& (r->Ok_0 == 1 <==> str_to_nat(a@) > str_to_nat(b@))
        },
{
    if !is_valid_big(a) || !is_valid_big(b) {
        return Err(FinancialError::InvalidValue);
    }
    Ok(big_cmp_str(a, b))
}

/// Whether a big decimal string is zero: `"0"` or the empty string.
pub fn big_is_zero(a: &str) -> (r: bool)
    ensures
        r == (a@ == seq!['0'] || a@.len() == 0),
{
    let n = a.unicode_len();
    if n == 0 {
        return true;
    }
    if n == 1 && a.get_char(0) == '0' {
        proof {
            assert(a@ =~= seq!['0']);
        }
        return true;
    }
    proof {
        if a@ == seq!['0'] {
            assert(a@.len() == 1 && a@[0] == '0');
        }
    }
    false
}

/// Relies on `u128`'s `Display`: it prints the canonical decimal
/// encoding of the value.
#[verifier::external_body]
pub fn u128_to_string(value: u128) -> (r: String)
    ensures
        r@ == nat_to_str(value as nat),
{
    value.to_string()
}

/// The value of a prefix never exceeds the value of the whole digit
/// string.
pub proof fn lemma_str_prefix_le(s: Seq<char>, i: int)
    requires
        0 <= i <= s.len(),
        forall|j: int| 0 <= j < s.len() ==> is_digit(#[trigger] s[j]),
    ensures
        str_to_nat(s.subrange(0, i)) <= str_to_nat(s),
    decreases s.len() - i,
{
    if i < s.len() {
        lemma_str_prefix_le(s, i + 1);
        let p = s.subrange(0, i);
        let q = s.subrange(0, i + 1);
        assert(q.drop_last() =~= p);
        assert(str_to_nat(q) == str_to_nat(p) * 10 + digit_val(q.last()));
        assert(str_to_nat(p) <= str_to_nat(p) * 10) by (nonlinear_arith)
            requires
                str_to_nat(p) >= 0,
        ;
    } else {
        assert(s.subrange(0, i) =~= s);
    }
}

/// Parse a decimal digit string into a `u128`. Any malformed string,
/// and any value beyond the native range, is rejected with `Overflow`.
pub fn string_to_u128(value: &str) -> (r: FinancialResult<u128>)
    ensures
        is_dec_string(value@) && str_to_nat(value@) <= u128::MAX ==> r
            == FinancialResult::<u128>::Ok(str_to_nat(value@) as u128),
        !(is_dec_string(value@) && str_to_nat(value@) <= u128::MAX) ==> r
            == FinancialResult::<u128>::Err(FinancialError::Overflow),
{
    let n = value.unicode_len();
    if n == 0 {
        return Err(FinancialError::Overflow);
    }

    let mut acc: u128 = 0;
    let mut i: usize = 0;
    proof {
        assert(value@.subrange(0, 0) =~= Seq::<char>::empty());
    }
    while i < n
        invariant
            i <= n,
            n == value@.len(),
            n > 0,
            forall|j: int| 0 <= j < i ==> is_digit(#[trigger] value@[j]),
            acc == str_to_nat(value@.subrange(0, i as int)),
        decreases n - i,
    {
        let c = value.get_char(i);
        if c < '0' || c > '9' {
            return Err(FinancialError::Overflow);
        }
        let d = (c as u32 - '0' as u32) as u128;
        proof {
            assert(value@.subrange(0, i + 1).drop_last() =~= value@.subrange(0, i as int));
        }
        let next = match acc.checked_mul(10) {
            Some(t) => t.checked_add(d),
            None => None,
        };
        match next {
            Some(t) => {
                acc = t;
            },
            None => {
                proof {
                    let whole = value@;
                    if is_dec_string(whole) {
                        lemma_str_prefix_le(whole, i + 1);
                        assert(str_to_nat(whole.subrange(0, i + 1)) > u128::MAX);
                    }
                }
                return Err(FinancialError::Overflow);
            },
        }
        i = i + 1;
    }
    proof {
        assert(value@.subrange(0, n as int) =~= value@);
    }
    Ok(acc)
}

/// Classify a big decimal string: the boolean is true exactly when the
/// value fits the native `u128` range; the string is returned
/// unchanged either way.
pub fn safe_convert_to_big(value: &str) -> (r: (bool, String))
    ensures
        r.1@ == value@,
        r.0 == (is_dec_string(value@) && str_to_nat(value@) <= u128::MAX),
{
    let fits = match string_to_u128(value) {
        Ok(_) => true,
        Err(_) => false,
    };
    (fits, String::from_str(value))
}

} // verus!
