//! Parsing of decimal literals into scaled integers.
//!
//! A depth update carries prices and quantities as decimal strings
//! ("50000.0", "1.0"). The grammar is: one optional dot, decimal digits
//! on either side, at least one digit in all. The value is read at a
//! fixed scale; fractional digits beyond the scale are dropped.

use vstd::prelude::*;

use vstd::string::StrSliceExecFns;

use crate::big_arithmetic::{is_digit, str_to_nat};
use crate::{pow10, FinancialError, FinancialResult};

verus! {

/// The index of the first dot of `s`, or `s.len()` if there is none.
pub open spec fn spec_first_dot(s: Seq<char>) -> int
    decreases s.len(),
{
    if s.len() == 0 {
        0
    } else if s[0] == '.' {
        0
    } else {
        1 + spec_first_dot(s.drop_first())
    }
}

/// The first dot is in range, is a dot, and nothing before it is one.
pub proof fn lemma_first_dot_range(s: Seq<char>)
    ensures
        0 <= spec_first_dot(s) <= s.len(),
        spec_first_dot(s) < s.len() ==> s[spec_first_dot(s)] == '.',
        forall|j: int| 0 <= j < spec_first_dot(s) ==> s[j] != '.',
    decreases s.len(),
{
    if s.len() > 0 && s[0] != '.' {
        lemma_first_dot_range(s.drop_first());
        assert forall|j: int| 0 <= j < spec_first_dot(s) implies s[j] != '.' by {
            if j > 0 {
                assert(s.drop_first()[j - 1] != '.');
            }
        }
    }
}

/// Whether `s` is a decimal literal: at most one dot, digits
/// everywhere else, and at least one digit.
pub open spec fn spec_is_decimal(s: Seq<char>) -> bool {
    let d = spec_first_dot(s);
    &&& s.len() > 0
    &&& (forall|j: int| 0 <= j < d ==> is_digit(#[trigger] s[j]))
    &&& (forall|j: int| d < j < s.len() ==> is_digit(#[trigger] s[j]))
    &&& (d == 0 ==> s.len() > 1)
}

/// The value of the fractional digit string `f` at `scale` decimal
/// places: the first `scale` digits, padded with zeros on the right.
pub open spec fn spec_frac_val(f: Seq<char>, scale: nat) -> int {
    if f.len() >= scale {
        str_to_nat(f.subrange(0, scale as int)) as int
    } else {
        str_to_nat(f) * pow10((scale - f.len()) as nat) as int
    }
}

/// The scaled value of the decimal literal `s`: the integer part times
/// `10^scale` plus the fractional value.
pub open spec fn spec_decimal_value(s: Seq<char>, scale: nat) -> int {
    let d = spec_first_dot(s);
    let ip = s.subrange(0, d);
    let fp = if d < s.len() {
        s.subrange(d + 1, s.len() as int)
    } else {
        Seq::<char>::empty()
    };
    str_to_nat(ip) * pow10(scale) + spec_frac_val(fp, scale)
}

/// A scaled decimal value is at least the value of any prefix of its
/// integer part.
proof fn lemma_value_ge_int_prefix(s: Seq<char>, scale: nat, i: int)
    requires
        spec_is_decimal(s),
        0 <= i <= spec_first_dot(s),
    ensures
        spec_decimal_value(s, scale) >= str_to_nat(s.subrange(0, i)),
{
    lemma_first_dot_range(s);
    let d = spec_first_dot(s);
    let ip = s.subrange(0, d);
    let fp = if d < s.len() {
        s.subrange(d + 1, s.len() as int)
    } else {
        Seq::<char>::empty()
    };
    assert forall|j: int| 0 <= j < ip.len() implies is_digit(#[trigger] ip[j]) by {
        assert(ip[j] == s[j]);
    }
    crate::big_arithmetic::lemma_str_prefix_le(ip, i);
    assert(ip.subrange(0, i) =~= s.subrange(0, i));
    crate::lemma_pow10_positive(scale);
    assert(str_to_nat(ip) * pow10(scale) >= str_to_nat(ip)) by (nonlinear_arith)
        requires
            pow10(scale) >= 1,
            str_to_nat(ip) >= 0,
    ;
    lemma_frac_val_nonneg(fp, scale);
}

/// Fractional values are non-negative.
proof fn lemma_frac_val_nonneg(f: Seq<char>, scale: nat)
    ensures
        spec_frac_val(f, scale) >= 0,
{
    if f.len() < scale {
        crate::lemma_pow10_positive((scale - f.len()) as nat);
        assert(str_to_nat(f) * pow10((scale - f.len()) as nat) >= 0) by (nonlinear_arith)
            requires
                str_to_nat(f) >= 0,
                pow10((scale - f.len()) as nat) >= 0,
        ;
    }
}

/// Parse a decimal literal into a scaled integer. Malformed strings,
/// and values that do not fit the native range, are rejected with
/// `InvalidValue`.
pub fn parse_scaled(s: &str, scale: u32) -> (r: FinancialResult<u128>)
    requires
        scale <= 38,
    ensures
        spec_is_decimal(s@) && spec_decimal_value(s@, scale as nat) <= u128::MAX ==> r
            == FinancialResult::<u128>::Ok(spec_decimal_value(s@, scale as nat) as u128),
        !(spec_is_decimal(s@) && spec_decimal_value(s@, scale as nat) <= u128::MAX) ==> r
            == FinancialResult::<u128>::Err(FinancialError::InvalidValue),
{
    let n = s.unicode_len();
    proof {
        lemma_first_dot_range(s@);
    }
    if n == 0 {
        return Err(FinancialError::InvalidValue);
    }

    let ghost d = spec_first_dot(s@);

    // Integer part: digits up to the first dot or the end.
    let mut i: usize = 0;
    let mut ip: u128 = 0;
    let mut at_dot = false;
    proof {
        assert(s@.subrange(0, 0) =~= Seq::<char>::empty());
    }
    while i < n && !at_dot
        invariant
            scale <= 38,
            n == s@.len(),
            n > 0,
            d == spec_first_dot(s@),
            0 <= d <= n,
            d < n ==> s@[d] == '.',
            forall|j: int| 0 <= j < d ==> s@[j] != '.',
            !at_dot ==> i <= d && forall|j: int| 0 <= j < i ==> is_digit(#[trigger] s@[j])
                && s@[j] != '.',
            !at_dot ==> ip == str_to_nat(s@.subrange(0, i as int)),
            at_dot ==> i == d && i < n && ip == str_to_nat(s@.subrange(0, d)),
            at_dot ==> forall|j: int| 0 <= j < d ==> is_digit(#[trigger] s@[j]),
            i <= n,
        decreases n - i, 1int - (if at_dot { 1int } else { 0int }),
    {
        let c = s.get_char(i);
        if c == '.' {
            proof {
                assert(i == d);
            }
            at_dot = true;
        } else if c < '0' || c > '9' {
            proof {
                // the offending character sits in the integer or the
                // fractional region; either way the literal is malformed
                assert(i != d);
                if i < d {
                    assert(!spec_is_decimal(s@));
                } else {
                    assert(d < i < n);
                    assert(!spec_is_decimal(s@));
                }
            }
            return Err(FinancialError::InvalidValue);
        } else {
            let dv = (c as u32 - '0' as u32) as u128;
            proof {
                assert(s@.subrange(0, i + 1).drop_last() =~= s@.subrange(0, i as int));
            }
            let next = match ip.checked_mul(10) {
                Some(t) => t.checked_add(dv),
                None => None,
            };
            match next {
                Some(t) => {
                    ip = t;
                },
                None => {
                    proof {
                        if spec_is_decimal(s@) {
                            assert(str_to_nat(s@.subrange(0, i + 1)) > u128::MAX);
                            assert(i + 1 <= d);
                            lemma_value_ge_int_prefix(s@, scale as nat, i + 1);
                        }
                    }
                    return Err(FinancialError::InvalidValue);
                },
            }
            i = i + 1;
        }
    }

    if !at_dot {
        // no dot: the whole string is the integer part
        proof {
            assert(i == n);
            assert(d == n);
            assert(s@.subrange(0, n as int) =~= s@);
            assert(spec_is_decimal(s@));
            assert(spec_frac_val(Seq::<char>::empty(), scale as nat) == 0) by {
                if (Seq::<char>::empty()).len() >= scale as nat {
                    assert(Seq::<char>::empty().subrange(0, scale as int) =~= Seq::<
                        char,
                    >::empty());
                } else {
                    assert(str_to_nat(Seq::<char>::empty()) == 0);
                    assert(0 * pow10((scale as nat - 0) as nat) == 0) by (nonlinear_arith);
                }
            }
        }
        let mult = crate::pow10_u128(scale);
        match ip.checked_mul(mult) {
            Some(v) => {
                return Ok(v);
            },
            None => {
                return Err(FinancialError::InvalidValue);
            },
        }
    }

    // Fractional part: digits after the dot; only the first `scale`
    // of them carry value.
    let dot = i;
    let mut j: usize = dot + 1;
    let mut f: u128 = 0;
    let mut taken: u32 = 0;
    proof {
        assert(s@.subrange(dot + 1, dot + 1) =~= Seq::<char>::empty());
        crate::lemma_pow10_positive(0);
    }
    while j < n
        invariant
            scale <= 38,
            n == s@.len(),
            d == spec_first_dot(s@),
            dot == d,
            0 <= d < n,
            dot + 1 <= j <= n,
            forall|j2: int| 0 <= j2 < d ==> is_digit(#[trigger] s@[j2]),
            forall|j2: int| d < j2 < j ==> is_digit(#[trigger] s@[j2]),
            ip == str_to_nat(s@.subrange(0, d)),
            taken == if j - dot - 1 <= scale {
                (j - dot - 1) as int
            } else {
                scale as int
            },
            f == str_to_nat(s@.subrange(dot + 1, dot + 1 + taken)),
            f < pow10(taken as nat),
        decreases n - j,
    {
        let c = s.get_char(j);
        if c < '0' || c > '9' {
            proof {
                assert(d < j < n && !is_digit(s@[j as int]));
                assert(!spec_is_decimal(s@));
            }
            return Err(FinancialError::InvalidValue);
        }
        if taken < scale {
            let dv = (c as u32 - '0' as u32) as u128;
            proof {
                assert(j == dot + 1 + taken);
                assert(s@.subrange(dot + 1, dot + 1 + (taken + 1)).drop_last() =~= s@.subrange(
                    dot + 1,
                    dot + 1 + taken,
                ));
                assert(pow10((taken + 1) as nat) == 10 * pow10(taken as nat));
                crate::lemma_pow10_increases((taken + 1) as nat, 38);
                crate::lemma_pow10_38_fits();
                assert(f * 10 + dv < pow10((taken + 1) as nat)) by (nonlinear_arith)
                    requires
                        f < pow10(taken as nat),
                        dv <= 9,
                        pow10((taken + 1) as nat) == 10 * pow10(taken as nat),
                ;
            }
            f = f * 10 + dv;
            taken = taken + 1;
        }
        j = j + 1;
    }

    // at least one digit in the literal
    if dot == 0 && n == 1 {
        proof {
            assert(!spec_is_decimal(s@));
        }
        return Err(FinancialError::InvalidValue);
    }

    proof {
        assert(spec_is_decimal(s@));
    }

    let ghost fp = s@.subrange(d + 1, n as int);

    let fv: u128 = if taken < scale {
        proof {
            assert(fp.len() == taken);
            assert(s@.subrange(dot + 1, dot + 1 + taken) =~= fp);
            crate::lemma_pow10_adds(taken as nat, (scale - taken) as nat);
            crate::lemma_pow10_positive((scale - taken) as nat);
            crate::lemma_pow10_increases(scale as nat, 38);
            crate::lemma_pow10_38_fits();
            assert(f * pow10((scale - taken) as nat) < pow10(scale as nat)) by (nonlinear_arith)
                requires
                    f < pow10(taken as nat),
                    pow10(scale as nat) == pow10(taken as nat) * pow10((scale - taken) as nat),
                    pow10((scale - taken) as nat) >= 1,
            ;
        }
        let pad = crate::pow10_u128(scale - taken);
        f * pad
    } else {
        proof {
            assert(taken == scale);
            assert(fp.len() >= scale);
            assert(s@.subrange(dot + 1, dot + 1 + scale as int) =~= fp.subrange(0, scale as int));
        }
        f
    };

    proof {
        assert(fv == spec_frac_val(fp, scale as nat));
    }

    let mult = crate::pow10_u128(scale);
    let scaled_ip = match ip.checked_mul(mult) {
        Some(t) => t,
        None => {
            proof {
                lemma_frac_val_nonneg(fp, scale as nat);
            }
            return Err(FinancialError::InvalidValue);
        },
    };
    match scaled_ip.checked_add(fv) {
        Some(v) => Ok(v),
        None => Err(FinancialError::InvalidValue),
    }
}

} // verus!
