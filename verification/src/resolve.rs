use vstd::prelude::*;
use vstd::string::StrSliceExecFns;
use vstd::pervasive::unreached;

use crate::progression::{ProgressionSpec, Termination};

verus! {

/// A decimal digit.
pub open spec fn is_digit_char(c: char) -> bool {
    ('0' as u32) <= (c as u32) && (c as u32) <= ('9' as u32)
}

/// Numeric value of a decimal digit.
pub open spec fn digit_val(c: char) -> int {
    (c as u32) as int - ('0' as u32) as int
}

/// The signed-integer lexical form: an optional leading minus sign,
/// then one or more decimal digits.
pub open spec fn is_integer_literal(s: Seq<char>) -> bool {
    if s.len() == 0 {
        false
    } else if s[0] == '-' {
        s.len() >= 2 && (forall|i: int| 1 <= i < s.len() ==> is_digit_char(#[trigger] s[i]))
    } else {
        forall|i: int| 0 <= i < s.len() ==> is_digit_char(#[trigger] s[i])
    }
}

/// Value of a run of decimal digits, most significant first.
pub open spec fn digits_value(s: Seq<char>) -> int
    decreases s.len(),
{
    if s.len() == 0 {
        0
    } else {
        10 * digits_value(s.drop_last()) + digit_val(s.last())
    }
}

/// Value denoted by a signed-integer literal.
pub open spec fn integer_literal_value(s: Seq<char>) -> int {
    if s.len() > 0 && s[0] == '-' {
        -digits_value(s.skip(1))
    } else {
        digits_value(s)
    }
}

/// A token that resolves to an integer argument: it has the
/// signed-integer lexical form and its value fits in `isize`.
pub open spec fn token_ok(s: Seq<char>) -> bool {
    &&& is_integer_literal(s)
    &&& isize::MIN <= integer_literal_value(s) <= isize::MAX
}

proof fn lemma_digits_value_nonneg(s: Seq<char>)
    requires
        forall|i: int| 0 <= i < s.len() ==> is_digit_char(#[trigger] s[i]),
    ensures
        digits_value(s) >= 0,
    decreases s.len(),
{
    if s.len() > 0 {
        lemma_digits_value_nonneg(s.drop_last());
    }
}

/// Digits only grow a token: a prefix of a digit run never has a larger
/// value than the whole run.
proof fn lemma_digits_value_prefix_le(s: Seq<char>, k: int)
    requires
        0 <= k <= s.len(),
        forall|i: int| 0 <= i < s.len() ==> is_digit_char(#[trigger] s[i]),
    ensures
        digits_value(s.subrange(0, k)) <= digits_value(s),
    decreases s.len() - k,
{
    if k == s.len() {
        assert(s.subrange(0, k) =~= s);
    } else {
        assert(s.drop_last().subrange(0, k) =~= s.subrange(0, k));
        lemma_digits_value_prefix_le(s.drop_last(), k);
        lemma_digits_value_nonneg(s.drop_last());
    }
}

/// The message given for a token that is not in integer form.
fn invalid_integer_message() -> (r: String)
    ensures
        r@ == "All arguments that take values must be integers."@,
{
    "All arguments that take values must be integers.".to_owned()
}

/// Validation check that an input appears in the form of an integer.
pub fn is_integer(s: String) -> (r: Result<(), String>)
    ensures
        r is Ok <==> is_integer_literal(s@),
        r is Err ==> r->Err_0@ == "All arguments that take values must be integers."@,
{
    let st = s.as_str();
    let n = st.unicode_len();
    let first_digit: usize = if n > 0 && st.get_char(0) == '-' {
        1
    } else {
        0
    };
    if n <= first_digit {
        return Err(invalid_integer_message());
    }
    let mut i: usize = first_digit;
    while i < n
        invariant
            st@ == s@,
            n == s@.len(),
            first_digit <= i <= n,
            n > first_digit,
            first_digit == 1 ==> s@[0] == '-',
            first_digit == 0 ==> n == 0 || s@[0] != '-',
            forall|j: int| first_digit <= j < i ==> is_digit_char(#[trigger] s@[j]),
        decreases n - i,
    {
        let c = st.get_char(i);
        if (c as u32) < ('0' as u32) || (c as u32) > ('9' as u32) {
            return Err(invalid_integer_message());
        }
        i += 1;
    }
    Ok(())
}

/// Integer value of a token: the value for every token in the
/// signed-integer lexical form whose value fits in `isize`, and nothing
/// for any other token.
pub fn parse_integer(s: &str) -> (r: Option<isize>)
    ensures
        r is Some <==> token_ok(s@),
        r is Some ==> r->0 == integer_literal_value(s@),
{
    let n = s.unicode_len();
    let negative = n > 0 && s.get_char(0) == '-';
    let first_digit: usize = if negative {
        1
    } else {
        0
    };
    if n <= first_digit {
        return None;
    }
    let ghost d: Seq<char> = s@.subrange(first_digit as int, n as int);
    // The magnitude accumulates as a non-positive number, so that
    // `isize::MIN` parses.
    let mut acc: isize = 0;
    let mut i: usize = first_digit;
    while i < n
        invariant
            n == s@.len(),
            first_digit <= i <= n,
            n > first_digit,
            negative <==> (n > 0 && s@[0] == '-'),
            negative ==> first_digit == 1,
            !negative ==> first_digit == 0,
            d == s@.subrange(first_digit as int, n as int),
            forall|j: int| first_digit <= j < i ==> is_digit_char(#[trigger] s@[j]),
            acc <= 0,
            acc as int == -digits_value(d.subrange(0, i - first_digit)),
        decreases n - i,
    {
        let c = s.get_char(i);
        let u = c as u32;
        if u < ('0' as u32) || u > ('9' as u32) {
            return None;
        }
        let digit = (u - ('0' as u32)) as isize;
        let ghost k = i - first_digit;
        proof {
            assert(d.subrange(0, k + 1).drop_last() =~= d.subrange(0, k as int));
            assert(d.subrange(0, k + 1).last() == s@[i as int]);
        }
        let stepped = match acc.checked_mul(10) {
            Some(a) => a.checked_sub(digit),
            None => None,
        };
        acc = match stepped {
            Some(a) => a,
            None => {
                proof {
                    lemma_token_out_of_range(s@, d, k + 1, negative);
                }
                return None;
            },
        };
        i += 1;
    }
    proof {
        assert(d.subrange(0, n - first_digit) =~= d);
        if negative {
            assert(s@.skip(1) =~= d);
        } else {
            assert(s@.subrange(0, n as int) =~= s@);
        }
    }
    if negative {
        Some(acc)
    } else {
        if acc == isize::MIN {
            return None;
        }
        Some(-acc)
    }
}

/// When some prefix of the digit run already values past the machine
/// range, the whole token is out of range, whichever sign it carries.
proof fn lemma_token_out_of_range(s: Seq<char>, d: Seq<char>, k: int, negative: bool)
    requires
        s.len() > 0,
        negative <==> s[0] == '-',
        negative ==> d == s.subrange(1, s.len() as int),
        !negative ==> d == s.subrange(0, s.len() as int),
        0 <= k <= d.len(),
        digits_value(d.subrange(0, k)) > isize::MAX + 1,
    ensures
        !token_ok(s),
{
    if is_integer_literal(s) {
        assert forall|i: int| 0 <= i < d.len() implies is_digit_char(#[trigger] d[i]) by {
            if negative {
                assert(d[i] == s[i + 1]);
            } else {
                assert(d[i] == s[i]);
            }
        }
        lemma_digits_value_prefix_le(d, k);
        if negative {
            assert(s.skip(1) =~= d);
        } else {
            assert(s.subrange(0, s.len() as int) =~= s);
        }
    }
}

/// Which argument a resolution error is about.
#[derive(Clone, Copy, Debug, PartialEq, Eq, Structural)]
pub enum ArgName {
    Start,
    End,
    Difference,
    Terms,
}

/// An argument set that does not resolve into a progression.
#[derive(Clone, Copy, Debug, PartialEq, Eq, Structural)]
pub enum ResolveError {
    /// A supplied token is not a signed integer of the machine word;
    /// names the argument it was supplied for.
    MalformedInteger(ArgName),
    /// Both of `end` and `terms` were supplied, or neither was.
    AmbiguousTermination,
}

/// An optional argument's token resolves; an absent argument does too.
pub open spec fn given_token_ok(o: Option<&str>) -> bool {
    match o {
        Some(s) => token_ok(s@),
        None => true,
    }
}

/// Value of an optional argument's token, or the default when absent.
pub open spec fn given_value(o: Option<&str>, default: int) -> int {
    match o {
        Some(s) => integer_literal_value(s@),
        None => default,
    }
}

/// What resolution returns: the termination arguments must name exactly
/// one of an end value and a term count; every supplied token must be a
/// signed integer; the difference defaults to one. Checked in this
/// order: the termination pair, then the start, difference and
/// termination tokens.
pub open spec fn spec_resolve(
    start: &str,
    end: Option<&str>,
    terms: Option<&str>,
    difference: Option<&str>,
) -> Result<ProgressionSpec, ResolveError> {
    if (end is Some && terms is Some) || (end is None && terms is None) {
        Err(ResolveError::AmbiguousTermination)
    } else if !token_ok(start@) {
        Err(ResolveError::MalformedInteger(ArgName::Start))
    } else if !given_token_ok(difference) {
        Err(ResolveError::MalformedInteger(ArgName::Difference))
    } else if end is Some && !token_ok(end->0@) {
        Err(ResolveError::MalformedInteger(ArgName::End))
    } else if terms is Some && !token_ok(terms->0@) {
        Err(ResolveError::MalformedInteger(ArgName::Terms))
    } else {
        Ok(
            ProgressionSpec {
                start: integer_literal_value(start@) as isize,
                difference: given_value(difference, 1) as isize,
                termination: if end is Some {
                    Termination::EndValue(integer_literal_value(end->0@) as isize)
                } else {
                    Termination::TermCount(integer_literal_value(terms->0@) as isize)
                },
            },
        )
    }
}

/// Resolve raw argument tokens into a progression: a start token, at
/// most one of an end token and a term-count token, and an optional
/// difference token that defaults to one.
pub fn resolve(
    start: &str,
    end: Option<&str>,
    terms: Option<&str>,
    difference: Option<&str>,
) -> (r: Result<ProgressionSpec, ResolveError>)
    ensures
        r == spec_resolve(start, end, terms, difference),
{
    let has_end = end.is_some();
    let has_terms = terms.is_some();
    if has_end == has_terms {
        return Err(ResolveError::AmbiguousTermination);
    }
    let start_val = match parse_integer(start) {
        Some(v) => v,
        None => {
            return Err(ResolveError::MalformedInteger(ArgName::Start));
        },
    };
    let difference_val = match difference {
        Some(dtok) => match parse_integer(dtok) {
            Some(v) => v,
            None => {
                return Err(ResolveError::MalformedInteger(ArgName::Difference));
            },
        },
        None => 1,
    };
    let termination = match end {
        Some(etok) => match parse_integer(etok) {
            Some(v) => Termination::EndValue(v),
            None => {
                return Err(ResolveError::MalformedInteger(ArgName::End));
            },
        },
        None => match terms {
            Some(ttok) => match parse_integer(ttok) {
                Some(v) => Termination::TermCount(v),
                None => {
                    return Err(ResolveError::MalformedInteger(ArgName::Terms));
                },
            },
            None => unreached(),
        },
    };
    Ok(ProgressionSpec { start: start_val, difference: difference_val, termination })
}

} // verus!
