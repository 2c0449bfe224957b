use vstd::prelude::*;
use vstd::arithmetic::div_mod::{
    lemma_fundamental_div_mod, lemma_div_multiples_vanish, lemma_mod_multiples_basic,
};
use vstd::arithmetic::mul::{lemma_mul_unary_negation, lemma_mul_cancels_negatives};

verus! {

/// Error returned when a start/end/difference triple cannot form a
/// finite arithmetic progression.
#[derive(Clone, Copy, Debug, PartialEq, Eq, Structural)]
pub struct InvalidSeries;

impl InvalidSeries {
    /// The one-line report for this error.
    pub fn message(&self) -> (r: String)
        ensures
            r@ == "The arguments provided do not form a valid series."@,
    {
        "The arguments provided do not form a valid series.".to_owned()
    }
}

/// How the length of a progression is given: by the value of its last
/// term, or by the number of terms directly.
#[derive(Clone, Copy, Debug, PartialEq, Eq, Structural)]
pub enum Termination {
    EndValue(isize),
    TermCount(isize),
}

/// A progression as resolved from the arguments: a starting value, a
/// common difference, and exactly one way of ending.
#[derive(Clone, Copy, Debug, PartialEq, Eq, Structural)]
pub struct ProgressionSpec {
    pub start: isize,
    pub difference: isize,
    pub termination: Termination,
}

/// Closed-form sum of an arithmetic progression:
/// `terms * start + difference * (terms - 1) * terms / 2`.
/// The division is exact because `(terms - 1) * terms` is always even.
pub open spec fn ap_sum(start: int, difference: int, terms: int) -> int {
    terms * start + difference * (terms - 1) * terms / 2
}

/// The intermediate values of the closed-form sum all fit in `isize`,
/// in the order the executable computation forms them.
pub open spec fn sum_fits(start: int, difference: int, terms: int) -> bool {
    &&& isize::MIN <= terms - 1
    &&& isize::MIN <= terms * start <= isize::MAX
    &&& isize::MIN <= difference * (terms - 1) <= isize::MAX
    &&& isize::MIN <= difference * (terms - 1) * terms <= isize::MAX
    &&& isize::MIN <= ap_sum(start, difference, terms) <= isize::MAX
}

/// Term count of the progression that steps from `start` to `end` by
/// `difference`: the number of steps plus one for the starting term.
/// Meaningful when `difference` is nonzero and divides `end - start`.
pub open spec fn derived_terms(start: int, end: int, difference: int) -> int {
    (end - start) / difference + 1
}

/// Whether a start/end/difference triple forms a finite arithmetic
/// progression: a zero difference requires `end == start` (the single-term
/// sequence), and a nonzero difference must divide `end - start` exactly
/// and point from `start` toward `end`.
pub open spec fn feasible(start: int, end: int, difference: int) -> bool {
    if difference == 0 {
        end == start
    } else {
        &&& (end - start) % difference == 0
        &&& derived_terms(start, end, difference) >= 1
    }
}

/// The intermediate values of the term-count derivation fit in `isize`,
/// in the order the executable computation forms them.
pub open spec fn term_count_fits(start: int, end: int, difference: int) -> bool {
    &&& isize::MIN <= end - start <= isize::MAX
    &&& !(end - start == isize::MIN && difference == -1)
    &&& (difference != 0 && (end - start) % difference == 0) ==> derived_terms(
        start,
        end,
        difference,
    ) <= isize::MAX
}

/// Euclidean division of an exact multiple recovers the factor, for any
/// nonzero divisor.
proof fn lemma_exact_div(q: int, d: int)
    requires
        d != 0,
    ensures
        (d * q) / d == q,
{
    if d > 0 {
        lemma_div_multiples_vanish(q, d);
    } else {
        assert((d * q) / d == q) by (nonlinear_arith)
            requires
                d < 0,
        ;
    }
}

/// An exact multiple of a nonzero divisor leaves no remainder.
proof fn lemma_multiple_mod_zero(k: int, c: int)
    requires
        c != 0,
    ensures
        (c * k) % c == 0,
{
    lemma_exact_div(k, c);
    lemma_fundamental_div_mod(c * k, c);
}

/// Negating the dividend or the divisor of an exact multiple keeps
/// it an exact multiple.
proof fn lemma_mod_zero_flip_fwd(x: int, d: int)
    requires
        d != 0,
    ensures
        x % d == 0 ==> (-x) % d == 0,
        x % d == 0 ==> x % (-d) == 0,
        x % d == 0 ==> (-x) % (-d) == 0,
{
    if x % d == 0 {
        let q = x / d;
        lemma_fundamental_div_mod(x, d);
        lemma_mul_unary_negation(d, q);
        lemma_mul_cancels_negatives(d, q);
        lemma_multiple_mod_zero(-q, d);
        lemma_multiple_mod_zero(-q, -d);
        lemma_multiple_mod_zero(q, -d);
    }
}

/// Divisibility is unchanged by negating the dividend or the divisor.
proof fn lemma_mod_zero_flip(x: int, d: int)
    requires
        d != 0,
    ensures
        (x % d == 0) <==> ((-x) % d == 0),
        (x % d == 0) <==> (x % (-d) == 0),
        (x % d == 0) <==> ((-x) % (-d) == 0),
{
    lemma_mod_zero_flip_fwd(x, d);
    lemma_mod_zero_flip_fwd(-x, d);
    lemma_mod_zero_flip_fwd(x, -d);
    lemma_mod_zero_flip_fwd(-x, -d);
}

/// Quotients of an exact multiple under negated dividend or divisor.
proof fn lemma_exact_div_flip(x: int, d: int)
    requires
        d != 0,
    ensures
        x % d == 0 ==> (-x) / d == -(x / d),
        x % d == 0 ==> x / (-d) == -(x / d),
        x % d == 0 ==> (-x) / (-d) == x / d,
{
    if x % d == 0 {
        let q = x / d;
        lemma_fundamental_div_mod(x, d);
        lemma_mul_unary_negation(d, q);
        lemma_mul_cancels_negatives(d, q);
        lemma_exact_div(-q, d);
        lemma_exact_div(-q, -d);
        lemma_exact_div(q, -d);
    }
}

/// The product of two consecutive integers is even.
proof fn lemma_consecutive_product_even(t: int)
    ensures
        ((t - 1) * t) % 2 == 0,
{
    lemma_fundamental_div_mod(t, 2);
    let k = t / 2;
    if t % 2 == 0 {
        assert((t - 1) * t == (t - 1) * k * 2) by (nonlinear_arith)
            requires t == 2 * k;
        lemma_mod_multiples_basic((t - 1) * k, 2);
    } else {
        assert((t - 1) * t == t * k * 2) by (nonlinear_arith)
            requires t - 1 == 2 * k;
        lemma_mod_multiples_basic(t * k, 2);
    }
}

/// A multiple of an even number is even.
proof fn lemma_even_mul_left(a: int, b: int)
    requires
        b % 2 == 0,
    ensures
        (a * b) % 2 == 0,
{
    lemma_fundamental_div_mod(b, 2);
    let k = b / 2;
    assert(a * b == a * k * 2) by (nonlinear_arith)
        requires b == 2 * k;
    lemma_mod_multiples_basic(a * k, 2);
}

/// Number of terms in the progression that runs from `start` to `end`
/// stepping by `difference`. A zero difference is always rejected here:
/// the caller handles the single-term progression with `end == start`
/// before deriving a term count.
pub fn term_count(start: isize, end: isize, difference: isize) -> (r: Result<isize, InvalidSeries>)
    requires
        term_count_fits(start as int, end as int, difference as int),
    ensures
        r is Ok <==> difference != 0 && feasible(start as int, end as int, difference as int),
        r is Ok ==> r->Ok_0 == derived_terms(start as int, end as int, difference as int),
        r is Err ==> r == Err::<isize, InvalidSeries>(InvalidSeries),
        difference == 0 ==> r is Err,
        difference != 0 && (end - start) % (difference as int) != 0 ==> r is Err,
        difference != 0 && (end - start) % (difference as int) == 0 && derived_terms(
            start as int,
            end as int,
            difference as int,
        ) < 1 ==> r is Err,
{
    if difference == 0 {
        return Err(InvalidSeries);
    }
    let span = end - start;
    proof {
        let x = span as int;
        let d = difference as int;
        lemma_mod_zero_flip(x, d);
        lemma_exact_div_flip(x, d);
        if x % d == 0 {
            let q = x / d;
            lemma_fundamental_div_mod(x, d);
            let mn = isize::MIN as int;
            let mx = isize::MAX as int;
            assert(mn <= q <= mx) by (nonlinear_arith)
                requires
                    d != 0,
                    x == d * q,
                    mn <= x <= mx,
                    q + 1 <= mx,
                    mn == -mx - 1,
                    mx >= 1,
            ;
        }
    }
    if span % difference != 0 {
        return Err(InvalidSeries);
    }
    let terms = span / difference + 1;
    if terms > 0 {
        Ok(terms)
    } else {
        Err(InvalidSeries)
    }
}

/// Sum of the arithmetic progression with the given start, common
/// difference and term count, by the closed form.
pub fn sum(start: isize, difference: isize, terms: isize) -> (r: isize)
    requires
        sum_fits(start as int, difference as int, terms as int),
    ensures
        r == ap_sum(start as int, difference as int, terms as int),
{
    let p = difference * (terms - 1) * (terms);
    proof {
        let pi = p as int;
        lemma_consecutive_product_even(terms as int);
        assert(pi == (difference as int) * ((terms - 1) * (terms as int))) by (nonlinear_arith)
            requires pi == (difference as int) * (terms as int - 1) * (terms as int);
        lemma_even_mul_left(difference as int, (terms as int - 1) * (terms as int));
        lemma_fundamental_div_mod(pi, 2);
        let k = pi / 2;
        if pi < 0 {
            lemma_div_multiples_vanish(-k, 2);
            assert((-pi) / 2 == -k);
        }
    }
    let half = p / 2;
    assert(half == p as int / 2);
    (terms * start) + half
}

/// The arithmetic done on the way from a `ProgressionSpec` to its sum
/// stays within `isize`, along the path the evaluation actually takes.
pub open spec fn evaluate_fits(p: ProgressionSpec) -> bool {
    match p.termination {
        Termination::TermCount(t) => sum_fits(p.start as int, p.difference as int, t as int),
        Termination::EndValue(end) => if p.difference == 0 && end == p.start {
            true
        } else {
            &&& term_count_fits(p.start as int, end as int, p.difference as int)
            &&& (p.difference != 0 && feasible(p.start as int, end as int, p.difference as int)
                ==> sum_fits(
                p.start as int,
                p.difference as int,
                derived_terms(p.start as int, end as int, p.difference as int),
            ))
        },
    }
}

/// Sum of the progression described by `p`, or `InvalidSeries` when the
/// triple is infeasible. A given term count is used as is, even when it
/// is not positive; an end value equal to the start with a zero
/// difference is the single-term progression, whose sum is the start.
pub fn evaluate(p: ProgressionSpec) -> (r: Result<isize, InvalidSeries>)
    requires
        evaluate_fits(p),
    ensures
        p.termination matches Termination::TermCount(t) ==> r is Ok && r->Ok_0 == ap_sum(
            p.start as int,
            p.difference as int,
            t as int,
        ),
        p.termination matches Termination::EndValue(end) ==> (r is Ok <==> feasible(
            p.start as int,
            end as int,
            p.difference as int,
        )),
        p.termination matches Termination::EndValue(end) ==> (p.difference == 0 && end == p.start
            ==> r == Ok::<isize, InvalidSeries>(p.start)),
        p.termination matches Termination::EndValue(end) ==> (p.difference != 0 && feasible(
            p.start as int,
            end as int,
            p.difference as int,
        ) ==> r is Ok && r->Ok_0 == ap_sum(
            p.start as int,
            p.difference as int,
            derived_terms(p.start as int, end as int, p.difference as int),
        )),
        p.termination matches Termination::EndValue(end) ==> (!feasible(
            p.start as int,
            end as int,
            p.difference as int,
        ) ==> r == Err::<isize, InvalidSeries>(InvalidSeries)),
{
    match p.termination {
        Termination::EndValue(end) => {
            if p.difference == 0 && end == p.start {
                Ok(p.start)
            } else {
                match term_count(p.start, end, p.difference) {
                    Ok(terms) => Ok(sum(p.start, p.difference, terms)),
                    Err(e) => Err(e),
                }
            }
        },
        Termination::TermCount(t) => Ok(sum(p.start, p.difference, t)),
    }
}

/// Writing out the last term of a progression and resolving the triple
/// back recovers the term count: for any start, any nonzero difference
/// and any `terms >= 1`, the triple
/// `(start, start + difference * (terms - 1), difference)` is feasible
/// and derives exactly `terms`.
pub proof fn lemma_term_count_round_trip(start: int, difference: int, terms: int)
    requires
        difference != 0,
        terms >= 1,
    ensures
        feasible(start, start + difference * (terms - 1), difference),
        derived_terms(start, start + difference * (terms - 1), difference) == terms,
{
    lemma_multiple_mod_zero(terms - 1, difference);
    lemma_exact_div(terms - 1, difference);
}

/// Sum of the progression by direct accumulation of its terms, last
/// term first.
pub open spec fn ap_sum_accum(start: int, difference: int, terms: int) -> int
    decreases terms,
{
    if terms <= 0 {
        0
    } else {
        ap_sum_accum(start, difference, terms - 1) + (start + difference * (terms - 1))
    }
}

/// Halving distributes over adding twice an integer to an even number.
proof fn lemma_half_of_even_plus(b: int, c: int)
    requires
        b % 2 == 0,
    ensures
        (b + 2 * c) / 2 == b / 2 + c,
{
    lemma_fundamental_div_mod(b, 2);
    let m = b / 2;
    lemma_div_multiples_vanish(m + c, 2);
    assert(b + 2 * c == 2 * (m + c));
}

/// The closed-form sum equals the term-by-term accumulation, for any
/// nonnegative term count.
pub proof fn lemma_sum_closed_form(start: int, difference: int, terms: int)
    requires
        terms >= 0,
    ensures
        ap_sum(start, difference, terms) == ap_sum_accum(start, difference, terms),
    decreases terms,
{
    if terms > 0 {
        lemma_sum_closed_form(start, difference, terms - 1);
        let prev = difference * (terms - 2) * (terms - 1);
        assert(terms * start == (terms - 1) * start + start && difference * (terms - 1) * terms
            == prev + 2 * (difference * (terms - 1)) && prev == difference * ((terms - 2) * (terms
            - 1))) by (nonlinear_arith)
            requires
                prev == difference * (terms - 2) * (terms - 1),
        ;
        lemma_consecutive_product_even(terms - 1);
        lemma_even_mul_left(difference, (terms - 2) * (terms - 1));
        lemma_half_of_even_plus(prev, difference * (terms - 1));
        assert((prev + 2 * (difference * (terms - 1))) / 2 == prev / 2 + difference * (terms - 1));
        assert(difference * (terms - 1) * terms / 2 == prev / 2 + difference * (terms - 1));
        assert(ap_sum(start, difference, terms - 1) == (terms - 1) * start + prev / 2);
        assert(ap_sum(start, difference, terms) == ap_sum(start, difference, terms - 1) + start
            + difference * (terms - 1));
    } else {
        assert(ap_sum(start, difference, 0) == 0);
    }
}

} // verus!
