use arith_progression::progression::{
    evaluate, sum, term_count, InvalidSeries, ProgressionSpec, Termination,
};
use arith_progression::resolve::{is_integer, parse_integer, resolve, ArgName, ResolveError};

fn spec(start: isize, difference: isize, termination: Termination) -> ProgressionSpec {
    ProgressionSpec { start, difference, termination }
}

#[test]
fn term_count_reproduces_a_written_end() {
    // end written as start + difference * (terms - 1), then resolved back
    for &(start, difference, terms) in
        &[(3isize, 4isize, 5isize), (0, -2, 7), (-10, 3, 1), (5, -1, 11)]
    {
        let end = start + difference * (terms - 1);
        assert_eq!(term_count(start, end, difference), Ok(terms));
    }
}

#[test]
fn closed_form_matches_accumulation() {
    for &(start, difference, terms) in
        &[(2isize, 3isize, 4isize), (-5, 2, 9), (7, -3, 6), (0, 0, 5), (1, 1, 1)]
    {
        let mut by_hand: isize = 0;
        let mut k: isize = 0;
        while k < terms {
            by_hand += start + difference * k;
            k += 1;
        }
        assert_eq!(sum(start, difference, terms), by_hand);
    }
}

#[test]
fn zero_difference_same_end_sums_to_start() {
    for &start in &[4isize, -7, 0, 123] {
        let r = evaluate(spec(start, 0, Termination::EndValue(start)));
        assert_eq!(r, Ok(start));
    }
}

#[test]
fn zero_difference_other_end_is_invalid() {
    let r = evaluate(spec(4, 0, Termination::EndValue(5)));
    assert_eq!(r, Err(InvalidSeries));
    let r = evaluate(spec(-1, 0, Termination::EndValue(1)));
    assert_eq!(r, Err(InvalidSeries));
}

#[test]
fn unreachable_end_is_invalid() {
    assert_eq!(term_count(0, 5, 2), Err(InvalidSeries));
    assert_eq!(evaluate(spec(0, 2, Termination::EndValue(5))), Err(InvalidSeries));
}

#[test]
fn wrong_direction_is_invalid() {
    // the difference moves the start away from the end
    assert_eq!(term_count(10, 0, 1), Err(InvalidSeries));
    assert_eq!(evaluate(spec(10, 1, Termination::EndValue(0))), Err(InvalidSeries));
}

#[test]
fn one_to_ten() {
    assert_eq!(term_count(1, 10, 1), Ok(10));
    assert_eq!(sum(1, 1, 10), 55);
    assert_eq!(evaluate(spec(1, 1, Termination::EndValue(10))), Ok(55));
}

#[test]
fn three_terms_from_five_by_two() {
    assert_eq!(sum(5, 2, 3), 21);
    assert_eq!(evaluate(spec(5, 2, Termination::TermCount(3))), Ok(21));
}

#[test]
fn symmetric_progression_sums_to_zero() {
    assert_eq!(term_count(-3, 3, 3), Ok(3));
    assert_eq!(evaluate(spec(-3, 3, Termination::EndValue(3))), Ok(0));
}

#[test]
fn degenerate_shortcut() {
    assert_eq!(evaluate(spec(4, 0, Termination::EndValue(4))), Ok(4));
}

#[test]
fn indivisible_span_is_invalid() {
    assert_eq!(evaluate(spec(0, 3, Termination::EndValue(5))), Err(InvalidSeries));
}

#[test]
fn nonpositive_term_count_uses_the_closed_form() {
    // a supplied term count is not checked for positivity
    assert_eq!(evaluate(spec(5, 2, Termination::TermCount(0))), Ok(0));
    assert_eq!(evaluate(spec(5, 2, Termination::TermCount(-3))), Ok(-3));
}

#[test]
fn negative_difference_runs_downward() {
    assert_eq!(term_count(9, 1, -2), Ok(5));
    assert_eq!(evaluate(spec(9, -2, Termination::EndValue(1))), Ok(25));
}

#[test]
fn is_integer_accepts_integer_forms() {
    assert!(is_integer(String::from("0")).is_ok());
    assert!(is_integer(String::from("-42")).is_ok());
    assert!(is_integer(String::from("007")).is_ok());
    assert!(is_integer(String::from("99999999999999999999999")).is_ok());
}

#[test]
fn is_integer_rejects_other_forms() {
    for bad in ["", "-", "abc", "1.5", "+3", "12x", "--4", " 7", "4 "] {
        let r = is_integer(String::from(bad));
        assert_eq!(r, Err(String::from("All arguments that take values must be integers.")));
    }
}

#[test]
fn parse_integer_values() {
    assert_eq!(parse_integer("0"), Some(0));
    assert_eq!(parse_integer("-0"), Some(0));
    assert_eq!(parse_integer("007"), Some(7));
    assert_eq!(parse_integer("-42"), Some(-42));
    assert_eq!(parse_integer("9223372036854775807"), Some(isize::MAX));
    assert_eq!(parse_integer("-9223372036854775808"), Some(isize::MIN));
}

#[test]
fn parse_integer_rejects() {
    assert_eq!(parse_integer(""), None);
    assert_eq!(parse_integer("-"), None);
    assert_eq!(parse_integer("abc"), None);
    assert_eq!(parse_integer("9223372036854775808"), None);
    assert_eq!(parse_integer("-9223372036854775809"), None);
    assert_eq!(parse_integer("99999999999999999999999"), None);
}

#[test]
fn resolve_builds_the_progression() {
    let r = resolve("1", Some("10"), None, None);
    assert_eq!(r, Ok(spec(1, 1, Termination::EndValue(10))));
    let r = resolve("5", None, Some("3"), Some("2"));
    assert_eq!(r, Ok(spec(5, 2, Termination::TermCount(3))));
    let r = resolve("-3", Some("3"), None, Some("3"));
    assert_eq!(r, Ok(spec(-3, 3, Termination::EndValue(3))));
}

#[test]
fn resolve_demands_exactly_one_termination() {
    let r = resolve("1", Some("10"), Some("10"), None);
    assert_eq!(r, Err(ResolveError::AmbiguousTermination));
    let r = resolve("1", None, None, None);
    assert_eq!(r, Err(ResolveError::AmbiguousTermination));
}

#[test]
fn resolve_names_the_malformed_argument() {
    assert_eq!(
        resolve("abc", Some("10"), None, None),
        Err(ResolveError::MalformedInteger(ArgName::Start))
    );
    assert_eq!(
        resolve("1", Some("x"), None, None),
        Err(ResolveError::MalformedInteger(ArgName::End))
    );
    assert_eq!(
        resolve("1", None, Some("x"), None),
        Err(ResolveError::MalformedInteger(ArgName::Terms))
    );
    assert_eq!(
        resolve("1", Some("10"), None, Some("x")),
        Err(ResolveError::MalformedInteger(ArgName::Difference))
    );
}

#[test]
fn resolved_progressions_evaluate() {
    let p = resolve("1", Some("10"), None, None).unwrap();
    assert_eq!(evaluate(p), Ok(55));
    let p = resolve("5", None, Some("3"), Some("2")).unwrap();
    assert_eq!(evaluate(p), Ok(21));
    let p = resolve("-3", Some("3"), None, Some("3")).unwrap();
    assert_eq!(evaluate(p), Ok(0));
    let p = resolve("0", Some("5"), None, Some("3")).unwrap();
    assert_eq!(evaluate(p), Err(InvalidSeries));
}

#[test]
fn invalid_series_message() {
    assert_eq!(
        InvalidSeries.message(),
        String::from("The arguments provided do not form a valid series.")
    );
}
