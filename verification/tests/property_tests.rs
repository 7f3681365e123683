use differentiator::decimal::Dec;
use differentiator::differentiate::differentiate;
use differentiator::state_machine::{parse, NumberField, ParseError, State, Term};

fn tm(cm: i128, cs: u32, em: i128, es: u32) -> Term {
    Term {
        coefficient: Dec { mantissa: cm, scale: cs },
        exponent: Dec { mantissa: em, scale: es },
    }
}

fn dec_text(d: &Dec) -> String {
    let neg = d.mantissa < 0;
    let mut digits = if neg {
        (-d.mantissa).to_string()
    } else {
        d.mantissa.to_string()
    };
    let s = d.scale as usize;
    if s > 0 {
        while digits.len() <= s {
            digits.insert(0, '0');
        }
        let at = digits.len() - s;
        digits.insert(at, '.');
    }
    if neg {
        format!("-{}", digits)
    } else {
        digits
    }
}

fn render_terms(terms: &Vec<Term>) -> String {
    let mut fragments: Vec<String> = Vec::new();
    for t in terms {
        fragments.push(format!(
            "{}x^{}",
            dec_text(&t.coefficient),
            dec_text(&t.exponent)
        ));
    }
    fragments.join(" + ")
}

#[test]
fn test_like_term_merge() {
    // d/dx (3x^2 + 2x + 1) = 6x + 2: the constant drops, the rest merge
    // and sort by descending exponent.
    assert_eq!(
        differentiate(&vec![tm(3, 0, 2, 0), tm(2, 0, 1, 0), tm(1, 0, 0, 0)]),
        vec![tm(6, 0, 1, 0), tm(2, 0, 0, 0)]
    );
}

#[test]
fn test_merge_of_equal_exponents() {
    // 4x^3 and 0.5x^3 differentiate to like terms, merged into one.
    assert_eq!(
        differentiate(&vec![tm(4, 0, 3, 0), tm(5, 1, 3, 0)]),
        vec![tm(135, 1, 2, 0)]
    );
}

#[test]
fn test_zero_sum_of_like_terms_is_kept() {
    // x^2 and -x^2 give derivative terms 2x and -2x: they merge to a zero
    // coefficient at exponent 1, which stays as a term.
    assert_eq!(
        differentiate(&vec![tm(1, 0, 2, 0), tm(-1, 0, 2, 0)]),
        vec![tm(0, 0, 1, 0)]
    );
}

#[test]
fn test_power_rule_single_term() {
    assert_eq!(
        differentiate(&vec![tm(5, 0, 3, 0)]),
        vec![tm(15, 0, 2, 0)]
    );
}

#[test]
fn test_constant_vanishing_mixed() {
    // Only constants and zero-coefficient terms: the derivative is the
    // canonical zero term.
    assert_eq!(
        differentiate(&vec![tm(7, 0, 0, 0), tm(0, 0, 98, 0), tm(-25, 1, 0, 0)]),
        vec![tm(0, 0, 0, 0)]
    );
}

#[test]
fn test_empty_polynomial_differentiates_to_zero() {
    assert_eq!(differentiate(&vec![]), vec![tm(0, 0, 0, 0)]);
}

#[test]
fn test_ordering_invariant_concrete() {
    // Input out of order; output exponents strictly decrease.
    let out = differentiate(&vec![tm(1, 0, 1, 0), tm(1, 0, 3, 0), tm(1, 0, 2, 0)]);
    assert_eq!(out, vec![tm(3, 0, 2, 0), tm(2, 0, 1, 0), tm(1, 0, 0, 0)]);
    for w in out.windows(2) {
        assert!(w[1].exponent.mantissa < w[0].exponent.mantissa);
    }
}

#[test]
fn test_fractional_exponent_pipeline() {
    // parse("-3.83x^2.9") yields [(-3.83, 2.9)]; the power rule gives
    // exactly (-3.83 * 2.9) x^(2.9 - 1) = -11.107x^1.9.
    let terms = parse("-3.83x^2.9").unwrap();
    assert_eq!(terms, vec![tm(-383, 2, 29, 1)]);
    let out = differentiate(&terms);
    assert_eq!(out, vec![tm(-11107, 3, 19, 1)]);
}

#[test]
fn test_round_trip_shape() {
    // Rendering the parsed terms and parsing again reproduces them.
    let first = parse("3x^2 + 2x^1 + 0.5x^0.5").unwrap();
    let rendered = render_terms(&first);
    let second = parse(&rendered).unwrap();
    assert_eq!(first, second);
}

#[test]
fn test_round_trip_negative_term() {
    let first = parse("-3.83x^2.9").unwrap();
    let rendered = render_terms(&first);
    assert_eq!(rendered, "-3.83x^2.9");
    let second = parse(&rendered).unwrap();
    assert_eq!(first, second);
}

#[test]
fn test_invalid_char_error_names_state_and_char() {
    let r = parse("2*x");
    assert!(matches!(
        r,
        Err(ParseError::InvalidCharacter { state: State::ParseCoefficient, found: '*' })
    ));
}

#[test]
fn test_malformed_coefficient_error() {
    let r = parse("6 ++ x^2");
    match r {
        Err(ParseError::MalformedNumber { field: NumberField::Coefficient, text }) => {
            assert_eq!(text, vec!['6', '+', '+']);
        }
        _ => panic!("expected a malformed coefficient"),
    }
}

#[test]
fn test_trailing_sign_is_an_error() {
    assert!(matches!(
        parse("3x^2 +"),
        Err(ParseError::MalformedNumber { field: NumberField::Coefficient, .. })
    ));
    assert!(matches!(
        parse("3x^2 -"),
        Err(ParseError::MalformedNumber { field: NumberField::Coefficient, .. })
    ));
}

#[test]
fn test_bare_x_at_end_of_input() {
    assert!(matches!(
        parse("2x"),
        Err(ParseError::UnexpectedEnd { state: State::ParseCaret })
    ));
}

#[test]
fn test_empty_exponent_is_malformed() {
    assert!(matches!(
        parse("3x^\n"),
        Err(ParseError::MalformedNumber { field: NumberField::Exponent, .. })
    ));
}

#[test]
fn test_digit_budget() {
    // Eight digits of number text are accepted; nine are rejected.
    assert_eq!(parse("12345678").unwrap(), vec![tm(12345678, 0, 0, 0)]);
    assert!(matches!(
        parse("123456789"),
        Err(ParseError::MalformedNumber { field: NumberField::Coefficient, .. })
    ));
}

#[test]
fn test_empty_input_parses_to_no_terms() {
    assert_eq!(parse("").unwrap(), vec![]);
}

#[test]
fn test_scales_are_preserved_by_parsing() {
    // "1.50" stays at scale 2; it still merges with values written at
    // other scales, because merging compares values, not representations.
    assert_eq!(
        parse("1.50x^2 + 0.5x^2.0").unwrap(),
        vec![tm(150, 2, 2, 0), tm(5, 1, 20, 1)]
    );
    assert_eq!(
        differentiate(&parse("1.50x^2 + 0.5x^2.0").unwrap()),
        vec![tm(400, 2, 1, 0)]
    );
}
