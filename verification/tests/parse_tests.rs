use differentiator::decimal::Dec;
use differentiator::state_machine::{ParseError, State, StateMachine, Term};

fn pt(cm: i128, cs: u32, em: i128, es: u32) -> Term {
    Term {
        coefficient: Dec { mantissa: cm, scale: cs },
        exponent: Dec { mantissa: em, scale: es },
    }
}

#[test]
fn test_parse_vanilla_input() {
    let mut state_machine = StateMachine::new();
    let vanilla_input = "-3x^2 + 4x^1.5 + 7x^6 + 8.9\n";
    state_machine.parse_input(&vanilla_input).unwrap();
    assert_eq!(
        state_machine.terms,
        vec![pt(-3, 0, 2, 0), pt(4, 0, 15, 1), pt(7, 0, 6, 0), pt(89, 1, 0, 0)]
    );
}

#[test]
fn test_parse_negative_input() {
    let mut state_machine = StateMachine::new();
    let negative_input = "-3.83x^2.9\n";
    state_machine.parse_input(&negative_input).unwrap();
    assert_eq!(state_machine.terms, vec![pt(-383, 2, 29, 1)]);
}

#[test]
fn test_parse_incomplete_term_input() {
    // A bare `x` without `^exponent` is outside the grammar, and a trailing
    // sign with no term after it is a hard error, so this input fails.
    let mut state_machine = StateMachine::new();
    let incomplete_term_input = "3x^2 + 2x +\n";
    let r = state_machine.parse_input(&incomplete_term_input);
    assert!(matches!(
        r,
        Err(ParseError::InvalidCharacter { state: State::ParseCaret, found: '+' })
    ));
}

#[test]
fn test_parse_invalid_var_input() {
    let mut state_machine = StateMachine::new();
    let invalid_var_input = "3y^2 + 2y^1\n";
    assert!(state_machine.parse_input(&invalid_var_input).is_err());
}

#[test]
fn test_parse_invalid_char_input() {
    let mut state_machine = StateMachine::new();
    let invalid_char_input = "2*x\n";
    assert!(state_machine.parse_input(&invalid_char_input).is_err());
}

#[test]
fn test_parse_missing_term_input() {
    let mut state_machine = StateMachine::new();
    let missing_term_input = "6 ++ x^2\n";
    assert!(state_machine.parse_input(&missing_term_input).is_err());
}

#[test]
fn test_parse_invalid_coefficient_input() {
    let mut state_machine = StateMachine::new();
    let invalid_coefficient_input = "3x^2 + 2x 1\n";
    assert!(state_machine.parse_input(&invalid_coefficient_input).is_err());
}
