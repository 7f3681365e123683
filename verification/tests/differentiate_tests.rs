use differentiator::decimal::Dec;
use differentiator::differentiate::differentiate;
use differentiator::state_machine::Term;

fn dt(cm: i128, cs: u32, em: i128, es: u32) -> Term {
    Term {
        coefficient: Dec { mantissa: cm, scale: cs },
        exponent: Dec { mantissa: em, scale: es },
    }
}

#[test]
fn test_differentiation_vanilla_input() {
    assert_eq!(
        differentiate(&vec![dt(3, 0, -2, 0), dt(-2, 0, 1, 0), dt(-1, 0, 0, 0)]),
        vec![dt(-2, 0, 0, 0), dt(-6, 0, -3, 0)]
    );
}

#[test]
fn test_differentiation_negative_input() {
    // -3.83 * 2.5 = -9.575 exactly, and 2.5 - 1 = 1.5.
    assert_eq!(
        differentiate(&vec![dt(-383, 2, 25, 1)]),
        vec![dt(-9575, 3, 15, 1)]
    );
}

#[test]
fn test_differentiation_zero_coefficient() {
    assert_eq!(
        differentiate(&vec![dt(0, 0, 98, 0)]),
        vec![dt(0, 0, 0, 0)]
    );
}

#[test]
fn test_differentiation_zero_exponent() {
    assert_eq!(
        differentiate(&vec![dt(3, 0, 0, 0)]),
        vec![dt(0, 0, 0, 0)]
    );
}
