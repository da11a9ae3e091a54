use rfyl::match_token;
use rfyl::parse_into_infix;
use rfyl::parse_into_rpn;
use rfyl::roll;
use rfyl::solve_rpn_formula;
use rfyl::EvalError;
use rfyl::RenderError;
use rfyl::RollError;

#[test]
fn classification_table() {
    assert_eq!(match_token("/"), 4);
    assert_eq!(match_token("÷"), 4);
    assert_eq!(match_token("*"), 3);
    assert_eq!(match_token("×"), 3);
    assert_eq!(match_token("+"), 2);
    assert_eq!(match_token("-"), 1);
    assert_eq!(match_token("−"), 1);
    assert_eq!(match_token("("), -1);
    assert_eq!(match_token(")"), -2);
    assert_eq!(match_token("%"), -3);
}

#[test]
fn classification_of_unknown_symbols_is_zero() {
    assert_eq!(match_token("q"), 0);
    assert_eq!(match_token("5"), 0);
    assert_eq!(match_token("d"), 0);
    assert_eq!(match_token(""), 0);
    assert_eq!(match_token("2d6"), 0);
    assert_eq!(match_token("++"), 0);
}

#[test]
fn rounding_divides_half_away_from_zero() {
    // 10 / 4 = 2.5 rounds away from zero to 3
    assert_eq!(
        3,
        solve_rpn_formula(vec!["10".to_string(), "4".to_string(), "/".to_string()]).unwrap()
    );
    // 9 / 4 = 2.25 rounds to 2
    assert_eq!(
        2,
        solve_rpn_formula(vec!["9".to_string(), "4".to_string(), "/".to_string()]).unwrap()
    );
    // -10 / 4 = -2.5 rounds away from zero to -3
    assert_eq!(
        -3,
        solve_rpn_formula(vec!["-10".to_string(), "4".to_string(), "/".to_string()]).unwrap()
    );
}

#[test]
fn divide_by_zero_fails() {
    assert_eq!(
        Err(EvalError::DivideByZero),
        solve_rpn_formula(vec!["1".to_string(), "0".to_string(), "/".to_string()])
    );
}

#[test]
fn evaluation_error_variants() {
    assert_eq!(
        Err(EvalError::MissingOperand),
        solve_rpn_formula(vec!["+".to_string()])
    );
    assert_eq!(
        Err(EvalError::InvalidOperator),
        solve_rpn_formula(vec!["1".to_string(), "2".to_string(), "abc".to_string()])
    );
    assert_eq!(
        Err(EvalError::NumericOverflow),
        solve_rpn_formula(vec![
            "2147483647".to_string(),
            "1".to_string(),
            "+".to_string()
        ])
    );
    assert_eq!(Ok(0), solve_rpn_formula(vec![]));
    assert_eq!(Ok(-7), solve_rpn_formula(vec!["-7".to_string()]));
}

#[test]
fn render_error_variants() {
    assert_eq!(
        Err(RenderError::InsufficientOperands),
        parse_into_infix(vec!["+".to_string()])
    );
    assert_eq!(
        Err(RenderError::TooManyValues),
        parse_into_infix(vec!["1".to_string(), "2".to_string()])
    );
    assert_eq!(Err(RenderError::NotEnoughValues), parse_into_infix(vec![]));
}

#[test]
fn roll_error_variants() {
    assert_eq!(
        Err(RollError::InvalidDiceCount),
        roll("xd6".to_string()).map(|_| ())
    );
    assert_eq!(
        Err(RollError::InvalidDiceSides),
        roll("2dx".to_string()).map(|_| ())
    );
    assert_eq!(
        Err(RollError::InvalidDiceSides),
        roll("2d0".to_string()).map(|_| ())
    );
    assert_eq!(
        Err(RollError::InvalidDiceCount),
        roll("0d6".to_string()).map(|_| ())
    );
    assert_eq!(
        Err(RollError::NumericOverflow),
        roll("2000000000 + 2000000000".to_string()).map(|_| ())
    );
}

#[test]
fn dice_outcomes_stay_in_range() {
    let rolled = roll("3d6".to_string()).unwrap();
    let outcomes = rolled.get_rolls();
    assert_eq!(outcomes.len(), 3);
    let mut sum = 0;
    for o in &outcomes {
        assert_eq!(o.get_sides(), 6);
        assert!(o.get_result() >= 1 && o.get_result() <= 6);
        sum += o.get_result();
    }
    assert_eq!(sum, rolled.get_sum_of_rolls());
    // the numeric postfix formula holds exactly the summed operand
    assert_eq!(format!("[{}]", sum), rolled.get_formula_string_as_rpn());
}

#[test]
fn percent_marker_means_hundred_sides() {
    let rolled = roll("d%".to_string()).unwrap();
    let outcomes = rolled.get_rolls();
    assert_eq!(outcomes.len(), 1);
    assert_eq!(outcomes[0].get_sides(), 100);
    assert!(outcomes[0].get_result() >= 1 && outcomes[0].get_result() <= 100);
}

#[test]
fn literal_formula_evaluates_exactly() {
    let rolled = roll("(2 - 1) * 3 + 4".to_string()).unwrap();
    assert_eq!(rolled.get_result().unwrap(), 7);
    assert_eq!(rolled.get_formula_string_as_rpn(), "[2] [1] - [3] * [4] + ");
    assert_eq!(
        rolled.get_formula_string_as_infix().unwrap(),
        "[[[2 - 1] * 3] + 4]"
    );
    assert_eq!(rolled.get_rolls_string(), "d0 -> [2], d0 -> [1], d0 -> [3], d0 -> [4]");
}

#[test]
fn whitespace_and_underscores_are_removed() {
    let rolled = roll("  2 + 3\n".to_string()).unwrap();
    assert_eq!(rolled.get_result().unwrap(), 5);
    assert_eq!(vec!["25", "3", "+"], parse_into_rpn("2_5 + 3"));
    assert_eq!(vec!["2", "3", "+"], parse_into_rpn("2\t+\n3"));
}

#[test]
fn empty_formula_yields_zero() {
    let rolled = roll("".to_string()).unwrap();
    assert_eq!(rolled.get_result().unwrap(), 0);
    assert_eq!(rolled.get_rolls_string(), "");
    assert_eq!(rolled.get_formula_string_as_rpn(), "");
    assert_eq!(
        rolled.get_formula_string_as_infix(),
        Err(RenderError::NotEnoughValues)
    );
}

#[test]
fn rendered_infix_reparses_to_same_postfix() {
    for formula in ["3 + 4", "3 + 4 × (2 − 1)", "(2 − 1) × 3 + 4", "2d4 + d6 + d4"] {
        let postfix = parse_into_rpn(formula);
        let rendered = parse_into_infix(postfix.clone()).unwrap();
        assert_eq!(postfix, parse_into_rpn(&rendered));
    }
}

#[test]
fn notation_formula_keeps_original_fragments() {
    let rolled = roll("2d4 + 7".to_string()).unwrap();
    assert_eq!(rolled.get_rolls_formula_string_as_rpn(), "[2d4] [7] + ");
    assert_eq!(
        rolled.get_rolls_formula_string_as_infix().unwrap(),
        "[2d4 + 7]"
    );
    let outcomes = rolled.get_rolls();
    assert_eq!(outcomes.len(), 3);
    assert_eq!(outcomes[2].get_sides(), 0);
    assert_eq!(outcomes[2].get_result(), 7);
}
