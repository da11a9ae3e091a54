use rfyl::parse_into_infix;
use rfyl::parse_into_rpn;
use rfyl::roll;
use rfyl::solve_rpn_formula;

#[test]
fn parse_rpn_formula() {
    assert_eq!(vec!["3", "4", "+"], parse_into_rpn("3 + 4"));
    assert_eq!(
        vec!["3", "4", "2", "1", "−", "×", "+"],
        parse_into_rpn("3 + 4 × (2 − 1)")
    );
    assert_eq!(
        vec!["2", "1", "−", "3", "×", "4", "+"],
        parse_into_rpn("(2 − 1) × 3 + 4")
    );
    assert_eq!(vec!["x", "y", "+"], parse_into_rpn("x + y"));
    assert_eq!(
        vec!["ab", "cd", "ef", "gh", "−", "×", "+"],
        parse_into_rpn("ab + cd × (ef − gh)")
    );
    assert_eq!(
        vec!["2d5", "1d6", "−", "3d6", "×", "2d12", "+"],
        parse_into_rpn("(2d5 − 1d6) × 3d6 + 2d12")
    );
}

#[test]
fn solve_rpn() {
    assert_eq!(
        6,
        solve_rpn_formula(vec!["4".to_string(), "2".to_string(), "+".to_string()]).unwrap()
    );
    assert_eq!(
        5,
        solve_rpn_formula(vec![
            "2".to_string(),
            "2".to_string(),
            "*".to_string(),
            "4".to_string(),
            "4".to_string(),
            "*".to_string(),
            "+".to_string(),
            "4".to_string(),
            "/".to_string(),
        ])
        .unwrap()
    );
}

#[test]
fn parse_infix_formula() {
    assert_eq!(
        "( 3 + 4 )",
        parse_into_infix(vec!["3".to_string(), "4".to_string(), "+".to_string()]).unwrap()
    );
    assert_eq!(
        "( 3 + ( 4 × ( 2 − 1 ) ) )",
        parse_into_infix(vec![
            "3".to_string(),
            "4".to_string(),
            "2".to_string(),
            "1".to_string(),
            "−".to_string(),
            "×".to_string(),
            "+".to_string(),
        ])
        .unwrap()
    );
    assert_eq!(
        "( ( ( 2 − 1 ) × 3 ) + 4 )",
        parse_into_infix(vec![
            "2".to_string(),
            "1".to_string(),
            "−".to_string(),
            "3".to_string(),
            "×".to_string(),
            "4".to_string(),
            "+".to_string(),
        ])
        .unwrap()
    );
}

#[test]
fn roll_from_string() {
    println!();
    let roll0 = roll("2d4".to_string()).unwrap();
    println!("Rolls:             {}", roll0.get_rolls_string());
    println!("RPN Formula:       {}", roll0.get_formula_string_as_rpn());
    println!("Formula:           {}", roll0.get_formula_string_as_infix().unwrap());
    println!("RPN Rolls Formula: {}", roll0.get_rolls_formula_string_as_rpn());
    println!("Rolls Formula:     {}", roll0.get_rolls_formula_string_as_infix().unwrap());
    println!("Result:            {}", roll0.get_result().unwrap());
    println!();

    let roll1 = roll("(2d6 - 1d8) * (3d4 + 4d12)".to_string()).unwrap();
    println!("Rolls:             {}", roll1.get_rolls_string());
    println!("RPN Formula:       {}", roll1.get_formula_string_as_rpn());
    println!("Formula:           {}", roll1.get_formula_string_as_infix().unwrap());
    println!("RPN Rolls Formula: {}", roll1.get_rolls_formula_string_as_rpn());
    println!("Rolls Formula:     {}", roll1.get_rolls_formula_string_as_infix().unwrap());
    println!("Result:            {}", roll1.get_result().unwrap());
    println!();

    let roll2 = roll("3d% + d%".to_string()).unwrap();
    println!("Rolls:             {}", roll2.get_rolls_string());
    println!("RPN Formula:       {}", roll2.get_formula_string_as_rpn());
    println!("Formula:           {}", roll2.get_formula_string_as_infix().unwrap());
    println!("RPN Rolls Formula: {}", roll2.get_rolls_formula_string_as_rpn());
    println!("Rolls Formula:     {}", roll2.get_rolls_formula_string_as_infix().unwrap());
    println!("Result:            {}", roll2.get_result().unwrap());
    println!();

    let roll3 = roll("d100 / 15".to_string()).unwrap();
    println!("Rolls:             {}", roll3.get_rolls_string());
    println!("RPN Formula:       {}", roll3.get_formula_string_as_rpn());
    println!("Formula:           {}", roll3.get_formula_string_as_infix().unwrap());
    println!("RPN Rolls Formula: {}", roll3.get_rolls_formula_string_as_rpn());
    println!("Rolls Formula:     {}", roll3.get_rolls_formula_string_as_infix().unwrap());
    println!("Result:            {}", roll3.get_result().unwrap());
    println!();

    let roll4 = roll("1d4 + 2d6 * 3d2 / 4d8 + (2d6 + 3d8) - 16 * (1 / 1d4)".to_string()).unwrap();
    println!("Rolls:             {}", roll4.get_rolls_string());
    println!("RPN Formula:       {}", roll4.get_formula_string_as_rpn());
    println!("Formula:           {}", roll4.get_formula_string_as_infix().unwrap());
    println!("RPN Rolls Formula: {}", roll4.get_rolls_formula_string_as_rpn());
    println!("Rolls Formula:     {}", roll4.get_rolls_formula_string_as_infix().unwrap());
    println!("Result:            {}", roll4.get_result().unwrap());
    println!();
}
