use algorithm_exercises::expression::get_precedence;
use algorithm_exercises::expression::infix_to_postfix;
use algorithm_exercises::expression::postfix_well_formed;

#[test]
fn test_infix_to_postfix_basic() {
    assert_eq!(infix_to_postfix("1 + 2"), "1 2 +");
    assert_eq!(infix_to_postfix("1 + 2 * 3"), "1 2 3 * +");
    assert_eq!(infix_to_postfix("(1 + 2) * 3"), "1 2 + 3 *");
    assert_eq!(infix_to_postfix("1 * 2 + 3"), "1 2 * 3 +");
}

#[test]
fn test_infix_to_postfix_complex() {
    assert_eq!(infix_to_postfix("(1 + 2) * (3 + 4)"), "1 2 + 3 4 + *");
    assert_eq!(infix_to_postfix("1 + 2 * 3 - 4 / 5"), "1 2 3 * + 4 5 / -");
    assert_eq!(infix_to_postfix("(1 + (2 * 3)) - 4"), "1 2 3 * + 4 -");
}

#[test]
fn test_left_associativity() {
    // Equal precedence pops: 1 - 2 - 3 groups as (1 - 2) - 3.
    assert_eq!(infix_to_postfix("1 - 2 - 3"), "1 2 - 3 -");
    assert_eq!(infix_to_postfix("8 / 4 / 2"), "8 4 / 2 /");
}

#[test]
fn test_infix_to_postfix_negative_numbers() {
    assert_eq!(infix_to_postfix("-1 + 2"), "-1 2 +");
    assert_eq!(infix_to_postfix("1 + -2"), "1 -2 +");
    assert_eq!(infix_to_postfix("-1 * -2"), "-1 -2 *");
    assert_eq!(infix_to_postfix("(-1 + 2) * 3"), "-1 2 + 3 *");
}

#[test]
fn test_infix_to_postfix_decimals() {
    assert_eq!(infix_to_postfix("1.5 + 2.3"), "1.5 2.3 +");
    assert_eq!(infix_to_postfix("-1.5 + 2.3"), "-1.5 2.3 +");
}

#[test]
fn test_infix_to_postfix_empty_and_spaces() {
    assert_eq!(infix_to_postfix(""), "");
    assert_eq!(infix_to_postfix("   "), "");
    assert_eq!(infix_to_postfix("7"), "7");
}

#[test]
fn test_get_precedence_table() {
    assert_eq!(get_precedence("+"), 1);
    assert_eq!(get_precedence("-"), 1);
    assert_eq!(get_precedence("*"), 2);
    assert_eq!(get_precedence("/"), 2);
    assert_eq!(get_precedence("("), 0);
    assert_eq!(get_precedence("x"), 0);
    assert_eq!(get_precedence(""), 0);
}

#[test]
fn test_postfix_well_formed_accepts() {
    assert!(postfix_well_formed("1 2 +"));
    assert!(postfix_well_formed("1 2 3 * +"));
    assert!(postfix_well_formed("1 2 + 3 4 + *"));
    assert!(postfix_well_formed("7"));
}

#[test]
fn test_postfix_well_formed_rejects() {
    // Three operands for one operator: one value too many remains.
    assert!(!postfix_well_formed("1 2 + 3"));
    // The operator finds a single operand.
    assert!(!postfix_well_formed("1 +"));
    // No operator at all for two operands.
    assert!(!postfix_well_formed("1 2"));
    // Nothing to reduce.
    assert!(!postfix_well_formed(""));
    assert!(!postfix_well_formed("+"));
}

#[test]
fn test_pipeline_conversion_then_shape() {
    // A well-formed infix expression converts to a well-formed postfix one.
    let postfix = infix_to_postfix("(1 + 2) * (3 + 4)");
    assert_eq!(postfix, "1 2 + 3 4 + *");
    assert!(postfix_well_formed(&postfix));
}
