use algorithm_exercises::stack::base_converter;
use algorithm_exercises::stack::divide_by_two;
use algorithm_exercises::stack::infix_to_posfix;
use algorithm_exercises::stack::par_checker;
use algorithm_exercises::stack::par_match;
use algorithm_exercises::stack::str_le;
use algorithm_exercises::stack::Stack;

#[test]
fn test_stack_push_pop_peek() {
    let mut s: Stack<i32> = Stack::new();
    assert!(s.is_empty());
    assert_eq!(s.len(), 0);
    assert_eq!(s.pop(), None);
    assert_eq!(s.peek(), None);
    s.push(1);
    s.push(2);
    s.push(3);
    assert!(!s.is_empty());
    assert_eq!(s.len(), 3);
    assert_eq!(s.peek(), Some(&3));
    assert_eq!(s.pop(), Some(3));
    assert_eq!(s.pop(), Some(2));
    assert_eq!(s.len(), 1);
}

#[test]
fn test_stack_peek_mut_and_clear() {
    let mut s: Stack<i32> = Stack::new();
    assert!(s.peek_mut().is_none());
    s.push(10);
    s.push(20);
    if let Some(top) = s.peek_mut() {
        *top = 99;
    }
    assert_eq!(s.pop(), Some(99));
    assert_eq!(s.pop(), Some(10));
    s.push(7);
    s.clear();
    assert!(s.is_empty());
    assert_eq!(s.pop(), None);
}

#[test]
fn test_par_match_pairs() {
    assert!(par_match('(', ')'));
    assert!(par_match('[', ']'));
    assert!(par_match('{', '}'));
    assert!(!par_match('(', ']'));
    assert!(!par_match('{', ')'));
    // Two characters from neither set count as matching.
    assert!(par_match('x', 'y'));
}

#[test]
fn test_par_checker_balanced() {
    assert!(par_checker("((()))"));
    assert!(par_checker("([{}])"));
    assert!(par_checker("a(b)[c]{d}e"));
    assert!(par_checker(""));
}

#[test]
fn test_par_checker_unbalanced() {
    assert!(!par_checker("(]"));
    assert!(!par_checker("(("));
    assert!(!par_checker(")("));
    assert!(!par_checker("([)]"));
    assert!(!par_checker("((())"));
}

#[test]
fn test_divide_by_two_values() {
    assert_eq!(divide_by_two(0), "");
    assert_eq!(divide_by_two(1), "1");
    assert_eq!(divide_by_two(2), "10");
    assert_eq!(divide_by_two(10), "1010");
    assert_eq!(divide_by_two(255), "11111111");
}

#[test]
fn test_base_converter_values() {
    assert_eq!(base_converter(0, 8), "");
    assert_eq!(base_converter(10, 2), "1010");
    assert_eq!(base_converter(233, 16), "E9");
    assert_eq!(base_converter(255, 16), "FF");
    assert_eq!(base_converter(8, 8), "10");
    assert_eq!(base_converter(233, 10), "233");
}

#[test]
fn test_str_le_order() {
    assert!(str_le("", ""));
    assert!(str_le("", "a"));
    assert!(!str_le("a", ""));
    assert!(str_le("abc", "abd"));
    assert!(!str_le("abd", "abc"));
    assert!(str_le("ab", "abc"));
    assert!(str_le("0", "10"));
    assert!(str_le("10", "9"));
}

#[test]
fn test_infix_to_posfix_converts() {
    assert_eq!(
        infix_to_posfix("( 10 + 3 * 5 / ( 16 - 4 ) )"),
        Some("10 3 5 * 16 4 - / + ".to_string())
    );
    assert_eq!(infix_to_posfix("A + B * C"), Some("A B C * + ".to_string()));
    assert_eq!(infix_to_posfix("( A + B ) * C"), Some("A B + C * ".to_string()));
    assert_eq!(infix_to_posfix(""), Some("".to_string()));
}

#[test]
fn test_infix_to_posfix_unbalanced() {
    assert_eq!(infix_to_posfix("( A + B"), None);
    assert_eq!(infix_to_posfix(") ("), None);
}
