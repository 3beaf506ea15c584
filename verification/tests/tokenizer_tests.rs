use algorithm_exercises::utils::split_whitespace_tokens;
use algorithm_exercises::utils::token;

#[test]
fn test_token_negative_numbers() {
    // A leading minus attaches to the number.
    assert_eq!(token("-1 + 2"), vec!["-1", "+", "2"]);
    // A minus after an operator attaches to the following number.
    assert_eq!(token("1 + -2"), vec!["1", "+", "-2"]);
    // A minus after an operand is a binary operator.
    assert_eq!(token("1 - 2"), vec!["1", "-", "2"]);
    // A minus after an opening parenthesis attaches.
    assert_eq!(token("(-1 + 2) * 3"), vec!["(", "-1", "+", "2", ")", "*", "3"]);
}

#[test]
fn test_token_numbers_and_operators() {
    assert_eq!(token("12+345"), vec!["12", "+", "345"]);
    assert_eq!(token("1.5*2.25"), vec!["1.5", "*", "2.25"]);
    assert_eq!(token("(1+2)/3"), vec!["(", "1", "+", "2", ")", "/", "3"]);
    assert_eq!(token("  1   +  2  "), vec!["1", "+", "2"]);
}

#[test]
fn test_token_identifiers() {
    assert_eq!(token("a + bc"), vec!["a", "+", "bc"]);
    assert_eq!(token("x*y"), vec!["x", "*", "y"]);
}

#[test]
fn test_token_empty() {
    assert_eq!(token(""), Vec::<String>::new());
    assert_eq!(token("   "), Vec::<String>::new());
}

#[test]
fn test_token_rejoin_idempotent() {
    // Re-joining a token sequence with single spaces and re-tokenizing it
    // yields the sequence again.
    for input in ["-1 + 2", "1 + -2", "1-2*3", "((a+ b) /c)", "- - 1", "1.5+-2.25"] {
        let toks = token(input);
        let rejoined = toks.join(" ");
        assert_eq!(token(&rejoined), toks, "input: {input:?}");
    }
}

#[test]
fn test_split_whitespace_tokens() {
    assert_eq!(split_whitespace_tokens("1 2 +"), vec!["1", "2", "+"]);
    assert_eq!(split_whitespace_tokens("  a \t b\nc  "), vec!["a", "b", "c"]);
    assert_eq!(split_whitespace_tokens(""), Vec::<String>::new());
    assert_eq!(split_whitespace_tokens(" \t "), Vec::<String>::new());
}
