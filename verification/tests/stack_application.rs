use learn_rust::stack_application::is_valid_parentheses;

#[test]
fn brackets_balanced() {
    assert!(is_valid_parentheses(""));
    assert!(is_valid_parentheses("()"));
    assert!(is_valid_parentheses("()[]{}"));
    assert!(is_valid_parentheses("{[()()]}"));
    assert!(is_valid_parentheses("a(b)c[d]{e}"));
    assert!(is_valid_parentheses("no brackets at all"));
}

#[test]
fn brackets_left_open() {
    assert!(!is_valid_parentheses("("));
    assert!(!is_valid_parentheses("(()"));
    assert!(!is_valid_parentheses("{[]"));
}

#[test]
fn brackets_of_different_kinds() {
    assert!(!is_valid_parentheses("(]"));
    assert!(!is_valid_parentheses("([)]"));
    assert!(!is_valid_parentheses("{(})"));
    // The first mismatch decides, whatever follows.
    assert!(!is_valid_parentheses("(])))"));
}
