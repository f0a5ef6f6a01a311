use c4::lexer::tokenize;
use c4::parser::parse;
use c4::vm::execute;

/// Test a nested if–else construct.
#[test]
fn test_nested_if_else() {
    let source = r#"
        int main() {
            if (1) {
                if (0) {
                    return 1;
                } else {
                    return 2;
                }
            } else {
                return 3;
            }
        }
        "#;
    let tokens = tokenize(source).expect("Failed to tokenize");
    let opcodes = parse(tokens).expect("Failed to parse");
    let result = execute(opcodes).expect("Execution failed");
    // The outer condition is true (1), so we go into the inner if.
    // The inner condition is false (0), so the else branch returns 2.
    assert_eq!(result, 2);
}

/// Test a nested while loop.
#[test]
fn test_nested_while_loops() {
    let source = r#"
        int main() {
            int i;
            i = 3;
            while (i) {
                while (i - 1) {
                    i = i - 1;
                }
                i = 0;
            }
            return i;
        }
        "#;
    let tokens = tokenize(source).expect("Failed to tokenize");
    let opcodes = parse(tokens).expect("Failed to parse");
    let result = execute(opcodes).expect("Execution failed");
    assert_eq!(result, 0);
}

/// Test that an undefined variable causes an error.
#[test]
fn test_undefined_variable_error() {
    let source = r#"
        int main() {
            return x;
        }
        "#;
    let tokens = tokenize(source).expect("Failed to tokenize");
    let parse_result = parse(tokens);
    assert!(parse_result.is_err(), "Parsing should fail due to undefined variable");
}

/// Test that division by zero is handled as an error.
#[test]
fn test_division_by_zero_error() {
    let source = r#"
        int main() {
            return 10 / 0;
        }
        "#;
    let tokens = tokenize(source).expect("Failed to tokenize");
    let opcodes = parse(tokens).expect("Failed to parse");
    let result = execute(opcodes);
    assert!(result.is_err(), "Execution should fail with division by zero");
}

/// Test that invalid syntax produces a parse error.
#[test]
fn test_invalid_syntax_error() {
    let source = r#"
        int main( { return 0; }
        "#;
    let tokens = tokenize(source).expect("Failed to tokenize");
    let parse_result = parse(tokens);
    assert!(parse_result.is_err(), "Parsing should fail due to invalid syntax");
}

/// A minimal program that returns a constant.
#[test]
fn test_self_hosting() {
    let source = r#"
        int main() {
            return 42;
        }
        "#;
    let tokens = tokenize(source).expect("Failed to tokenize");
    let opcodes = parse(tokens).expect("Failed to parse");
    let result = execute(opcodes).expect("Execution failed");
    assert_eq!(result, 42);
}

/// Test long arithmetic expression with precedence
#[test]
fn test_complex_expression() {
    let source = r#"
        int main() {
            return 2 + 3 * 4 - 6 / 2;
        }
        "#;
    let tokens = tokenize(source).expect("Failed to tokenize");
    let opcodes = parse(tokens).expect("Failed to parse");
    let result = execute(opcodes).expect("Execution failed");
    assert_eq!(result, 2 + 3 * 4 - 6 / 2);
}

/// Test multiple variable declarations and usage
#[test]
fn test_multiple_variables() {
    let source = r#"
        int main() {
            int a, b;
            a = 5;
            b = 10;
            return a + b;
        }
        "#;
    let tokens = tokenize(source).expect("Failed to tokenize");
    let opcodes = parse(tokens).expect("Failed to parse");
    let result = execute(opcodes).expect("Execution failed");
    assert_eq!(result, 15);
}

/// Test unmatched parentheses to simulate a syntax error
#[test]
fn test_unmatched_parentheses() {
    let source = r#"
        int main() {
            return (5 + 2;
        }
        "#;
    let tokens = tokenize(source).expect("Failed to tokenize");
    let parse_result = parse(tokens);
    assert!(parse_result.is_err(), "Expected error due to unmatched parentheses");
}
