use c4::lexer::tokenize;
use c4::parser::parse;
use c4::vm::{execute, execute_checked, run, Opcode, STEP_LIMIT};

fn run_source(source: &str) -> Result<i64, String> {
    execute(parse(tokenize(source).unwrap()).unwrap())
}

fn err(s: &str) -> Result<i64, String> {
    Err(s.to_string())
}

#[test]
fn ret_returns_the_top_of_the_stack() {
    assert_eq!(execute(vec![Opcode::Imm(5), Opcode::Ret]), Ok(5));
    // The stack starts with 32 zeros.
    assert_eq!(execute(vec![Opcode::Ret]), Ok(0));
}

#[test]
fn arithmetic_opcodes() {
    let bin = |a, b, op| execute(vec![Opcode::Imm(a), Opcode::Imm(b), op, Opcode::Ret]);
    assert_eq!(bin(7, 3, Opcode::Add), Ok(10));
    assert_eq!(bin(7, 3, Opcode::Sub), Ok(4));
    assert_eq!(bin(7, 3, Opcode::Mul), Ok(21));
    assert_eq!(bin(7, 2, Opcode::Div), Ok(3));
    assert_eq!(bin(-7, 2, Opcode::Div), Ok(-3));
    assert_eq!(bin(7, -2, Opcode::Div), Ok(-3));
}

#[test]
fn division_by_zero_is_reported() {
    assert_eq!(
        execute(vec![Opcode::Imm(1), Opcode::Imm(0), Opcode::Div, Opcode::Ret]),
        err("Division by zero")
    );
}

#[test]
fn loads_and_stores_use_stack_offsets() {
    let code = vec![Opcode::Imm(9), Opcode::St(3), Opcode::Ld(3), Opcode::Ret];
    assert_eq!(execute(code), Ok(9));
    assert_eq!(execute(vec![Opcode::Ld(31), Opcode::Ret]), Ok(0));
    assert_eq!(execute(vec![Opcode::Ld(32), Opcode::Ret]), err("Invalid local offset in Ld"));
}

#[test]
fn invalid_offsets_are_reported() {
    assert_eq!(execute(vec![Opcode::Ld(33), Opcode::Ret]), err("Invalid local offset in Ld"));
    assert_eq!(execute(vec![Opcode::Ld(-1), Opcode::Ret]), err("Invalid local offset in Ld"));
    assert_eq!(execute(vec![Opcode::St(31), Opcode::Ret]), err("Invalid local offset in St"));
}

#[test]
fn binary_opcodes_need_two_operands() {
    let mut code = vec![Opcode::Add; 31];
    code.push(Opcode::Sub);
    assert_eq!(execute(code), err("Stack underflow in Sub"));
    let mut code = vec![Opcode::Mul; 32];
    code.push(Opcode::Ret);
    assert_eq!(execute(code), err("Stack underflow in Mul"));
    let mut code = vec![Opcode::Add; 31];
    code.push(Opcode::Div);
    assert_eq!(execute(code), err("Stack underflow in Div"));
    let mut code = vec![Opcode::Add; 32];
    code.push(Opcode::Ret);
    assert_eq!(execute(code), err("Stack underflow in Add"));
}

#[test]
fn jz_peeks_without_popping() {
    let code = vec![
        Opcode::Imm(0),
        Opcode::Jz(3),
        Opcode::Imm(7),
        Opcode::Ret,
    ];
    assert_eq!(execute(code), Ok(0));
    let code = vec![Opcode::Imm(4), Opcode::Jz(3), Opcode::Ret, Opcode::Imm(7), Opcode::Ret];
    assert_eq!(execute(code), Ok(4));
}

#[test]
fn running_off_the_code_is_an_error() {
    assert_eq!(execute(vec![]), err("No Ret opcode encountered"));
    assert_eq!(execute(vec![Opcode::Imm(1)]), err("No Ret opcode encountered"));
    assert_eq!(execute(vec![Opcode::Jmp(-1)]), err("No Ret opcode encountered"));
    assert_eq!(execute(vec![Opcode::Jmp(10), Opcode::Ret]), err("No Ret opcode encountered"));
}

#[test]
fn runs_are_cut_off_at_the_step_limit() {
    assert_eq!(run(&[Opcode::Jmp(0)], 1000), Some(err("Step limit exceeded")));
    assert_eq!(run(&[Opcode::Imm(5), Opcode::Ret], 1), Some(err("Step limit exceeded")));
    assert_eq!(run(&[Opcode::Imm(5), Opcode::Ret], 2), Some(Ok(5)));
    assert_eq!(STEP_LIMIT, u64::MAX);
}

#[test]
fn more_steps_do_not_change_a_finished_run() {
    let code = parse(tokenize("int main() { int i; i = 5; while (i) i = i - 1; return 9; }").unwrap())
        .unwrap();
    let first = run(&code, 200);
    assert_eq!(first, Some(Ok(9)));
    assert_eq!(run(&code, 10_000), first);
    assert_eq!(execute_checked(&code), first);
}

#[test]
fn overflow_is_reported_as_none() {
    let code = [Opcode::Imm(i64::MAX), Opcode::Imm(1), Opcode::Add, Opcode::Ret];
    assert_eq!(execute_checked(&code), None);
    let code = [Opcode::Imm(i64::MIN), Opcode::Imm(-1), Opcode::Div, Opcode::Ret];
    assert_eq!(execute_checked(&code), None);
    let code = [Opcode::Imm(i64::MIN), Opcode::Imm(1), Opcode::Sub, Opcode::Ret];
    assert_eq!(execute_checked(&code), None);
    let code = [Opcode::Imm(1 << 40), Opcode::Imm(1 << 40), Opcode::Mul, Opcode::Ret];
    assert_eq!(execute_checked(&code), None);
    let code = [Opcode::Imm(i64::MAX), Opcode::Imm(0), Opcode::Add, Opcode::Ret];
    assert_eq!(execute_checked(&code), Some(Ok(i64::MAX)));
}

#[test]
fn returned_expressions_have_their_value() {
    assert_eq!(run_source("int main() { return 100 - 20 - 5; }"), Ok(75));
    assert_eq!(run_source("int main() { return 2 * (3 + 4); }"), Ok(14));
    assert_eq!(run_source("int main() { return 7 / 2 * 2; }"), Ok(6));
    assert_eq!(run_source("int main() { return (1 + 2) * (10 - 4) / 3; }"), Ok(6));
}

#[test]
fn programs_with_globals_and_loops() {
    assert_eq!(run_source("int g; int main() { g = 4; return g * g; }"), Ok(16));
    let source = "int main() { int n, acc; n = 5; acc = 1; while (n) { acc = acc * n; n = n - 1; } return acc; }";
    assert_eq!(run_source(source), Ok(120));
}

#[test]
fn if_else_returns_the_branch_the_condition_selects() {
    assert_eq!(run_source("int main() { if (2 - 2) return 1; else return 7 * 3; }"), Ok(21));
    assert_eq!(run_source("int main() { if (2 + 2) return 1; else return 7 * 3; }"), Ok(1));
    assert_eq!(run_source("int main() { if (0 - 1) return 5; else return 6; }"), Ok(5));
}

#[test]
fn a_return_of_an_undeclared_name_is_rejected() {
    for name in ["x", "main", "_v2"] {
        let source = format!("int main() {{ return {}; }}", name);
        assert_eq!(
            parse(tokenize(&source).unwrap()),
            Err(format!("Undefined variable: {}", name))
        );
    }
}

#[test]
fn a_loop_returns_the_value_its_variable_ends_with() {
    // x takes the value of g while c is not zero.
    let counting = "int main() { int x; x = 0; while (10 - x) x = x + 1; return x; }";
    assert_eq!(run_source(counting), Ok(10));
    let halving = "int main() { int x; x = 100; while (x / 7) x = x / 2; return x; }";
    assert_eq!(run_source(halving), Ok(6));
    // A condition that is zero from the start leaves x at the value of a,
    // even where g has no value.
    let never = "int main() { int x; x = 3; while (x - 3) x = 1 / 0; return x; }";
    assert_eq!(run_source(never), Ok(3));
}

#[test]
fn a_body_without_return_returns_the_top_of_the_stack() {
    assert_eq!(run_source("int main() { }"), Ok(0));
    assert_eq!(run_source("int main() { 7; }"), Ok(7));
    assert_eq!(run_source("int main() { int x; x = 4; x * 3; }"), Ok(12));
    // An if without else leaves its condition on the stack.
    assert_eq!(run_source("int main() { if (5) 9; }"), Ok(9));
    assert_eq!(run_source("int main() { if (5 - 5) 9; }"), Ok(0));
    // A while leaves its last condition, zero, on the stack.
    assert_eq!(run_source("int main() { int n; n = 3; while (n) n = n - 1; }"), Ok(0));
}

#[test]
fn statements_run_as_their_source_says() {
    let source = "int g; int main() { int a, b; a = 6; b = 0; \
                  while (a) { if (a - 3) b = b + a; else b = b * 2; a = a - 1; } return b + g; }";
    // a: 6, 5, 4 add to b (15), a = 3 doubles it (30), a: 2, 1 add (33).
    assert_eq!(run_source(source), Ok(33));
    assert_eq!(run_source("int main() { int x; x = 1; { int y; y = x + 1; x = y * 10; } return x; }"), Ok(20));
}

#[test]
fn every_global_has_its_own_entry() {
    assert_eq!(run_source("int x; int y; int main() { x = 1; y = 2; return x; }"), Ok(1));
    assert_eq!(run_source("int x; int y; int main() { x = 1; y = 2; return y; }"), Ok(2));
    let source = "int x; int y; int main() { int a; a = 3; x = 4; y = 5; return a * 100 + x * 10 + y; }";
    assert_eq!(run_source(source), Ok(345));
}

#[test]
fn many_globals_leave_the_locals_their_entries() {
    let mut source = String::new();
    for k in 0..40 {
        source.push_str(&format!("int g{}; ", k));
    }
    source.push_str("int main() { int x; x = 5; return x; }");
    assert_eq!(run_source(&source), Ok(5));
    let mut source = String::new();
    for k in 0..40 {
        source.push_str(&format!("int g{}; ", k));
    }
    source.push_str("int main() { int x, y; x = 5; g39 = 7; g0 = 2; y = 1; return x * 100 + g39 * 10 + g0 + y; }");
    assert_eq!(run_source(&source), Ok(573));
}

#[test]
fn code_appended_after_a_return_is_never_reached() {
    let code = vec![Opcode::Imm(4), Opcode::Imm(5), Opcode::Mul, Opcode::Ret];
    let mut longer = code.clone();
    longer.extend(vec![Opcode::Imm(1), Opcode::Ret, Opcode::Jmp(0)]);
    assert_eq!(execute(code), Ok(20));
    assert_eq!(execute(longer), Ok(20));
    // A run that leaves its code does reach what is appended.
    assert_eq!(execute(vec![Opcode::Imm(1)]), Err("No Ret opcode encountered".to_string()));
    assert_eq!(execute(vec![Opcode::Imm(1), Opcode::Ret]), Ok(1));
}
