use c4::lexer::{tokenize, Token};
use c4::parser::{parse, Parser};
use c4::vm::Opcode;

fn compile(source: &str) -> Result<Vec<Opcode>, String> {
    parse(tokenize(source).expect("lexing failed"))
}

fn jumps_within(code: &[Opcode]) -> bool {
    code.iter().all(|op| match op {
        Opcode::Jz(t) | Opcode::Jmp(t) => 0 <= *t && *t as usize <= code.len(),
        Opcode::Ld(o) | Opcode::St(o) => *o >= 0,
        _ => true,
    })
}

#[test]
fn expressions_follow_precedence() {
    let code = compile("int main() { return 1 + 2 * 3; }").unwrap();
    assert_eq!(
        code,
        vec![
            Opcode::Imm(1),
            Opcode::Imm(2),
            Opcode::Imm(3),
            Opcode::Mul,
            Opcode::Add,
            Opcode::Ret,
            Opcode::Ret
        ]
    );
}

#[test]
fn operators_associate_to_the_left() {
    let code = compile("int main() { return 8 - 2 - 1; }").unwrap();
    assert_eq!(
        code,
        vec![
            Opcode::Imm(8),
            Opcode::Imm(2),
            Opcode::Sub,
            Opcode::Imm(1),
            Opcode::Sub,
            Opcode::Ret,
            Opcode::Ret
        ]
    );
}

#[test]
fn the_first_global_takes_entry_zero_and_further_globals_entries_above_32() {
    // One global: entry 0; locals from 1.
    let code = compile("int g; int main() { int a, b; a = 1; b = g; return b; }").unwrap();
    assert_eq!(
        code,
        vec![
            Opcode::Imm(1),
            Opcode::St(1),
            Opcode::Ld(0),
            Opcode::St(2),
            Opcode::Ld(2),
            Opcode::Ret,
            Opcode::Ret
        ]
    );
    // Three globals: entries 0, 32 and 33, the last two pushed by their
    // declarations; locals still from 1.
    let code = compile("int x; int y; int z; int main() { int a; a = z; y = a; return x; }").unwrap();
    assert_eq!(
        code,
        vec![
            Opcode::Imm(0),
            Opcode::Imm(0),
            Opcode::Ld(33),
            Opcode::St(1),
            Opcode::Ld(1),
            Opcode::St(32),
            Opcode::Ld(0),
            Opcode::Ret,
            Opcode::Ret
        ]
    );
    // No globals: locals from 1.
    let code = compile("int main() { int a; a = 5; return a; }").unwrap();
    assert_eq!(code, vec![Opcode::Imm(5), Opcode::St(1), Opcode::Ld(1), Opcode::Ret, Opcode::Ret]);
}

#[test]
fn if_else_jumps_around_branches() {
    let code = compile("int main() { if (1) return 2; else return 3; }").unwrap();
    assert_eq!(
        code,
        vec![
            Opcode::Imm(1),
            Opcode::Jz(5),
            Opcode::Imm(2),
            Opcode::Ret,
            Opcode::Jmp(7),
            Opcode::Imm(3),
            Opcode::Ret,
            Opcode::Ret
        ]
    );
    assert!(jumps_within(&code));
}

#[test]
fn while_jumps_back_to_its_condition() {
    let code = compile("int main() { int i; while (i) i = i - 1; return i; }").unwrap();
    assert_eq!(
        code,
        vec![
            Opcode::Ld(1),
            Opcode::Jz(7),
            Opcode::Ld(1),
            Opcode::Imm(1),
            Opcode::Sub,
            Opcode::St(1),
            Opcode::Jmp(0),
            Opcode::Ld(1),
            Opcode::Ret,
            Opcode::Ret
        ]
    );
    assert!(jumps_within(&code));
}

#[test]
fn globals_after_the_first_push_their_entries() {
    assert_eq!(compile("int x;").unwrap(), vec![]);
    assert_eq!(compile("int x; int y = 3;").unwrap(), vec![Opcode::Imm(0)]);
    assert_eq!(compile("int x; int y; int z;").unwrap(), vec![Opcode::Imm(0), Opcode::Imm(0)]);
    assert_eq!(compile("").unwrap(), vec![]);
}

#[test]
fn parsing_stops_at_the_first_eof_token() {
    let tokens = vec![Token::EOF, Token::Int];
    assert_eq!(parse(tokens).unwrap(), vec![]);
}

#[test]
fn missing_token_messages_use_debug_text() {
    assert_eq!(
        compile("int main( { return 0; }"),
        Err("Expected RParen, found LBrace".to_string())
    );
    assert_eq!(
        compile("int main() { return 1 x; }"),
        Err("Expected Semicolon, found Ident(\"x\")".to_string())
    );
    assert_eq!(
        compile("int main() { return 1 2; }"),
        Err("Expected Semicolon, found Num(2)".to_string())
    );
    assert_eq!(
        compile("int main() { return (5 + 2; }"),
        Err("Expected RParen, found Semicolon".to_string())
    );
    assert_eq!(
        compile("int main() { return 1;"),
        Err("Unexpected token in factor: EOF".to_string())
    );
}

#[test]
fn negative_numbers_are_printed_in_messages() {
    let tokens = vec![
        Token::Int,
        Token::Ident("main".to_string()),
        Token::LParen,
        Token::RParen,
        Token::LBrace,
        Token::Return,
        Token::Num(1),
        Token::Num(i64::MIN),
    ];
    assert_eq!(
        parse(tokens),
        Err("Expected Semicolon, found Num(-9223372036854775808)".to_string())
    );
}

#[test]
fn undefined_variables_are_reported_by_name() {
    assert_eq!(compile("int main() { return x; }"), Err("Undefined variable: x".to_string()));
    assert_eq!(compile("int main() { y = 1; }"), Err("Undefined variable: y".to_string()));
}

#[test]
fn other_syntax_errors() {
    assert_eq!(compile("int foo() { }"), Err("Only main function is supported".to_string()));
    assert_eq!(compile("int 5;"), Err("Expected identifier after type".to_string()));
    assert_eq!(
        compile("return 1;"),
        Err("Unexpected token at global scope: Return".to_string())
    );
    assert_eq!(
        compile("int main() { int 5; }"),
        Err("Expected identifier in local declaration".to_string())
    );
    assert_eq!(
        compile("int main() { return ; }"),
        Err("Unexpected token in factor: Semicolon".to_string())
    );
    assert_eq!(compile("int x"), Err("Expected Semicolon, found EOF".to_string()));
}

#[test]
fn locals_do_not_outlive_their_function() {
    assert_eq!(
        compile("int main() { int a; } int main() { return a; }"),
        Err("Undefined variable: a".to_string())
    );
}

#[test]
fn the_parser_object_matches_the_free_function() {
    let tokens = tokenize("int main() { int a; a = 2; return a * a; }").unwrap();
    let mut parser = Parser::new(tokens.clone());
    assert_eq!(parser.parse_program(), Ok(()));
    assert_eq!(Parser::new(tokens.clone()).parse(), parse(tokens));
}

#[test]
fn tokens_after_the_first_eof_are_ignored() {
    let mut tokens = tokenize("int main() { return 3; }").unwrap();
    let expected = parse(tokens.clone()).unwrap();
    // Without its final EOF.
    tokens.pop();
    assert_eq!(parse(tokens.clone()).unwrap(), expected);
    // With an EOF and garbage after it.
    tokens.push(Token::EOF);
    tokens.push(Token::RParen);
    tokens.push(Token::Num(7));
    assert_eq!(parse(tokens).unwrap(), expected);
}
