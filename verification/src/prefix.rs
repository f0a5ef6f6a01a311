//! The parser reads no token after the first `EOF`: what follows it is
//! ignored, and a token sequence without one parses as if it ended with one.

use vstd::prelude::*;
use crate::lexer::TokenView;
use crate::parser::{
    cur, advance, emit, patch, moved, ParseState, SymbolView, SymbolClass, p_expect, p_factor,
    p_term_rest, p_term, p_additive_rest, p_additive, p_assignment, p_expr, p_decl_names, p_if,
    p_while, p_block_body, p_stmt, p_main_body, p_program, skip_declaration, enter_function,
    declare_global, parse_tokens, initial_parse_state,
};
use crate::vm::Opcode;

verus! {

/// `a` and `b` hold the same tokens up to position `k`, where `a` has an
/// `EOF` (or ends).
pub open spec fn same_up_to(a: Seq<TokenView>, b: Seq<TokenView>, k: int) -> bool {
    &&& 0 <= k <= a.len()
    &&& k <= b.len()
    &&& forall|i: int| 0 <= i <= k ==> #[trigger] cur(a, i) == cur(b, i)
    &&& cur(a, k) == TokenView::EOF
}

/// The parse `r` from `a` equals the parse from `b`, and a success stops at
/// or before `k`.
pub open spec fn same_result(
    r: Result<ParseState, Seq<char>>,
    r2: Result<ParseState, Seq<char>>,
    k: int,
) -> bool {
    &&& r == r2
    &&& r matches Ok(s) ==> 0 <= s.pos <= k
}

proof fn lemma_below(a: Seq<TokenView>, b: Seq<TokenView>, k: int, pos: int)
    requires
        same_up_to(a, b, k),
        0 <= pos <= k,
        cur(a, pos) != TokenView::EOF,
    ensures
        pos < k,
        cur(b, pos) == cur(a, pos),
{
}

proof fn lemma_expect_prefix(a: Seq<TokenView>, b: Seq<TokenView>, k: int, st: ParseState, want: TokenView)
    requires
        same_up_to(a, b, k),
        0 <= st.pos <= k,
        want != TokenView::EOF,
    ensures
        same_result(p_expect(a, st, want), p_expect(b, st, want), k),
{
    assert(cur(a, st.pos) == cur(b, st.pos));
}

proof fn lemma_factor_prefix(a: Seq<TokenView>, b: Seq<TokenView>, k: int, st: ParseState)
    requires
        same_up_to(a, b, k),
        0 <= st.pos <= k,
    ensures
        same_result(p_factor(a, st), p_factor(b, st), k),
    decreases a.len() - st.pos, 3nat,
{
    assert(cur(a, st.pos) == cur(b, st.pos));
    if cur(a, st.pos) == TokenView::LParen {
        lemma_expr_prefix(a, b, k, advance(st));
        if let Ok(s1) = p_expr(a, advance(st)) {
            lemma_expect_prefix(a, b, k, s1, TokenView::RParen);
        }
    }
}

proof fn lemma_term_rest_prefix(a: Seq<TokenView>, b: Seq<TokenView>, k: int, st: ParseState)
    requires
        same_up_to(a, b, k),
        0 <= st.pos <= k,
    ensures
        same_result(p_term_rest(a, st), p_term_rest(b, st), k),
    decreases a.len() - st.pos, 4nat,
{
    assert(cur(a, st.pos) == cur(b, st.pos));
    let t = cur(a, st.pos);
    if t == TokenView::Mul || t == TokenView::Div {
        lemma_factor_prefix(a, b, k, advance(st));
        if let Ok(s1) = p_factor(a, advance(st)) {
            let s2 = emit(s1, if t == TokenView::Mul { Opcode::Mul } else { Opcode::Div });
            if moved(a, st, s2) {
                lemma_term_rest_prefix(a, b, k, s2);
            }
        }
    }
}

proof fn lemma_term_prefix(a: Seq<TokenView>, b: Seq<TokenView>, k: int, st: ParseState)
    requires
        same_up_to(a, b, k),
        0 <= st.pos <= k,
    ensures
        same_result(p_term(a, st), p_term(b, st), k),
    decreases a.len() - st.pos, 5nat,
{
    lemma_factor_prefix(a, b, k, st);
    if let Ok(s1) = p_factor(a, st) {
        if moved(a, st, s1) {
            lemma_term_rest_prefix(a, b, k, s1);
        }
    }
}

proof fn lemma_additive_rest_prefix(a: Seq<TokenView>, b: Seq<TokenView>, k: int, st: ParseState)
    requires
        same_up_to(a, b, k),
        0 <= st.pos <= k,
    ensures
        same_result(p_additive_rest(a, st), p_additive_rest(b, st), k),
    decreases a.len() - st.pos, 6nat,
{
    assert(cur(a, st.pos) == cur(b, st.pos));
    let t = cur(a, st.pos);
    if t == TokenView::Plus || t == TokenView::Minus {
        lemma_term_prefix(a, b, k, advance(st));
        if let Ok(s1) = p_term(a, advance(st)) {
            let s2 = emit(s1, if t == TokenView::Plus { Opcode::Add } else { Opcode::Sub });
            if moved(a, st, s2) {
                lemma_additive_rest_prefix(a, b, k, s2);
            }
        }
    }
}

proof fn lemma_additive_prefix(a: Seq<TokenView>, b: Seq<TokenView>, k: int, st: ParseState)
    requires
        same_up_to(a, b, k),
        0 <= st.pos <= k,
    ensures
        same_result(p_additive(a, st), p_additive(b, st), k),
    decreases a.len() - st.pos, 6nat,
{
    lemma_term_prefix(a, b, k, st);
    if let Ok(s1) = p_term(a, st) {
        if moved(a, st, s1) {
            lemma_additive_rest_prefix(a, b, k, s1);
        }
    }
}

proof fn lemma_assignment_prefix(a: Seq<TokenView>, b: Seq<TokenView>, k: int, st: ParseState)
    requires
        same_up_to(a, b, k),
        0 <= st.pos <= k,
    ensures
        same_result(p_assignment(a, st), p_assignment(b, st), k),
    decreases a.len() - st.pos, 7nat,
{
    assert(cur(a, st.pos) == cur(b, st.pos));
    lemma_additive_prefix(a, b, k, st);
    if cur(a, st.pos) is Ident {
        assert(cur(a, st.pos + 1) == cur(b, st.pos + 1));
        if cur(a, st.pos + 1) == TokenView::Assign {
            lemma_assignment_prefix(a, b, k, ParseState { pos: st.pos + 2, ..st });
        }
    }
}

proof fn lemma_expr_prefix(a: Seq<TokenView>, b: Seq<TokenView>, k: int, st: ParseState)
    requires
        same_up_to(a, b, k),
        0 <= st.pos <= k,
    ensures
        same_result(p_expr(a, st), p_expr(b, st), k),
    decreases a.len() - st.pos, 8nat,
{
    lemma_assignment_prefix(a, b, k, st);
}

proof fn lemma_decl_prefix(a: Seq<TokenView>, b: Seq<TokenView>, k: int, st: ParseState)
    requires
        same_up_to(a, b, k),
        0 <= st.pos <= k,
    ensures
        same_result(p_decl_names(a, st), p_decl_names(b, st), k),
    decreases a.len() - st.pos,
{
    assert(cur(a, st.pos) == cur(b, st.pos));
    if let TokenView::Ident(name) = cur(a, st.pos) {
        let offset = (st.local_offset + 1) as i64;
        let s1 = ParseState {
            pos: st.pos + 1,
            locals: st.locals.insert(name, SymbolView { name, class: SymbolClass::Local, offset }),
            local_offset: offset,
            ..st
        };
        assert(cur(a, s1.pos) == cur(b, s1.pos));
        if cur(a, s1.pos) == TokenView::Comma {
            lemma_decl_prefix(a, b, k, advance(s1));
        } else {
            lemma_expect_prefix(a, b, k, s1, TokenView::Semicolon);
        }
    }
}

proof fn lemma_if_prefix(a: Seq<TokenView>, b: Seq<TokenView>, k: int, st: ParseState)
    requires
        same_up_to(a, b, k),
        0 <= st.pos < k,
    ensures
        same_result(p_if(a, st), p_if(b, st), k),
    decreases a.len() - st.pos, 9nat,
{
    lemma_expect_prefix(a, b, k, advance(st), TokenView::LParen);
    if let Ok(s1) = p_expect(a, advance(st), TokenView::LParen) {
        lemma_expr_prefix(a, b, k, s1);
        if let Ok(s2) = p_expr(a, s1) {
            lemma_expect_prefix(a, b, k, s2, TokenView::RParen);
            if let Ok(s3) = p_expect(a, s2, TokenView::RParen) {
                let s4 = emit(s3, Opcode::Jz(0));
                if moved(a, st, s4) {
                    lemma_stmt_prefix(a, b, k, s4);
                    if let Ok(s5) = p_stmt(a, s4) {
                        assert(cur(a, s5.pos) == cur(b, s5.pos));
                        if cur(a, s5.pos) == TokenView::Else {
                            let s7 = emit(advance(s5), Opcode::Jmp(0));
                            let s8 = patch(s7, s3.code.len() as int, Opcode::Jz(s7.code.len() as i64));
                            if moved(a, st, s8) {
                                lemma_stmt_prefix(a, b, k, s8);
                            }
                        }
                    }
                }
            }
        }
    }
}

proof fn lemma_while_prefix(a: Seq<TokenView>, b: Seq<TokenView>, k: int, st: ParseState)
    requires
        same_up_to(a, b, k),
        0 <= st.pos < k,
    ensures
        same_result(p_while(a, st), p_while(b, st), k),
    decreases a.len() - st.pos, 9nat,
{
    lemma_expect_prefix(a, b, k, advance(st), TokenView::LParen);
    if let Ok(s1) = p_expect(a, advance(st), TokenView::LParen) {
        lemma_expr_prefix(a, b, k, s1);
        if let Ok(s2) = p_expr(a, s1) {
            lemma_expect_prefix(a, b, k, s2, TokenView::RParen);
            if let Ok(s3) = p_expect(a, s2, TokenView::RParen) {
                let s4 = emit(s3, Opcode::Jz(0));
                if moved(a, st, s4) {
                    lemma_stmt_prefix(a, b, k, s4);
                }
            }
        }
    }
}

proof fn lemma_block_prefix(a: Seq<TokenView>, b: Seq<TokenView>, k: int, st: ParseState)
    requires
        same_up_to(a, b, k),
        0 <= st.pos <= k,
    ensures
        same_result(p_block_body(a, st), p_block_body(b, st), k),
    decreases a.len() - st.pos, 11nat,
{
    assert(cur(a, st.pos) == cur(b, st.pos));
    if cur(a, st.pos) != TokenView::RBrace {
        lemma_stmt_prefix(a, b, k, st);
        if let Ok(s1) = p_stmt(a, st) {
            if moved(a, st, s1) {
                lemma_block_prefix(a, b, k, s1);
            }
        }
    }
}

proof fn lemma_stmt_prefix(a: Seq<TokenView>, b: Seq<TokenView>, k: int, st: ParseState)
    requires
        same_up_to(a, b, k),
        0 <= st.pos <= k,
    ensures
        same_result(p_stmt(a, st), p_stmt(b, st), k),
    decreases a.len() - st.pos, 10nat,
{
    assert(cur(a, st.pos) == cur(b, st.pos));
    match cur(a, st.pos) {
        TokenView::Return => {
            lemma_expr_prefix(a, b, k, advance(st));
            if let Ok(s1) = p_expr(a, advance(st)) {
                lemma_expect_prefix(a, b, k, s1, TokenView::Semicolon);
            }
        },
        TokenView::If => lemma_if_prefix(a, b, k, st),
        TokenView::While => lemma_while_prefix(a, b, k, st),
        TokenView::LBrace => {
            lemma_block_prefix(a, b, k, advance(st));
            if let Ok(s1) = p_block_body(a, advance(st)) {
                lemma_expect_prefix(a, b, k, s1, TokenView::RBrace);
            }
        },
        TokenView::Int => lemma_decl_prefix(a, b, k, advance(st)),
        _ => {
            lemma_expr_prefix(a, b, k, st);
            if let Ok(s1) = p_expr(a, st) {
                lemma_expect_prefix(a, b, k, s1, TokenView::Semicolon);
            }
        },
    }
}

proof fn lemma_skip_prefix(a: Seq<TokenView>, b: Seq<TokenView>, k: int, pos: int)
    requires
        same_up_to(a, b, k),
        0 <= pos <= k,
    ensures
        skip_declaration(a, pos) == skip_declaration(b, pos),
        pos <= skip_declaration(a, pos) <= k,
    decreases a.len() - pos,
{
    assert(cur(a, pos) == cur(b, pos));
    if cur(a, pos) != TokenView::Semicolon && cur(a, pos) != TokenView::EOF {
        lemma_skip_prefix(a, b, k, pos + 1);
    }
}

proof fn lemma_main_body_prefix(a: Seq<TokenView>, b: Seq<TokenView>, k: int, st: ParseState)
    requires
        same_up_to(a, b, k),
        0 <= st.pos <= k,
    ensures
        same_result(p_main_body(a, st), p_main_body(b, st), k),
{
    lemma_block_prefix(a, b, k, enter_function(st));
    if let Ok(s6) = p_block_body(a, enter_function(st)) {
        lemma_expect_prefix(a, b, k, s6, TokenView::RBrace);
    }
}

proof fn lemma_program_prefix(a: Seq<TokenView>, b: Seq<TokenView>, k: int, st: ParseState)
    requires
        same_up_to(a, b, k),
        0 <= st.pos <= k,
    ensures
        same_result(p_program(a, st), p_program(b, st), k),
    decreases a.len() - st.pos,
{
    assert(cur(a, st.pos) == cur(b, st.pos));
    if cur(a, st.pos) == TokenView::Int {
        let s0 = advance(st);
        assert(cur(a, s0.pos) == cur(b, s0.pos));
        if let TokenView::Ident(name) = cur(a, s0.pos) {
            let s1 = advance(s0);
            assert(cur(a, s1.pos) == cur(b, s1.pos));
            if cur(a, s1.pos) == TokenView::LParen {
                lemma_expect_prefix(a, b, k, advance(s1), TokenView::RParen);
                if let Ok(s3) = p_expect(a, advance(s1), TokenView::RParen) {
                    lemma_expect_prefix(a, b, k, s3, TokenView::LBrace);
                    if let Ok(s4) = p_expect(a, s3, TokenView::LBrace) {
                        lemma_main_body_prefix(a, b, k, s4);
                        if let Ok(s8) = p_main_body(a, s4) {
                            if moved(a, st, s8) {
                                lemma_program_prefix(a, b, k, s8);
                            }
                        }
                    }
                }
            } else {
                let s2 = declare_global(s1, name);
                lemma_skip_prefix(a, b, k, s2.pos);
                let s3 = ParseState { pos: skip_declaration(a, s2.pos), ..s2 };
                lemma_expect_prefix(a, b, k, s3, TokenView::Semicolon);
                if let Ok(s4) = p_expect(a, s3, TokenView::Semicolon) {
                    if moved(a, st, s4) {
                        lemma_program_prefix(a, b, k, s4);
                    }
                }
            }
        }
    }
}

/// The parser reads no token after the first `EOF`: where `t` holds no
/// `EOF`, `t`, `t` followed by `EOF`, and `t` followed by `EOF` and any
/// tokens `r` all parse alike.
pub proof fn tokens_after_eof_are_ignored(t: Seq<TokenView>, r: Seq<TokenView>)
    requires
        forall|i: int| 0 <= i < t.len() ==> t[i] != TokenView::EOF,
    ensures
        parse_tokens(t + seq![TokenView::EOF] + r) == parse_tokens(t),
{
    let b = t + seq![TokenView::EOF] + r;
    let k = t.len() as int;
    assert forall|i: int| 0 <= i <= k implies #[trigger] cur(t, i) == cur(b, i) by {
        if i < k {
            assert(b[i] == t[i]);
        } else {
            assert(b[k] == TokenView::EOF);
        }
    }
    lemma_program_prefix(t, b, k, initial_parse_state());
}

} // verus!
