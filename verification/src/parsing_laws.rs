//! Laws of the parser on statements: a declaration of any number of names
//! parses and declares them all, and an `if` without `else` parses for any
//! statement as its branch.

use vstd::prelude::*;
use crate::lexer::TokenView;
use crate::parser::{
    cur, advance, emit, patch, moved, ParseState, SymbolView, SymbolClass, p_decl_names, p_expr,
    p_stmt, p_block_body, variable_offset, successful_parses_consume_tokens,
};
use crate::vm::Opcode;

verus! {

/// The names `xs` at `pos`, separated by commas and ended by a semicolon:
/// `x1 , x2 , ... , xn ;`.
pub open spec fn names_at(toks: Seq<TokenView>, pos: int, xs: Seq<Seq<char>>) -> bool {
    &&& 0 <= pos
    &&& pos + 2 * xs.len() <= toks.len()
    &&& forall|i: int| 0 <= i < xs.len() ==> #[trigger] toks[pos + 2 * i] == TokenView::Ident(xs[i])
    &&& forall|i: int| 0 <= i < xs.len() - 1 ==> #[trigger] toks[pos + 2 * i + 1] == TokenView::Comma
    &&& toks[pos + 2 * xs.len() - 1] == TokenView::Semicolon
}

/// No name occurs twice in `xs`.
pub open spec fn distinct_names(xs: Seq<Seq<char>>) -> bool {
    forall|i: int, j: int| 0 <= i < j < xs.len() ==> xs[i] != xs[j]
}

proof fn lemma_decl_names(toks: Seq<TokenView>, st: ParseState, xs: Seq<Seq<char>>)
    requires
        xs.len() >= 1,
        names_at(toks, st.pos, xs),
        distinct_names(xs),
        0 <= st.local_offset,
        st.local_offset + xs.len() <= i64::MAX,
    ensures
        p_decl_names(toks, st) matches Ok(s) && {
            &&& s.pos == st.pos + 2 * xs.len()
            &&& s.code == st.code
            &&& s.globals == st.globals
            &&& s.global_count == st.global_count
            &&& s.local_offset == st.local_offset + xs.len()
            &&& forall|i: int| 0 <= i < xs.len() ==> #[trigger] s.locals.contains_key(xs[i])
                && s.locals[xs[i]] == (SymbolView {
                name: xs[i],
                class: SymbolClass::Local,
                offset: (st.local_offset + i + 1) as i64,
            })
            &&& forall|k: Seq<char>| !xs.contains(k) ==> (#[trigger] s.locals.contains_key(k)
                == st.locals.contains_key(k) && (st.locals.contains_key(k) ==> s.locals[k]
                == st.locals[k]))
        },
    decreases xs.len(),
{
    let name = xs[0];
    assert(toks[st.pos + 2 * 0] == TokenView::Ident(xs[0]));
    let offset = (st.local_offset + 1) as i64;
    let s1 = ParseState {
        pos: st.pos + 1,
        locals: st.locals.insert(name, SymbolView { name, class: SymbolClass::Local, offset }),
        local_offset: offset,
        ..st
    };
    if xs.len() == 1 {
        assert(toks[st.pos + 1] == TokenView::Semicolon);
        let s = advance(s1);
        assert(p_decl_names(toks, st) == Ok::<ParseState, Seq<char>>(s));
        assert forall|i: int| 0 <= i < xs.len() implies #[trigger] s.locals.contains_key(xs[i])
            && s.locals[xs[i]] == (SymbolView {
            name: xs[i],
            class: SymbolClass::Local,
            offset: (st.local_offset + i + 1) as i64,
        }) by {
            assert(i == 0);
        }
        assert forall|k: Seq<char>| !xs.contains(k) implies (#[trigger] s.locals.contains_key(k)
            == st.locals.contains_key(k) && (st.locals.contains_key(k) ==> s.locals[k]
            == st.locals[k])) by {
            assert(k != xs[0]);
        }
    } else {
        assert(toks[st.pos + 2 * 0 + 1] == TokenView::Comma);
        let rest = xs.drop_first();
        let s2 = advance(s1);
        assert(names_at(toks, s2.pos, rest)) by {
            assert forall|i: int| 0 <= i < rest.len() implies #[trigger] toks[s2.pos + 2 * i]
                == TokenView::Ident(rest[i]) by {
                assert(toks[st.pos + 2 * (i + 1)] == TokenView::Ident(xs[i + 1]));
            }
            assert forall|i: int| 0 <= i < rest.len() - 1 implies #[trigger] toks[s2.pos + 2 * i
                + 1] == TokenView::Comma by {
                assert(toks[st.pos + 2 * (i + 1) + 1] == TokenView::Comma);
            }
        }
        assert(distinct_names(rest)) by {
            assert forall|i: int, j: int| 0 <= i < j < rest.len() implies rest[i] != rest[j] by {
                assert(xs[i + 1] != xs[j + 1]);
            }
        }
        lemma_decl_names(toks, s2, rest);
        let s = p_decl_names(toks, s2)->Ok_0;
        assert(p_decl_names(toks, st) == Ok::<ParseState, Seq<char>>(s));
        assert forall|i: int| 0 <= i < xs.len() implies #[trigger] s.locals.contains_key(xs[i])
            && s.locals[xs[i]] == (SymbolView {
            name: xs[i],
            class: SymbolClass::Local,
            offset: (st.local_offset + i + 1) as i64,
        }) by {
            if i == 0 {
                assert(!rest.contains(xs[0])) by {
                    if rest.contains(xs[0]) {
                        let j = choose|j: int| 0 <= j < rest.len() && rest[j] == xs[0];
                        assert(xs[j + 1] == xs[0]);
                    }
                }
                assert(s.locals.contains_key(xs[0]) == s2.locals.contains_key(xs[0]));
            } else {
                assert(rest[i - 1] == xs[i]);
                assert(s.locals.contains_key(rest[i - 1]));
            }
        }
        assert forall|k: Seq<char>| !xs.contains(k) implies (#[trigger] s.locals.contains_key(k)
            == st.locals.contains_key(k) && (st.locals.contains_key(k) ==> s.locals[k]
            == st.locals[k])) by {
            assert(k != xs[0]);
            if rest.contains(k) {
                let j = choose|j: int| 0 <= j < rest.len() && rest[j] == k;
                assert(xs[j + 1] == k);
            }
        }
    }
}

/// A declaration `int x1, ..., xn;` of any number n >= 1 of distinct names
/// parses: it consumes its 2n + 1 tokens, emits no code, and declares each
/// name xi as a local at offset `local_offset + i` (counting from 1),
/// leaving every other name as it was.
pub proof fn declarations_of_any_length_parse(
    toks: Seq<TokenView>,
    st: ParseState,
    xs: Seq<Seq<char>>,
)
    requires
        xs.len() >= 1,
        0 <= st.pos,
        st.pos + 1 < toks.len(),
        toks[st.pos] == TokenView::Int,
        names_at(toks, st.pos + 1, xs),
        distinct_names(xs),
        0 <= st.local_offset,
        st.local_offset + xs.len() <= i64::MAX,
    ensures
        p_stmt(toks, st) matches Ok(s) && {
            &&& s.pos == st.pos + 2 * xs.len() + 1
            &&& s.code == st.code
            &&& s.globals == st.globals
            &&& s.local_offset == st.local_offset + xs.len()
            &&& forall|i: int| 0 <= i < xs.len() ==> #[trigger] s.locals.contains_key(xs[i])
                && s.locals[xs[i]].offset == st.local_offset + i + 1
            &&& forall|k: Seq<char>| !xs.contains(k) ==> (#[trigger] s.locals.contains_key(k)
                == st.locals.contains_key(k) && (st.locals.contains_key(k) ==> s.locals[k]
                == st.locals[k]))
        },
{
    lemma_decl_names(toks, advance(st), xs);
    let s = p_decl_names(toks, advance(st))->Ok_0;
    assert(p_stmt(toks, st) == Ok::<ParseState, Seq<char>>(s));
    assert forall|i: int| 0 <= i < xs.len() implies #[trigger] s.locals.contains_key(xs[i])
        && s.locals[xs[i]].offset == st.local_offset + i + 1 by {
        assert(s.locals.contains_key(xs[i]));
    }
}

/// An `if` without `else` parses whenever its condition and its branch do,
/// whatever statement the branch is: where `if ( e )` is followed by a
/// statement that parses and no `else` follows that statement, the code is
/// that of `e`, a `Jz` past the branch, and the branch's code.
pub proof fn if_without_else_parses(toks: Seq<TokenView>, st: ParseState)
    requires
        0 <= st.pos,
        cur(toks, st.pos) == TokenView::If,
        cur(toks, st.pos + 1) == TokenView::LParen,
        p_expr(toks, advance(advance(st))) is Ok,
        cur(toks, (p_expr(toks, advance(advance(st)))->Ok_0).pos) == TokenView::RParen,
        p_stmt(toks, emit(advance(p_expr(toks, advance(advance(st)))->Ok_0), Opcode::Jz(0))) is Ok,
        cur(
            toks,
            (p_stmt(
                toks,
                emit(advance(p_expr(toks, advance(advance(st)))->Ok_0), Opcode::Jz(0)),
            )->Ok_0).pos,
        ) != TokenView::Else,
    ensures
        ({
            let s2 = p_expr(toks, advance(advance(st)))->Ok_0;
            let s5 = p_stmt(toks, emit(advance(s2), Opcode::Jz(0)))->Ok_0;
            p_stmt(toks, st) == Ok::<ParseState, Seq<char>>(
                patch(s5, s2.code.len() as int, Opcode::Jz(s5.code.len() as i64)),
            )
        }),
{
    let q1 = advance(advance(st));
    successful_parses_consume_tokens(toks, q1);
    let s2 = p_expr(toks, q1)->Ok_0;
    assert(moved(toks, st, emit(advance(s2), Opcode::Jz(0))));
}

/// `return e ;` parses whenever `e` parses and a `;` follows it: the code
/// is that of `e`, then `Ret`.
pub proof fn return_parses(toks: Seq<TokenView>, st: ParseState)
    requires
        cur(toks, st.pos) == TokenView::Return,
        p_expr(toks, advance(st)) is Ok,
        cur(toks, (p_expr(toks, advance(st))->Ok_0).pos) == TokenView::Semicolon,
    ensures
        p_stmt(toks, st) == Ok::<ParseState, Seq<char>>(
            emit(advance(p_expr(toks, advance(st))->Ok_0), Opcode::Ret),
        ),
{
}

/// `x = e ;` parses whenever `e` parses, `x` is declared and a `;` follows:
/// the code is that of `e`, then a store into the entry of `x`.
pub proof fn assignment_parses(toks: Seq<TokenView>, st: ParseState, x: Seq<char>)
    requires
        cur(toks, st.pos) == TokenView::Ident(x),
        cur(toks, st.pos + 1) == TokenView::Assign,
        p_expr(toks, ParseState { pos: st.pos + 2, ..st }) is Ok,
        variable_offset(st, x) is Some,
        cur(toks, (p_expr(toks, ParseState { pos: st.pos + 2, ..st })->Ok_0).pos)
            == TokenView::Semicolon,
    ensures
        p_stmt(toks, st) == Ok::<ParseState, Seq<char>>(
            advance(
                emit(
                    p_expr(toks, ParseState { pos: st.pos + 2, ..st })->Ok_0,
                    Opcode::St(variable_offset(st, x)->0),
                ),
            ),
        ),
{
    let q = ParseState { pos: st.pos + 2, ..st };
    if 0 <= q.pos <= toks.len() {
        crate::loops::lemma_expr_frame(toks, q, q.code);
    }
    let s1 = p_expr(toks, q)->Ok_0;
    assert(variable_offset(s1, x) == variable_offset(st, x));
    crate::loops::lemma_assignment_statement(toks, st, x, s1);
}

/// `while ( e ) s` parses whenever `e` and `s` parse, whatever statement
/// `s` is: the code is that of `e`, a `Jz` past the loop, the body's code,
/// and a `Jmp` back to the start.
pub proof fn while_parses(toks: Seq<TokenView>, st: ParseState)
    requires
        0 <= st.pos,
        cur(toks, st.pos) == TokenView::While,
        cur(toks, st.pos + 1) == TokenView::LParen,
        p_expr(toks, advance(advance(st))) is Ok,
        cur(toks, (p_expr(toks, advance(advance(st)))->Ok_0).pos) == TokenView::RParen,
        p_stmt(toks, emit(advance(p_expr(toks, advance(advance(st)))->Ok_0), Opcode::Jz(0))) is Ok,
    ensures
        ({
            let s2 = p_expr(toks, advance(advance(st)))->Ok_0;
            let s5 = p_stmt(toks, emit(advance(s2), Opcode::Jz(0)))->Ok_0;
            p_stmt(toks, st) == Ok::<ParseState, Seq<char>>(
                patch(
                    emit(s5, Opcode::Jmp(st.code.len() as i64)),
                    s2.code.len() as int,
                    Opcode::Jz((s5.code.len() + 1) as i64),
                ),
            )
        }),
{
    let q1 = advance(advance(st));
    successful_parses_consume_tokens(toks, q1);
    let s2 = p_expr(toks, q1)->Ok_0;
    assert(moved(toks, st, emit(advance(s2), Opcode::Jz(0))));
}

/// `if ( e ) s1 else s2` parses whenever `e`, `s1` and `s2` parse: the code
/// is that of `e`, a `Jz` to the `else` branch, the code of `s1`, a `Jmp`
/// past the `else` branch, and the code of `s2`.
pub proof fn if_else_parses(toks: Seq<TokenView>, st: ParseState)
    requires
        0 <= st.pos,
        cur(toks, st.pos) == TokenView::If,
        cur(toks, st.pos + 1) == TokenView::LParen,
        p_expr(toks, advance(advance(st))) is Ok,
        cur(toks, (p_expr(toks, advance(advance(st)))->Ok_0).pos) == TokenView::RParen,
        p_stmt(toks, emit(advance(p_expr(toks, advance(advance(st)))->Ok_0), Opcode::Jz(0))) is Ok,
        ({
            let s2 = p_expr(toks, advance(advance(st)))->Ok_0;
            let s5 = p_stmt(toks, emit(advance(s2), Opcode::Jz(0)))->Ok_0;
            let s7 = emit(advance(s5), Opcode::Jmp(0));
            let s8 = patch(s7, s2.code.len() as int, Opcode::Jz(s7.code.len() as i64));
            cur(toks, s5.pos) == TokenView::Else && p_stmt(toks, s8) is Ok
        }),
    ensures
        ({
            let s2 = p_expr(toks, advance(advance(st)))->Ok_0;
            let s5 = p_stmt(toks, emit(advance(s2), Opcode::Jz(0)))->Ok_0;
            let s7 = emit(advance(s5), Opcode::Jmp(0));
            let s8 = patch(s7, s2.code.len() as int, Opcode::Jz(s7.code.len() as i64));
            let s9 = p_stmt(toks, s8)->Ok_0;
            p_stmt(toks, st) == Ok::<ParseState, Seq<char>>(
                patch(s9, s5.code.len() as int, Opcode::Jmp(s9.code.len() as i64)),
            )
        }),
{
    let q1 = advance(advance(st));
    successful_parses_consume_tokens(toks, q1);
    let s2 = p_expr(toks, q1)->Ok_0;
    let s4 = emit(advance(s2), Opcode::Jz(0));
    assert(moved(toks, st, s4));
    successful_parses_consume_tokens(toks, s4);
}

/// A block `{ ... }` parses whenever the statements in it do and a `}`
/// ends them; and a block body runs on through any number of statements:
/// where a statement parses at `st`, the body from `st` is the body from
/// after that statement.
pub proof fn blocks_parse(toks: Seq<TokenView>, st: ParseState)
    requires
        0 <= st.pos <= toks.len(),
    ensures
        cur(toks, st.pos) == TokenView::LBrace && p_block_body(toks, advance(st)) is Ok && cur(
            toks,
            (p_block_body(toks, advance(st))->Ok_0).pos,
        ) == TokenView::RBrace ==> p_stmt(toks, st) == Ok::<ParseState, Seq<char>>(
            advance(p_block_body(toks, advance(st))->Ok_0),
        ),
        cur(toks, st.pos) != TokenView::RBrace && p_stmt(toks, st) is Ok ==> p_block_body(toks, st)
            == p_block_body(toks, p_stmt(toks, st)->Ok_0),
{
    successful_parses_consume_tokens(toks, st);
}

} // verus!
